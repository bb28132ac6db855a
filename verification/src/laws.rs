//! What holds of every grid, whatever moves led to it.

use vstd::prelude::*;
use crate::model::{distance, tile_values, Board};
use crate::num_hrd::Direction;

verus! {

/// The solved grid is well formed, and it is solved.
pub proof fn lemma_solved_wf(side: nat)
    requires
        side >= 1,
    ensures
        Board::solved(side).wf(),
        Board::solved(side).is_solved(),
        Board::solved(side).side == side,
{
    let b = Board::solved(side);
    let area = side * side;
    assert(area >= 1) by (nonlinear_arith)
        requires
            side >= 1,
            area == side * side,
    ;
    assert forall|v: nat| v < b.cells.len() implies #[trigger] b.cells.contains(v) by {
        let w: int = if v == 0 {
            area - 1
        } else {
            v - 1
        };
        assert(b.cells[w] == v);
    }
}

/// A well-formed grid has exactly one blank, and `blank()` is its index.
pub proof fn lemma_single_blank(b: Board)
    requires
        b.wf(),
    ensures
        b.has(b.blank()),
        b.cells[b.blank()] == 0,
        forall|i: int| b.has(i) && b.cells[i] == 0 ==> i == b.blank(),
        b.cells.to_multiset().count(0) == 1,
{
    assert(b.side * b.side >= 1) by (nonlinear_arith)
        requires
            b.side >= 1,
    ;
    assert(b.cells.contains(0nat));
    let w = choose|i: int| 0 <= i < b.cells.len() && b.cells[i] == 0nat;
    assert(b.has(w) && b.cells[w] == 0);
    b.cells.lemma_multiset_has_no_duplicates();
    b.cells.to_multiset_ensures();
}

/// The cells of a well-formed grid hold the numbers `0, ..., side * side - 1`
/// and nothing else, each once.
pub proof fn lemma_tile_multiset(b: Board)
    requires
        b.wf(),
    ensures
        b.cells.to_multiset() =~= tile_values(b.side * b.side).to_multiset(),
{
    let all = tile_values(b.side * b.side);
    b.cells.lemma_multiset_has_no_duplicates();
    all.lemma_multiset_has_no_duplicates();
    b.cells.to_multiset_ensures();
    all.to_multiset_ensures();
    assert forall|v: nat| b.cells.to_multiset().count(v) == all.to_multiset().count(v) by {
        if v < b.cells.len() {
            assert(b.cells.contains(v));
            assert(all[v as int] == v);
            assert(all.contains(v));
        } else {
            if b.cells.contains(v) {
                let i = choose|i: int| 0 <= i < b.cells.len() && b.cells[i] == v;
                assert(b.cells[i] < b.cells.len());
            }
            if all.contains(v) {
                let i = choose|i: int| 0 <= i < all.len() && all[i] == v;
                assert(all[i] == i);
            }
        }
    }
}

/// Exchanging the contents of two cells keeps the grid well formed, and
/// neither adds a number nor loses one.
pub proof fn lemma_swap_wf(b: Board, i: int, j: int)
    requires
        b.wf(),
        b.has(i),
        b.has(j),
    ensures
        b.swap(i, j).wf(),
        b.swap(i, j).side == b.side,
        b.swap(i, j).cells.to_multiset() =~= b.cells.to_multiset(),
{
    let after = b.swap(i, j);
    assert forall|v: nat| v < after.cells.len() implies #[trigger] after.cells.contains(v) by {
        assert(b.cells.contains(v));
        let w = choose|w: int| 0 <= w < b.cells.len() && b.cells[w] == v;
        let w2 = if w == i {
            j
        } else if w == j {
            i
        } else {
            w
        };
        assert(after.cells[w2] == v);
    }
    lemma_tile_multiset(b);
    lemma_tile_multiset(after);
}

/// Rows and columns: a cell's index splits into a row and a column, both
/// within the side.
pub proof fn lemma_row_col(side: nat, i: int)
    requires
        side >= 1,
        0 <= i < side * side,
    ensures
        0 <= i / (side as int) < side,
        0 <= i % (side as int) < side,
        i == (i / (side as int)) * side + i % (side as int),
{
    let s = side as int;
    vstd::arithmetic::div_mod::lemma_fundamental_div_mod(i, s);
    vstd::arithmetic::div_mod::lemma_mod_bound(i, s);
    let q = i / s;
    assert(s * q == q * s) by (nonlinear_arith);
    assert(q >= 0) by (nonlinear_arith)
        requires
            i == s * q + i % s,
            0 <= i % s < s,
            i >= 0,
            s >= 1,
    ;
    assert(q < s) by (nonlinear_arith)
        requires
            i == s * q + i % s,
            0 <= i % s < s,
            i < s * s,
            s >= 1,
    ;
}

/// Addressing by point and by index agree: cell `(row, col)` lies inside the
/// grid, in that row and that column.
pub proof fn lemma_index_of_point(b: Board, row: int, col: int)
    requires
        b.wf(),
        0 <= row < b.side,
        0 <= col < b.side,
    ensures
        b.has(b.index_of_point(row, col)),
        b.index_of_point(row, col) / (b.side as int) == row,
        b.index_of_point(row, col) % (b.side as int) == col,
{
    let s = b.side as int;
    let i = row * s + col;
    assert(0 <= i < s * s) by (nonlinear_arith)
        requires
            i == row * s + col,
            0 <= row < s,
            0 <= col < s,
    ;
    assert(i == s * row + col) by (nonlinear_arith)
        requires
            i == row * s + col,
    ;
    vstd::arithmetic::div_mod::lemma_fundamental_div_mod_converse(i, s, row, col);
}

/// A step from a cell in some direction ends in a cell of the grid, another
/// one, which touches the first.
pub proof fn lemma_target_neighbouring(b: Board, i: int, d: Direction)
    requires
        b.wf(),
        b.has(i),
        b.target(i, d).is_some(),
    ensures
        b.has(b.target(i, d).unwrap()),
        b.target(i, d).unwrap() != i,
        b.neighbouring(i, b.target(i, d).unwrap()),
{
    let s = b.side as int;
    let q = i / s;
    let r = i % s;
    lemma_row_col(b.side, i);
    assert(i == s * q + r) by (nonlinear_arith)
        requires
            i == q * s + r,
    ;
    match d {
        Direction::Left => {
            vstd::arithmetic::div_mod::lemma_fundamental_div_mod_converse(i - 1, s, q, r - 1);
        },
        Direction::Right => {
            vstd::arithmetic::div_mod::lemma_fundamental_div_mod_converse(i + 1, s, q, r + 1);
            assert(i + 1 < s * s) by (nonlinear_arith)
                requires
                    i == s * q + r,
                    r + 1 < s,
                    0 <= q < s,
            ;
        },
        Direction::Top => {
            assert(i - s >= 0) by (nonlinear_arith)
                requires
                    i == s * q + r,
                    q >= 1,
                    r >= 0,
                    s >= 1,
            ;
        },
        Direction::Bottom => {
            assert(i + s < s * s) by (nonlinear_arith)
                requires
                    i == s * q + r,
                    0 <= q < s - 1,
                    0 <= r < s,
            ;
        },
    }
}

/// Two cells of the grid touch exactly when a step in some direction leads
/// from the one to the other.
pub proof fn lemma_neighbouring_is_one_step(b: Board, i: int, j: int)
    requires
        b.wf(),
        b.has(i),
        b.has(j),
    ensures
        b.neighbouring(i, j) <==> exists|d: Direction| b.target(i, d) == Some(j),
        b.neighbouring(i, j) == b.neighbouring(j, i),
{
    let s = b.side as int;
    lemma_row_col(b.side, i);
    lemma_row_col(b.side, j);
    if b.neighbouring(i, j) {
        let d = if j == i - 1 {
            Direction::Left
        } else if j == i + 1 {
            Direction::Right
        } else if j == i - s {
            Direction::Top
        } else {
            Direction::Bottom
        };
        if distance(i, j) == 1 && i / s == j / s {
            // Side by side in one row: the columns differ by one.
            assert(i % s - j % s == i - j) by (nonlinear_arith)
                requires
                    i == (i / s) * s + i % s,
                    j == (j / s) * s + j % s,
                    i / s == j / s,
            ;
            if s == 1 {
                assert(false);
            }
            assert(b.target(i, d) == Some(j));
        } else {
            // One above the other: the rows differ by one.
            assert(distance(i, j) == s);
            if j == i - s {
                assert((i / s) * s >= s ==> i / s >= 1) by (nonlinear_arith)
                    requires
                        s >= 1,
                ;
                assert(i / s != 0);
            } else {
                assert(j == i + s);
                assert(i / s < s - 1) by (nonlinear_arith)
                    requires
                        i == (i / s) * s + i % s,
                        i + s < s * s,
                        0 <= i % s < s,
                        0 <= i / s < s,
                ;
            }
            assert(b.target(i, d) == Some(j));
        }
    }
    if exists|d: Direction| b.target(i, d) == Some(j) {
        let d = choose|d: Direction| b.target(i, d) == Some(j);
        lemma_target_neighbouring(b, i, d);
    }
}

/// Exchanging the contents of a cell with itself changes nothing.
pub proof fn lemma_swap_same(b: Board, i: int)
    requires
        b.has(i),
    ensures
        b.swap(i, i) == b,
{
    assert(b.swap(i, i) =~= b);
}

/// Exchanging the same two cells once more gives the first grid back.
pub proof fn lemma_swap_twice(b: Board, i: int, j: int)
    requires
        b.has(i),
        b.has(j),
    ensures
        b.swap(i, j).swap(i, j) == b,
        b.swap(i, j) == b.swap(j, i),
{
    assert(b.swap(i, j).swap(i, j) =~= b);
    assert(b.swap(i, j) =~= b.swap(j, i));
}

/// A move of the blank keeps the grid well formed and its numbers the same.
pub proof fn lemma_step_wf(b: Board, d: Direction)
    requires
        b.wf(),
    ensures
        b.step(d).wf(),
        b.step(d).side == b.side,
        b.step(d).cells.to_multiset() =~= b.cells.to_multiset(),
{
    lemma_single_blank(b);
    if b.target(b.blank(), d).is_some() {
        lemma_target_neighbouring(b, b.blank(), d);
        lemma_swap_wf(b, b.blank(), b.target(b.blank(), d).unwrap());
    }
}

/// However many moves the blank is asked to make, the grid stays well
/// formed and its numbers stay the same.
pub proof fn lemma_walk_wf(b: Board, moves: Seq<Direction>)
    requires
        b.wf(),
    ensures
        b.walk(moves).wf(),
        b.walk(moves).side == b.side,
        b.walk(moves).cells.to_multiset() =~= b.cells.to_multiset(),
    decreases moves.len(),
{
    if moves.len() > 0 {
        lemma_walk_wf(b, moves.drop_last());
        lemma_step_wf(b.walk(moves.drop_last()), moves.last());
    }
}

/// One more move at the end of a walk is one step from where the walk ended.
pub proof fn lemma_walk_push(b: Board, moves: Seq<Direction>, d: Direction)
    ensures
        b.walk(moves.push(d)) == b.walk(moves).step(d),
{
    assert(moves.push(d).drop_last() =~= moves);
}

/// Two walks, one after the other, are one walk.
pub proof fn lemma_walk_concat(b: Board, first: Seq<Direction>, second: Seq<Direction>)
    ensures
        b.walk(first + second) == b.walk(first).walk(second),
    decreases second.len(),
{
    if second.len() == 0 {
        assert(first + second =~= first);
    } else {
        lemma_walk_concat(b, first, second.drop_last());
        assert((first + second).drop_last() =~= first + second.drop_last());
        assert((first + second).last() == second.last());
    }
}

/// A move of the blank that changed the grid is undone by the move in the
/// opposite direction.
pub proof fn lemma_step_back(b: Board, d: Direction)
    requires
        b.wf(),
    ensures
        b.step(d).step(d.opposite()) == b || b.step(d) == b,
{
    lemma_single_blank(b);
    let z = b.blank();
    if b.target(z, d).is_some() {
        let t = b.target(z, d).unwrap();
        lemma_target_neighbouring(b, z, d);
        lemma_swap_wf(b, z, t);
        let after = b.swap(z, t);
        lemma_single_blank(after);
        assert(after.cells[t] == 0);
        assert(after.blank() == t);
        let s = b.side as int;
        lemma_row_col(b.side, z);
        lemma_row_col(b.side, t);
        assert(z == s * (z / s) + z % s) by (nonlinear_arith)
            requires
                z == (z / s) * s + z % s,
        ;
        match d {
            Direction::Left => {
                vstd::arithmetic::div_mod::lemma_fundamental_div_mod_converse(
                    z - 1,
                    s,
                    z / s,
                    z % s - 1,
                );
            },
            Direction::Right => {
                vstd::arithmetic::div_mod::lemma_fundamental_div_mod_converse(
                    z + 1,
                    s,
                    z / s,
                    z % s + 1,
                );
            },
            Direction::Top => {
                assert(z - s == s * (z / s - 1) + z % s) by (nonlinear_arith)
                    requires
                        z == s * (z / s) + z % s,
                ;
                vstd::arithmetic::div_mod::lemma_fundamental_div_mod_converse(
                    z - s,
                    s,
                    z / s - 1,
                    z % s,
                );
            },
            Direction::Bottom => {
                assert(z + s == s * (z / s + 1) + z % s) by (nonlinear_arith)
                    requires
                        z == s * (z / s) + z % s,
                ;
                vstd::arithmetic::div_mod::lemma_fundamental_div_mod_converse(
                    z + s,
                    s,
                    z / s + 1,
                    z % s,
                );
            },
        }
        assert(after.target(t, d.opposite()) == Some(z));
        lemma_swap_twice(b, z, t);
        assert(after.swap(t, z) =~= b);
    }
}

/// Whatever walk the blank made, another walk takes it back.
pub proof fn lemma_walk_back(b: Board, moves: Seq<Direction>)
    requires
        b.wf(),
    ensures
        b.walk(moves).leads_to(b),
    decreases moves.len(),
{
    if moves.len() == 0 {
        assert(b == b.walk(Seq::<Direction>::empty()));
    } else {
        let before = b.walk(moves.drop_last());
        let d = moves.last();
        let after = before.step(d);
        lemma_walk_back(b, moves.drop_last());
        lemma_walk_wf(b, moves.drop_last());
        let rest = choose|rest: Seq<Direction>| b == #[trigger] before.walk(rest);
        if after == before {
            assert(b == after.walk(rest));
        } else {
            lemma_step_back(before, d);
            let undo = seq![d.opposite()];
            assert(undo.drop_last() =~= Seq::<Direction>::empty());
            assert(after.walk(undo.drop_last()) == after);
            assert(after.walk(undo) == before);
            lemma_walk_concat(after, undo, rest);
            assert(b == after.walk(undo + rest));
        }
    }
}

/// What a walk leads to from a grid that can be reached from the solved
/// one can be reached from the solved one too.
pub proof fn lemma_walk_reachable(b: Board, moves: Seq<Direction>)
    requires
        b.wf(),
        b.reachable(),
    ensures
        b.walk(moves).reachable(),
{
    let start = Board::solved(b.side);
    let so_far = choose|so_far: Seq<Direction>| b == #[trigger] start.walk(so_far);
    lemma_walk_concat(start, so_far, moves);
    lemma_walk_wf(b, moves);
    assert(b.walk(moves) == start.walk(so_far + moves));
}

/// A move of the blank leads from a grid that can be reached from the
/// solved one to another such grid.
pub proof fn lemma_step_reachable(b: Board, d: Direction)
    requires
        b.wf(),
        b.reachable(),
    ensures
        b.step(d).reachable(),
{
    lemma_walk_push(b, Seq::<Direction>::empty(), d);
    lemma_walk_reachable(b, Seq::<Direction>::empty().push(d));
}

/// A grid that was reached from the solved one by moves of the blank can
/// be solved by moves of the blank.
pub proof fn lemma_reachable_is_solvable(b: Board)
    requires
        b.wf(),
        b.reachable(),
    ensures
        b.leads_to(Board::solved(b.side)),
{
    let start = Board::solved(b.side);
    let so_far = choose|so_far: Seq<Direction>| b == #[trigger] start.walk(so_far);
    lemma_solved_wf(b.side);
    lemma_walk_back(start, so_far);
}

/// The solved grid is reached by the walk of no move.
pub proof fn lemma_solved_reachable(side: nat)
    ensures
        Board::solved(side).reachable(),
{
    let start = Board::solved(side);
    assert(start == start.walk(Seq::<Direction>::empty()));
}

/// An exchange that the game allows, of two different cells, is one move
/// of the blank.
pub proof fn lemma_exchange_is_step(b: Board, i: int, j: int)
    requires
        b.wf(),
        b.may_exchange(i, j),
        i != j,
    ensures
        exists|d: Direction| b.swap(i, j) == #[trigger] b.step(d),
{
    lemma_single_blank(b);
    let z = b.blank();
    let other = if b.cells[i] == 0 {
        j
    } else {
        i
    };
    assert(z == if b.cells[i] == 0 {
        i
    } else {
        j
    });
    lemma_neighbouring_is_one_step(b, i, j);
    lemma_neighbouring_is_one_step(b, z, other);
    let d = choose|d: Direction| b.target(z, d) == Some(other);
    lemma_swap_twice(b, i, j);
    assert(b.step(d) == b.swap(z, other));
    assert(b.swap(i, j) == b.step(d));
}

/// An exchange that the game allows leads from a grid that can be reached
/// from the solved one to another such grid.
pub proof fn lemma_exchange_reachable(b: Board, i: int, j: int)
    requires
        b.wf(),
        b.reachable(),
        b.may_exchange(i, j),
    ensures
        b.swap(i, j).reachable(),
{
    if i == j {
        lemma_swap_same(b, i);
    } else {
        lemma_exchange_is_step(b, i, j);
        let d = choose|d: Direction| b.swap(i, j) == #[trigger] b.step(d);
        let one = seq![d];
        assert(one.drop_last() =~= Seq::<Direction>::empty());
        assert(b.walk(one.drop_last()) == b);
        assert(b.walk(one) == b.step(d));
        lemma_walk_reachable(b, one);
    }
}

} // verus!
