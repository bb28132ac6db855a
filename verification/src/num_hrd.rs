//! The puzzle itself: tiles, directions and the grid that owns them.

use vstd::prelude::*;
use vstd::std_specs::cmp::PartialEqSpecImpl;
use crate::error::ErrorKind;
use crate::laws::{
    lemma_exchange_reachable, lemma_index_of_point, lemma_single_blank, lemma_solved_reachable,
    lemma_solved_wf, lemma_swap_same, lemma_swap_wf,
    lemma_target_neighbouring,
};
use crate::model::Board;

verus! {

/// The way in which the blank is asked to move within the grid.
#[derive(Debug, Clone, Copy, PartialEq, Eq, Structural)]
pub enum Direction {
    Top,
    Bottom,
    Left,
    Right,
}

impl Direction {
    /// The direction that a raw draw stands for: its remainder modulo four,
    /// in the order `Top`, `Bottom`, `Left`, `Right`.
    pub open spec fn of_draw(draw: u32) -> Direction {
        if draw % 4 == 0 {
            Direction::Top
        } else if draw % 4 == 1 {
            Direction::Bottom
        } else if draw % 4 == 2 {
            Direction::Left
        } else {
            Direction::Right
        }
    }

    /// The direction that undoes a move made in this one.
    pub open spec fn opposite(self) -> Direction {
        match self {
            Direction::Top => Direction::Bottom,
            Direction::Bottom => Direction::Top,
            Direction::Left => Direction::Right,
            Direction::Right => Direction::Left,
        }
    }

    /// Turns a raw draw into a direction. Every direction is the image of
    /// exactly a quarter of all draws, so uniform draws give uniform
    /// directions.
    pub fn from_draw(draw: u32) -> (d: Direction)
        ensures
            d == Direction::of_draw(draw),
    {
        let k: u32 = draw % 4;
        if k == 0 {
            Direction::Top
        } else if k == 1 {
            Direction::Bottom
        } else if k == 2 {
            Direction::Left
        } else {
            Direction::Right
        }
    }
}

/// One tile of the grid. The tile whose number is 0 is the blank.
#[derive(Debug, Clone, Copy, PartialEq, Eq, Structural)]
pub struct Num {
    n: usize,
}

impl View for Num {
    type V = nat;

    /// A tile is nothing but its number.
    closed spec fn view(&self) -> nat {
        self.n as nat
    }
}

impl Default for Num {
    /// The blank.
    fn default() -> (t: Num)
        ensures
            t@ == 0,
    {
        Num { n: 0 }
    }
}

impl Num {
    /// The tile that carries the number `n`.
    pub fn new(n: &usize) -> (t: Num)
        ensures
            t@ == *n,
    {
        Num { n: *n }
    }

    /// Whether this tile is the blank.
    pub fn is_empty(&self) -> (b: bool)
        ensures
            b == (self@ == 0),
    {
        self.n == 0
    }

    /// The number on the tile.
    pub fn get_n(&self) -> (n: usize)
        ensures
            n == self@,
    {
        self.n
    }

    /// Two tiles are the same tile exactly when they carry the same number.
    pub proof fn lemma_same_number(a: Num, b: Num)
        ensures
            (a == b) == (a@ == b@),
    {
    }
}

/// The numbers that a row of tiles carries.
pub open spec fn numbers(tiles: Seq<Num>) -> Seq<nat> {
    tiles.map_values(|t: Num| t@)
}

/// A sliding-tile puzzle: a square grid of numbered tiles with one blank,
/// kept in row-major order.
///
/// The grid is created solved and changes only by exchanges of the blank
/// with a tile next to it, so it always holds each of the numbers
/// `0, ..., side * side - 1` once.
#[derive(Debug)]
pub struct NumHrd {
    size: u8,
    nums: Vec<Num>,
}

impl View for NumHrd {
    type V = Board;

    closed spec fn view(&self) -> Board {
        Board { side: self.size as nat, cells: numbers(self.nums@) }
    }
}

impl Clone for NumHrd {
    /// A second puzzle with the same side and the same numbers in the same
    /// cells, which shares nothing with the first.
    fn clone(&self) -> (copy: NumHrd)
        ensures
            copy@ == self@,
    {
        let mut nums: Vec<Num> = Vec::new();
        let mut i: usize = 0;
        while i < self.nums.len()
            invariant
                i <= self.nums.len(),
                nums@ == self.nums@.subrange(0, i as int),
            decreases self.nums.len() - i,
        {
            nums.push(self.nums[i]);
            i += 1;
        }
        assert(nums@ =~= self.nums@);
        NumHrd { size: self.size, nums }
    }
}

impl PartialEq for NumHrd {
    /// Two puzzles are equal when they have the same side and hold the same
    /// numbers in the same cells.
    fn eq(&self, other: &NumHrd) -> (same: bool) {
        let same = self.size == other.size && same_numbers(&self.nums, &other.nums);
        assert(same == (self@ == other@)) by {
            if same {
                assert(self@ =~= other@);
            }
        }
        same
    }
}

impl PartialEqSpecImpl for NumHrd {
    open spec fn obeys_eq_spec() -> bool {
        true
    }

    open spec fn eq_spec(&self, other: &NumHrd) -> bool {
        self@ == other@
    }
}

impl NumHrd {
    /// The grid is a square that holds each of its numbers once.
    pub open spec fn wf(&self) -> bool {
        self@.wf()
    }

    /// A solved puzzle with `s` rows and `s` columns. A side of 0 is taken as
    /// a side of 1: the puzzle of a single cell, which holds the blank, and in
    /// which no move changes anything.
    pub fn new(s: &u8) -> (puzzle: NumHrd)
        ensures
            puzzle.wf(),
            puzzle@ == Board::solved(if *s == 0 { 1nat } else { *s as nat }),
            puzzle@.is_solved(),
            puzzle@.reachable(),
    {
        let size: u8 = if *s == 0 { 1 } else { *s };
        let side: usize = size as usize;
        assert(1 <= side * side <= 65025) by (nonlinear_arith)
            requires
                1 <= side <= 255,
        ;
        let nums_len: usize = side * side;
        let mut nums: Vec<Num> = Vec::new();
        let mut i: usize = 1;
        while i < nums_len
            invariant
                1 <= i <= nums_len,
                nums@.len() == i - 1,
                forall|k: int| 0 <= k < i - 1 ==> (#[trigger] nums@[k])@ == k + 1,
            decreases nums_len - i,
        {
            nums.push(Num::new(&i));
            i += 1;
        }
        nums.push(Num::new(&0));
        let puzzle = NumHrd { size, nums };
        proof {
            lemma_solved_wf(size as nat);
            lemma_solved_reachable(size as nat);
            assert(puzzle@ =~= Board::solved(size as nat));
        }
        puzzle
    }

    /// The number of rows, which is the number of columns.
    pub fn size(&self) -> (s: &u8)
        ensures
            *s == self@.side,
    {
        &self.size
    }

    /// The number of cells.
    pub fn len(&self) -> (n: usize)
        ensures
            n == self@.side * self@.side,
            self.wf() ==> n == self@.cells.len(),
    {
        let side: usize = self.size as usize;
        assert(side * side <= 65025) by (nonlinear_arith)
            requires
                side <= 255,
        ;
        side * side
    }

    /// The tiles in row-major order.
    pub fn data(&self) -> (tiles: &Vec<Num>)
        ensures
            numbers(tiles@) == self@.cells,
    {
        &self.nums
    }

    /// The tile in the cell at index `n`, or `None` where the grid has no such
    /// cell.
    pub fn num_by_index(&self, n: &usize) -> (tile: Option<&Num>)
        ensures
            self@.has(*n as int) ==> tile.is_some() && tile.unwrap()@ == self@.cells[*n as int],
            !self@.has(*n as int) ==> tile.is_none(),
    {
        if *n >= self.nums.len() {
            return None;
        }
        Some(&self.nums[*n])
    }

    /// Whether the cells at the two indices touch: side by side in one row,
    /// or one above the other in one column. The end of one row and the start
    /// of the next do not touch.
    pub fn is_neighbouring(&self, one: &usize, other: &usize) -> (b: bool)
        requires
            self.wf(),
        ensures
            b == self@.neighbouring(*one as int, *other as int),
    {
        let side: usize = self.size as usize;
        let lo: usize = if *one <= *other { *one } else { *other };
        let hi: usize = if *one <= *other { *other } else { *one };
        let diff: usize = hi - lo;
        (diff == 1 && lo / side == hi / side) || diff == side
    }

    /// Exchanges the contents of the cells at the two indices, where the game
    /// allows it.
    ///
    /// An index outside the grid is refused first. A cell may always be
    /// exchanged with itself, which changes nothing. Two different cells must
    /// touch, and one of them must hold the blank. A refused exchange leaves
    /// the grid as it was.
    pub fn exchange(&mut self, one_index: &usize, other_index: &usize) -> (r: Result<(), ErrorKind>)
        requires
            old(self).wf(),
        ensures
            final(self).wf(),
            r.is_ok() <==> old(self)@.may_exchange(*one_index as int, *other_index as int),
            r.is_ok() ==> final(self)@ == old(self)@.swap(*one_index as int, *other_index as int),
            r.is_err() ==> final(self)@ == old(self)@,
            r == Err::<(), ErrorKind>(ErrorKind::NotFound) <==> !old(self)@.has(*one_index as int)
                || !old(self)@.has(*other_index as int),
            r == Err::<(), ErrorKind>(ErrorKind::CannotExchangeNotNeighbouring) <==> {
                &&& old(self)@.has(*one_index as int)
                &&& old(self)@.has(*other_index as int)
                &&& *one_index != *other_index
                &&& !old(self)@.neighbouring(*one_index as int, *other_index as int)
            },
            r == Err::<(), ErrorKind>(ErrorKind::CannotExchangeNoneZero) <==> {
                &&& old(self)@.has(*one_index as int)
                &&& old(self)@.has(*other_index as int)
                &&& old(self)@.neighbouring(*one_index as int, *other_index as int)
                &&& old(self)@.cells[*one_index as int] != 0
                &&& old(self)@.cells[*other_index as int] != 0
            },
            *one_index == *other_index && old(self)@.has(*one_index as int) ==> r.is_ok()
                && final(self)@ == old(self)@,
            old(self)@.reachable() ==> final(self)@.reachable(),
    {
        let i: usize = *one_index;
        let j: usize = *other_index;
        if i >= self.nums.len() || j >= self.nums.len() {
            return Err(ErrorKind::NotFound);
        }
        if i == j {
            proof {
                lemma_swap_same(self@, i as int);
            }
            return Ok(());
        }
        if !self.is_neighbouring(one_index, other_index) {
            return Err(ErrorKind::CannotExchangeNotNeighbouring);
        }
        let one: Num = self.nums[i];
        let other: Num = self.nums[j];
        if !one.is_empty() && !other.is_empty() {
            return Err(ErrorKind::CannotExchangeNoneZero);
        }
        self.nums[i] = other;
        self.nums[j] = one;
        proof {
            lemma_swap_wf(old(self)@, i as int, j as int);
            if old(self)@.reachable() {
                lemma_exchange_reachable(old(self)@, i as int, j as int);
            }
            assert(self@ =~= old(self)@.swap(i as int, j as int));
        }
        Ok(())
    }

    /// The index one step from `index` in direction `d`, or `None` where that
    /// step would leave the grid: to the left of the first column, to the
    /// right of the last, above the first row, below the last. The result is
    /// also `None` where the index asked for is no `usize`.
    pub fn get_dirction_index(&self, index: &usize, d: &Direction) -> (r: Option<usize>)
        requires
            self.wf(),
        ensures
            match self@.target(*index as int, *d) {
                Some(t) => if t <= usize::MAX {
                    r == Some(t as usize)
                } else {
                    r.is_none()
                },
                None => r.is_none(),
            },
            self@.has(*index as int) ==> (r.is_some() <==> self@.target(*index as int, *d).is_some()),
            self@.has(*index as int) && r.is_some() ==> self@.has(r.unwrap() as int),
    {
        let tmp_size: usize = self.size as usize;
        let i: usize = *index;
        proof {
            let s = tmp_size as int;
            vstd::arithmetic::div_mod::lemma_fundamental_div_mod(i as int, s);
            vstd::arithmetic::div_mod::lemma_mod_bound(i as int, s);
            assert((i as int) / s >= 1 ==> i >= s) by (nonlinear_arith)
                requires
                    i as int == s * ((i as int) / s) + (i as int) % s,
                    (i as int) % s >= 0,
                    s >= 1,
            ;
            if self@.has(i as int) && self@.target(i as int, *d).is_some() {
                lemma_target_neighbouring(self@, i as int, *d);
                assert(self@.cells.len() == self.nums.len());
            }
        }
        match d {
            Direction::Left => {
                if i % tmp_size == 0 {
                    None
                } else {
                    Some(i - 1)
                }
            },
            Direction::Right => {
                if i % tmp_size == tmp_size - 1 {
                    None
                } else {
                    i.checked_add(1)
                }
            },
            Direction::Top => {
                if i / tmp_size == 0 {
                    None
                } else {
                    Some(i - tmp_size)
                }
            },
            Direction::Bottom => {
                if i / tmp_size == tmp_size - 1 {
                    None
                } else {
                    i.checked_add(tmp_size)
                }
            },
        }
    }

    /// The index of cell `(row, column)`: `row * side + column`. Nothing is
    /// asked of the point: one outside the grid gives an index of some other
    /// cell, or of none.
    pub fn index_by_point(&self, p: (u8, u8)) -> (index: usize)
        ensures
            index == self@.index_of_point(p.0 as int, p.1 as int),
    {
        let row: usize = p.0 as usize;
        let col: usize = p.1 as usize;
        let side: usize = self.size as usize;
        assert(row * side <= 65025) by (nonlinear_arith)
            requires
                row <= 255,
                side <= 255,
        ;
        row * side + col
    }

    /// The tile in cell `(row, column)`, or `None` where the index of that
    /// point is the index of no cell.
    pub fn num_by_point(&self, p: (u8, u8)) -> (tile: Option<&Num>)
        ensures
            self@.has(self@.index_of_point(p.0 as int, p.1 as int)) ==> tile.is_some()
                && tile.unwrap()@ == self@.cells[self@.index_of_point(p.0 as int, p.1 as int)],
            !self@.has(self@.index_of_point(p.0 as int, p.1 as int)) ==> tile.is_none(),
    {
        let index: usize = self.index_by_point(p);
        self.num_by_index(&index)
    }

    /// The index of the first cell that holds the number `n`, or `None` where
    /// no cell holds it. In a well-formed grid every number below the number
    /// of cells is found, in the one cell that holds it.
    pub fn index_by_n(&self, n: &usize) -> (r: Option<usize>)
        ensures
            match r {
                Some(i) => {
                    &&& self@.has(i as int)
                    &&& self@.cells[i as int] == *n
                    &&& forall|k: int| 0 <= k < i ==> self@.cells[k] != *n
                },
                None => forall|k: int| self@.has(k) ==> self@.cells[k] != *n,
            },
            self.wf() ==> (r.is_some() <==> *n < self@.cells.len()),
            self.wf() && *n == 0 ==> r == Some(self@.blank() as usize),
    {
        let mut i: usize = 0;
        while i < self.nums.len()
            invariant
                i <= self.nums.len(),
                self@.cells.len() == self.nums.len(),
                forall|k: int| 0 <= k < i ==> self@.cells[k] != *n,
            decreases self.nums.len() - i,
        {
            if self.nums[i].get_n() == *n {
                proof {
                    assert(self@.cells[i as int] == *n);
                    if self.wf() {
                        assert(self@.cells[i as int] < self@.cells.len());
                        if *n == 0 {
                            lemma_single_blank(self@);
                            assert(self@.has(i as int));
                        }
                    }
                }
                return Some(i);
            }
            i += 1;
        }
        proof {
            if self.wf() {
                lemma_single_blank(self@);
            }
            if self.wf() && *n < self@.cells.len() {
                assert(self@.cells.contains(*n as nat));
                let w = choose|w: int| 0 <= w < self@.cells.len() && self@.cells[w] == *n as nat;
                assert(self@.cells[w] != *n);
            }
        }
        None
    }

    /// Whether the puzzle is solved: whether every cell holds what it holds
    /// in a newly made puzzle of the same side.
    pub fn is_win(&self) -> (won: bool)
        requires
            self.wf(),
        ensures
            won == self@.is_solved(),
    {
        let solved = NumHrd::new(&self.size);
        same_numbers(&self.nums, &solved.nums)
    }

    /// Asks the blank to move one step in direction `d`. At the edge of the
    /// grid the request is accepted and nothing changes. In a well-formed
    /// grid the request never fails.
    pub fn zero_move(&mut self, d: &Direction) -> (r: Result<bool, ErrorKind>)
        requires
            old(self).wf(),
        ensures
            final(self).wf(),
            r == Ok::<bool, ErrorKind>(true),
            final(self)@ == old(self)@.step(*d),
            old(self)@.reachable() ==> final(self)@.reachable(),
    {
        let zero_index_opt = self.index_by_n(&0);
        match zero_index_opt {
            Some(zero_index) => {
                if let Some(other_index) = self.get_dirction_index(&zero_index, d) {
                    proof {
                        lemma_single_blank(self@);
                        lemma_target_neighbouring(self@, zero_index as int, *d);
                    }
                    match self.exchange(&zero_index, &other_index) {
                        Ok(_) => {},
                        Err(e) => {
                            return Err(e);
                        },
                    }
                }
                Ok(true)
            },
            None => Err(ErrorKind::ZeroNotFound),
        }
    }

    /// Slides the tile at `index` into the blank, where the game allows it:
    /// exchanges the cell at `index` with the cell of the blank. Says whether
    /// the exchange was allowed; a refused one leaves the grid as it was.
    pub fn move_num(&mut self, index: usize) -> (moved: bool)
        requires
            old(self).wf(),
        ensures
            final(self).wf(),
            moved == old(self)@.may_exchange(index as int, old(self)@.blank()),
            moved ==> final(self)@ == old(self)@.swap(index as int, old(self)@.blank()),
            !moved ==> final(self)@ == old(self)@,
            old(self)@.reachable() ==> final(self)@.reachable(),
    {
        if let Some(zero_index) = self.index_by_n(&0) {
            return match self.exchange(&index, &zero_index) {
                Ok(_) => true,
                Err(_) => false,
            };
        }
        false
    }

    /// Slides the tile in cell `(row, column)` into the blank, where the game
    /// allows it, as `move_num` does for the index of that point.
    pub fn move_num_by_point(&mut self, point: (u8, u8)) -> (moved: bool)
        requires
            old(self).wf(),
        ensures
            final(self).wf(),
            moved == old(self)@.may_exchange(
                old(self)@.index_of_point(point.0 as int, point.1 as int),
                old(self)@.blank(),
            ),
            moved ==> final(self)@ == old(self)@.swap(
                old(self)@.index_of_point(point.0 as int, point.1 as int),
                old(self)@.blank(),
            ),
            !moved ==> final(self)@ == old(self)@,
            old(self)@.reachable() ==> final(self)@.reachable(),
    {
        let index: usize = self.index_by_point(point);
        self.move_num(index)
    }
    /// A copy of the grid as rows of numbers, from the top row down, each
    /// row from left to right.
    pub fn as_2d_vec(&self) -> (rows: Vec<Vec<usize>>)
        requires
            self.wf(),
        ensures
            rows@.len() == self@.side,
            forall|i: int| 0 <= i < self@.side ==> (#[trigger] rows@[i])@.len() == self@.side,
            forall|i: int, j: int|
                0 <= i < self@.side && 0 <= j < self@.side ==> (#[trigger] rows@[i]@[j])
                    == self@.cells[self@.index_of_point(i, j)],
    {
        let side: usize = self.size as usize;
        let mut rows: Vec<Vec<usize>> = Vec::new();
        let mut i: usize = 0;
        while i < side
            invariant
                self.wf(),
                side == self@.side,
                i <= side,
                rows@.len() == i,
                forall|r: int| 0 <= r < i ==> (#[trigger] rows@[r])@.len() == side,
                forall|r: int, c: int|
                    0 <= r < i && 0 <= c < side ==> (#[trigger] rows@[r]@[c])
                        == self@.cells[self@.index_of_point(r, c)],
            decreases side - i,
        {
            let mut row: Vec<usize> = Vec::new();
            let mut j: usize = 0;
            while j < side
                invariant
                    self.wf(),
                    side == self@.side,
                    i < side,
                    j <= side,
                    row@.len() == j,
                    forall|c: int|
                        0 <= c < j ==> (#[trigger] row@[c]) == self@.cells[self@.index_of_point(
                            i as int,
                            c,
                        )],
                decreases side - j,
            {
                proof {
                    lemma_index_of_point(self@, i as int, j as int);
                    assert(self@.cells.len() == self.nums.len());
                    assert(i * side == (i as int) * (self@.side as int)) by (nonlinear_arith)
                        requires
                            side == self@.side,
                    ;
                    assert(i * side >= 0) by (nonlinear_arith);
                }
                let index: usize = i * side + j;
                row.push(self.nums[index].get_n());
                j += 1;
            }
            rows.push(row);
            i += 1;
        }
        rows
    }
}

/// Whether two rows of tiles carry the same numbers in the same order.
fn same_numbers(a: &Vec<Num>, b: &Vec<Num>) -> (same: bool)
    ensures
        same == (numbers(a@) == numbers(b@)),
{
    if a.len() != b.len() {
        assert(numbers(a@).len() != numbers(b@).len());
        return false;
    }
    let mut i: usize = 0;
    while i < a.len()
        invariant
            i <= a.len(),
            a.len() == b.len(),
            forall|k: int| 0 <= k < i ==> numbers(a@)[k] == numbers(b@)[k],
        decreases a.len() - i,
    {
        if a[i].get_n() != b[i].get_n() {
            assert(numbers(a@)[i as int] != numbers(b@)[i as int]);
            return false;
        }
        i += 1;
    }
    assert(numbers(a@) =~= numbers(b@));
    true
}

} // verus!
