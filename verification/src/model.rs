//! The puzzle as mathematics: a side length and a row-major sequence of
//! numbers, and what the moves of the game do to it.
//!
//! Adjacency follows the layout of the grid: two cells touch when they are
//! next to each other in one row, or one above the other in one column. The
//! last cell of a row and the first cell of the next row do not touch,
//! although their indices differ by one.

use vstd::prelude::*;
use crate::num_hrd::Direction;

verus! {

/// How far apart two indices are.
pub open spec fn distance(i: int, j: int) -> int {
    if i <= j {
        j - i
    } else {
        i - j
    }
}

/// The contents of a cell of the solved grid of `area` cells: the numbers
/// from 1 on in row-major order, and the blank in the last cell.
pub open spec fn solved_cell(area: nat, i: int) -> nat {
    if i == area - 1 {
        0
    } else {
        (i + 1) as nat
    }
}

/// The numbers `0, 1, ..., area - 1`, each once.
pub open spec fn tile_values(area: nat) -> Seq<nat> {
    Seq::new(area, |v: int| v as nat)
}

/// A grid of `side * side` cells. Cell `(row, column)` is found at index
/// `row * side + column`. The number 0 stands for the blank.
#[verifier::ext_equal]
pub struct Board {
    pub side: nat,
    pub cells: Seq<nat>,
}

impl Board {
    /// Whether `i` is the index of a cell.
    pub open spec fn has(self, i: int) -> bool {
        0 <= i < self.cells.len()
    }

    /// The grid has `side * side` cells, at least one, and they hold the
    /// numbers `0, ..., side * side - 1`, each in exactly one cell. So there
    /// is exactly one blank.
    pub open spec fn wf(self) -> bool {
        &&& self.side >= 1
        &&& self.cells.len() == self.side * self.side
        &&& forall|i: int| 0 <= i < self.cells.len() ==> #[trigger] self.cells[i] < self.cells.len()
        &&& self.cells.no_duplicates()
        &&& forall|v: nat| v < self.cells.len() ==> #[trigger] self.cells.contains(v)
    }

    /// The solved grid of the given side.
    pub open spec fn solved(side: nat) -> Board {
        Board { side, cells: Seq::new(side * side, |i: int| solved_cell(side * side, i)) }
    }

    /// Whether every cell holds what it holds in the solved grid.
    pub open spec fn is_solved(self) -> bool {
        self.cells == Board::solved(self.side).cells
    }

    /// The index of cell `(row, col)`.
    pub open spec fn index_of_point(self, row: int, col: int) -> int {
        row * self.side + col
    }

    /// The index of the cell that holds the blank.
    pub open spec fn blank(self) -> int {
        choose|i: int| 0 <= i < self.cells.len() && self.cells[i] == 0
    }

    /// Whether the cells at `i` and `j` touch: side by side in one row, or
    /// one above the other.
    pub open spec fn neighbouring(self, i: int, j: int) -> bool {
        ||| distance(i, j) == 1 && i / (self.side as int) == j / (self.side as int)
        ||| distance(i, j) == self.side
    }

    /// The index one step from `index` in direction `d`, or `None` where that
    /// step would leave the grid.
    pub open spec fn target(self, index: int, d: Direction) -> Option<int> {
        let side = self.side as int;
        match d {
            Direction::Left => if index % side == 0 {
                None
            } else {
                Some(index - 1)
            },
            Direction::Right => if index % side == side - 1 {
                None
            } else {
                Some(index + 1)
            },
            Direction::Top => if index / side == 0 {
                None
            } else {
                Some(index - side)
            },
            Direction::Bottom => if index / side == side - 1 {
                None
            } else {
                Some(index + side)
            },
        }
    }

    /// The grid with the contents of cells `i` and `j` exchanged.
    pub open spec fn swap(self, i: int, j: int) -> Board {
        Board { side: self.side, cells: self.cells.update(i, self.cells[j]).update(j, self.cells[i]) }
    }

    /// Whether the game allows the contents of cells `i` and `j` to be
    /// exchanged: both are cells, and either they are one and the same, or
    /// they touch and one of them holds the blank.
    pub open spec fn may_exchange(self, i: int, j: int) -> bool {
        &&& self.has(i)
        &&& self.has(j)
        &&& i == j || (self.neighbouring(i, j) && (self.cells[i] == 0 || self.cells[j] == 0))
    }

    /// The grid after the blank was asked to move in direction `d`: at the
    /// edge nothing happens.
    pub open spec fn step(self, d: Direction) -> Board {
        match self.target(self.blank(), d) {
            Some(t) => self.swap(self.blank(), t),
            None => self,
        }
    }

    /// The grid after the blank was asked to make the given moves in turn.
    pub open spec fn walk(self, moves: Seq<Direction>) -> Board
        decreases moves.len(),
    {
        if moves.len() == 0 {
            self
        } else {
            self.walk(moves.drop_last()).step(moves.last())
        }
    }

    /// Whether moves of the blank lead from `self` to `other`.
    pub open spec fn leads_to(self, other: Board) -> bool {
        exists|moves: Seq<Direction>| other == #[trigger] self.walk(moves)
    }

    /// Whether moves of the blank lead from the solved grid to this one. Such
    /// a grid can be solved: every move can be taken back.
    pub open spec fn reachable(self) -> bool {
        Board::solved(self.side).leads_to(self)
    }
}

} // verus!
