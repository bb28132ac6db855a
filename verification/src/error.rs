//! The ways in which a request on a puzzle can be turned down.

use vstd::prelude::*;

verus! {

/// Why a request on the puzzle was refused.
#[derive(Debug, Clone, Copy, PartialEq, Eq, Structural)]
pub enum ErrorKind {
    /// No cell holds the blank: the grid is corrupted.
    ZeroNotFound,
    /// Neither of the two cells of an exchange holds the blank.
    CannotExchangeNoneZero,
    /// The two cells of an exchange do not touch.
    CannotExchangeNotNeighbouring,
    /// An index lies outside the grid.
    NotFound,
}

} // verus!
