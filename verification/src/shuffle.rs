//! Shuffling: a random walk of the blank, so that what comes out can always
//! be solved again.

use vstd::prelude::*;
use crate::error::ErrorKind;
use crate::laws::{lemma_walk_push, lemma_walk_reachable, lemma_walk_wf};
use crate::num_hrd::{Direction, NumHrd};

verus! {

/// The number of moves that a shuffle makes where the caller has no wish of
/// their own: enough to leave little of the solved order on a small grid.
pub const DEFAULT_MOVE_COUNT: usize = 50;

/// A source of random draws, handed to `shuffle` by the caller. The puzzle
/// keeps no source of its own, so a source that repeats its draws makes a
/// shuffle that repeats itself.
pub trait RandomSource {
    /// The next draw. For a fair shuffle every `u32` is as likely as any
    /// other.
    fn next_u32(&mut self) -> u32;
}

/// Shuffles the puzzle: asks the blank `move_count` times to move in the
/// direction of the next draw (see `Direction::from_draw`).
///
/// The grid that comes out is what a walk of `move_count` moves of the blank
/// leads to from the grid that went in. Which walk, the draws decide. So a
/// shuffled grid is well formed, and where the grid that went in could be
/// reached from the solved one, so can the grid that comes out: it can be
/// solved. A failed move would end the shuffle at once with its error; on a
/// well-formed grid no move fails.
pub fn shuffle<R: RandomSource>(board: &mut NumHrd, move_count: usize, random_source: &mut R) -> (r:
    Result<(), ErrorKind>)
    requires
        old(board).wf(),
    ensures
        final(board).wf(),
        r.is_ok(),
        exists|moves: Seq<Direction>|
            moves.len() == move_count && final(board)@ == #[trigger] old(board)@.walk(moves),
        old(board)@.reachable() ==> final(board)@.reachable(),
{
    let ghost mut moves: Seq<Direction> = Seq::empty();
    let mut done: usize = 0;
    while done < move_count
        invariant
            old(board).wf(),
            board.wf(),
            done <= move_count,
            moves.len() == done,
            board@ == old(board)@.walk(moves),
        decreases move_count - done,
    {
        let d = Direction::from_draw(random_source.next_u32());
        match board.zero_move(&d) {
            Ok(_) => {},
            Err(e) => {
                return Err(e);
            },
        }
        proof {
            lemma_walk_push(old(board)@, moves, d);
            moves = moves.push(d);
        }
        done += 1;
    }
    proof {
        lemma_walk_wf(old(board)@, moves);
        if old(board)@.reachable() {
            lemma_walk_reachable(old(board)@, moves);
        }
    }
    Ok(())
}

} // verus!
