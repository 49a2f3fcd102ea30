//! The board: the single playable row of thirteen slots, with the recorded
//! score of the move committed to it.

use vstd::prelude::*;

verus! {

/// The width of the playable row.
pub const ROW_WIDTH: usize = 13;

/// The middle row of the board: thirteen optional letter slots (slot six is
/// the centre square) and the score the agent records.
pub struct Board {
    pub spaces: Vec<Option<char>>,
    pub score: u32,
}

impl Board {
    /// A fresh board: thirteen empty slots, score zero.
    pub fn new() -> (b: Board)
        ensures
            b.spaces@.len() == ROW_WIDTH,
            forall|i: int| 0 <= i < b.spaces@.len() ==> b.spaces@[i] is None,
            b.score == 0,
    {
        let mut spaces: Vec<Option<char>> = Vec::new();
        for k in 0..ROW_WIDTH
            invariant
                spaces@.len() == k,
                forall|i: int| 0 <= i < spaces@.len() ==> spaces@[i] is None,
        {
            spaces.push(Option::None);
        }
        Board { spaces, score: 0 }
    }

    pub fn set_score(&mut self, score: u32)
        ensures
            final(self).score == score,
            final(self).spaces == old(self).spaces,
    {
        self.score = score;
    }
}

} // verus!
