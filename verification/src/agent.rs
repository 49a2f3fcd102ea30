//! The agent: it holds a rack, a board and the weight tables, places the
//! winning candidate so the word spans the centre slot with its best letter
//! on the reachable premium slot, and commits the word to the board.

use crate::anagrams::{
    board_offset, highest_letter_index, is_first_max, lemma_first_max_unique, Anagram,
};
use crate::board::Board;
use crate::rack::{is_rack_symbol, wildcard_count, Rack};
use crate::scoring::{letter_score, score_fits_u32, score_sum};
use crate::scrabble_move::ScrabbleMove;
use crate::text::str_to_chars;
use crate::weighted_group::WeightedGroups;
use vstd::prelude::*;

verus! {

/// The solving agent: a rack of seven tiles, the board row, and the weight
/// tables it scores with.
pub struct Agent {
    pub rack: Rack,
    pub board: Board,
    pub score_group: WeightedGroups,
}

impl Agent {
    /// A fresh agent: a randomly drawn rack, an empty board, the tables.
    pub fn new() -> (agent: Agent)
        ensures
            agent.score_group.wf(),
            agent.rack.weighted_groups.wf(),
            agent.rack.letters@.len() == 7,
            wildcard_count(agent.rack.letters@) <= 2,
            forall|k: int|
                0 <= k < agent.rack.letters@.len() ==> is_rack_symbol(
                    #[trigger] agent.rack.letters@[k],
                ),
            agent.board.spaces@.len() == 13,
            forall|i: int| 0 <= i < agent.board.spaces@.len() ==> agent.board.spaces@[i] is None,
            agent.board.score == 0,
    {
        Agent { rack: Rack::new(), board: Board::new(), score_group: WeightedGroups::new() }
    }

    /// The placement for one candidate: a short word (under five letters)
    /// starts on the centre slot, a longer one is placed by the offset
    /// table so its first highest-value letter sits on the premium slot.
    /// The word's final score, the plain letter sum plus the doubled best
    /// letter for long words, is recorded on the board.
    pub fn find_best_move(&mut self, anagram: &Anagram) -> (m: ScrabbleMove)
        requires
            old(self).score_group.wf(),
            score_fits_u32(anagram.word@.len() as int),
        ensures
            final(self).rack == old(self).rack,
            final(self).score_group == old(self).score_group,
            final(self).board.spaces == old(self).board.spaces,
            m.anagram.word@ == anagram.word@,
            m.anagram.score == anagram.score,
            anagram.word@.len() < 5 ==> m.starting_element == 6 && final(self).board.score as int
                == score_sum(anagram.word@),
            anagram.word@.len() >= 5 ==> forall|i: int|
                is_first_max(anagram.word@, i) ==> m.starting_element as int == board_offset(
                    anagram.word@.len() as int,
                    i,
                ) && final(self).board.score as int == score_sum(anagram.word@) + letter_score(
                    anagram.word@[i],
                ),
    {
        let word_chars = str_to_chars(anagram.word.as_str());
        let len = word_chars.len();
        if len < 5 {
            let mut final_score: u32 = 0;
            for i in 0..len
                invariant
                    self == old(self),
                    self.score_group.wf(),
                    len == word_chars@.len(),
                    word_chars@ == anagram.word@,
                    score_fits_u32(anagram.word@.len() as int),
                    final_score as int == score_sum(anagram.word@.take(i as int)),
                    final_score <= 10 * i,
            {
                proof {
                    assert(anagram.word@.take(i + 1).drop_last() =~= anagram.word@.take(i as int));
                    assert(anagram.word@.take(i + 1).last() == anagram.word@[i as int]);
                }
                final_score += self.score_group.get_score(word_chars[i]);
            }
            proof {
                assert(anagram.word@.take(len as int) =~= anagram.word@);
            }
            self.board.set_score(final_score);
            return ScrabbleMove::new(anagram.clone(), 6);
        }
        let idx = highest_letter_index(&word_chars, &self.score_group);
        let final_score = self.get_final_score(anagram.word.as_str(), idx);
        self.board.set_score(final_score);
        let offset: u32 = if len == 5 {
            if idx == 0 {
                3
            } else {
                6
            }
        } else if len == 6 {
            if idx == 0 {
                3
            } else if idx == 1 {
                2
            } else if idx == 5 {
                5
            } else {
                4
            }
        } else {
            if idx == 0 {
                3
            } else if idx == 1 {
                2
            } else if idx == 2 {
                1
            } else if idx == 5 {
                5
            } else if idx == 4 {
                4
            } else {
                3
            }
        };
        proof {
            assert forall|i: int| is_first_max(anagram.word@, i) implies offset as int
                == board_offset(anagram.word@.len() as int, i) && self.board.score as int
                == score_sum(anagram.word@) + letter_score(anagram.word@[i]) by {
                lemma_first_max_unique(anagram.word@, i, idx as int);
            }
        }
        ScrabbleMove::new(anagram.clone(), offset)
    }

    /// The final score of a word placed with the letter at the given index
    /// on the double-letter slot: the plain letter sum, plus that letter's
    /// value once more.
    pub fn get_final_score(&self, word: &str, double_letter_index: usize) -> (score: u32)
        requires
            self.score_group.wf(),
            double_letter_index < word@.len(),
            score_fits_u32(word@.len() as int),
        ensures
            score as int == score_sum(word@) + letter_score(word@[double_letter_index as int]),
    {
        let word_chars = str_to_chars(word);
        let double_score = self.score_group.get_score(word_chars[double_letter_index]);
        let mut final_score: u32 = 0;
        let len = word_chars.len();
        for i in 0..len
            invariant
                self.score_group.wf(),
                len == word_chars@.len(),
                word_chars@ == word@,
                score_fits_u32(word@.len() as int),
                final_score as int == score_sum(word@.take(i as int)),
                final_score <= 10 * i,
                double_score <= 10,
        {
            proof {
                assert(word@.take(i + 1).drop_last() =~= word@.take(i as int));
                assert(word@.take(i + 1).last() == word@[i as int]);
            }
            final_score += self.score_group.get_score(word_chars[i]);
        }
        proof {
            assert(word@.take(len as int) =~= word@);
        }
        final_score + double_score
    }

    /// Commits the word to the board, one letter per slot from the starting
    /// slot on. A word that would run past the end of the row is refused
    /// and the board left untouched.
    pub fn make_move(&mut self, anagram: &Anagram, starting_element: u32) -> (ok: bool)
        ensures
            final(self).rack == old(self).rack,
            final(self).score_group == old(self).score_group,
            final(self).board.score == old(self).board.score,
            ok == (starting_element as int + anagram.word@.len()
                <= old(self).board.spaces@.len()),
            ok ==> {
                &&& final(self).board.spaces@.len() == old(self).board.spaces@.len()
                &&& forall|i: int|
                    0 <= i < anagram.word@.len() ==> final(self).board.spaces@[starting_element
                        + i] == Some(anagram.word@[i])
                &&& forall|i: int|
                    0 <= i < old(self).board.spaces@.len() && !(starting_element <= i
                        < starting_element + anagram.word@.len())
                        ==> final(self).board.spaces@[i] == old(self).board.spaces@[i]
            },
            !ok ==> final(self).board.spaces == old(self).board.spaces,
    {
        let chars = str_to_chars(anagram.word.as_str());
        let len = chars.len();
        let start = starting_element as usize;
        let width = self.board.spaces.len();
        if start > width || len > width - start {
            return false;
        }
        for i in 0..len
            invariant
                self.rack == old(self).rack,
                self.score_group == old(self).score_group,
                self.board.score == old(self).board.score,
                len == chars@.len(),
                chars@ == anagram.word@,
                start == starting_element as int,
                start + len <= usize::MAX,
                start + len <= self.board.spaces@.len(),
                self.board.spaces@.len() == old(self).board.spaces@.len(),
                forall|j: int|
                    0 <= j < i ==> self.board.spaces@[start + j] == Some(anagram.word@[j]),
                forall|j: int|
                    0 <= j < self.board.spaces@.len() && !(start <= j < start + i) ==> self.board.spaces@[j]
                        == old(self).board.spaces@[j],
        {
            self.board.spaces[start + i] = Some(chars[i]);
        }
        true
    }
}

} // verus!
