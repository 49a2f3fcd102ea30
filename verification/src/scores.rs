//! The point table on its own, for callers that need scores but not the
//! bag's frequency weights.

use crate::scoring::{lemma_score_table_lookup, lemma_score_table_miss, letter_score, score_table};
use crate::text::contains_char;
use vstd::prelude::*;

verus! {

/// A set of letters that share one point value.
#[derive(Clone)]
pub struct ScoreGroup {
    pub letters: Vec<char>,
    pub score: u32,
}

impl ScoreGroup {
    pub fn new(letters: Vec<char>, score: u32) -> (g: ScoreGroup)
        ensures
            g.letters@ == letters@,
            g.score == score,
    {
        ScoreGroup { letters, score }
    }
}

/// The full point table as grouped data.
#[derive(Clone)]
pub struct ScoreGroups {
    pub score_groups: Vec<ScoreGroup>,
}

impl ScoreGroups {
    /// The groups hold, in order, exactly the letters and values of the
    /// score table.
    pub open spec fn wf(self) -> bool {
        &&& self.score_groups@.len() == score_table().len()
        &&& forall|i: int|
            0 <= i < self.score_groups@.len() ==> (#[trigger] self.score_groups@[i].letters@)
                == score_table()[i].0 && self.score_groups@[i].score == score_table()[i].1
    }

    pub fn new() -> (sg: ScoreGroups)
        ensures
            sg.wf(),
    {
        let mut score_groups: Vec<ScoreGroup> = Vec::new();
        score_groups.push(
            ScoreGroup::new(vec!['A', 'E', 'I', 'L', 'N', 'O', 'R', 'S', 'T', 'U'], 1),
        );
        score_groups.push(ScoreGroup::new(vec!['D', 'G'], 2));
        score_groups.push(ScoreGroup::new(vec!['B', 'C', 'M', 'P'], 3));
        score_groups.push(ScoreGroup::new(vec!['F', 'H', 'V', 'W', 'Y'], 4));
        score_groups.push(ScoreGroup::new(vec!['K'], 5));
        score_groups.push(ScoreGroup::new(vec!['J', 'X'], 8));
        score_groups.push(ScoreGroup::new(vec!['Q', 'Z'], 10));
        score_groups.push(ScoreGroup::new(vec!['E'], 12));
        let sg = ScoreGroups { score_groups };
        proof {
            assert forall|i: int| 0 <= i < sg.score_groups@.len() implies (
            #[trigger] sg.score_groups@[i].letters@) == score_table()[i].0
                && sg.score_groups@[i].score == score_table()[i].1 by {
                assert(sg.score_groups@[i].letters@ =~= score_table()[i].0);
            }
        }
        sg
    }

    /// The point value of a letter: the value of the first group that lists
    /// it, or zero when none does.
    pub fn get_score(&self, letter: char) -> (score: u32)
        requires
            self.wf(),
        ensures
            score == letter_score(letter),
    {
        let n = self.score_groups.len();
        for i in 0..n
            invariant
                self.wf(),
                n == self.score_groups@.len(),
                forall|j: int| 0 <= j < i ==> !(#[trigger] score_table()[j].0.contains(letter)),
        {
            if contains_char(&self.score_groups[i].letters, letter) {
                proof {
                    lemma_score_table_lookup(letter, i as int);
                }
                return self.score_groups[i].score;
            }
        }
        proof {
            lemma_score_table_miss(letter);
        }
        0
    }
}

} // verus!
