//! The two static letter tables as grouped data: frequency groups describe
//! the tile bag's composition, score groups carry the point values.

use crate::scoring::{
    frequency_table, frequency_weight, lemma_frequency_table_lookup, lemma_frequency_table_miss,
    lemma_score_table_lookup, lemma_score_table_miss, letter_score, score_table,
};
use crate::text::contains_char;
use vstd::prelude::*;

verus! {

/// A set of letters that share one weight.
#[derive(Clone)]
pub struct WeightedGroup {
    pub letters: Vec<char>,
    pub weight: u32,
}

impl WeightedGroup {
    pub fn new(letters: Vec<char>, weight: u32) -> (g: WeightedGroup)
        ensures
            g.letters@ == letters@,
            g.weight == weight,
    {
        WeightedGroup { letters, weight }
    }
}

/// The groups hold, in order, exactly the letters and weights of the table.
pub open spec fn groups_match(gs: Seq<WeightedGroup>, table: Seq<(Seq<char>, u32)>) -> bool {
    &&& gs.len() == table.len()
    &&& forall|i: int|
        0 <= i < gs.len() ==> (#[trigger] gs[i].letters@) == table[i].0 && gs[i].weight
            == table[i].1
}

/// Both letter tables: the frequency weights that shape the tile bag, and
/// the point values that score words.
#[derive(Clone)]
pub struct WeightedGroups {
    pub frequency_groups: Vec<WeightedGroup>,
    pub score_groups: Vec<WeightedGroup>,
}

impl WeightedGroups {
    /// The groups hold the two fixed tables.
    pub open spec fn wf(self) -> bool {
        &&& groups_match(self.frequency_groups@, frequency_table())
        &&& groups_match(self.score_groups@, score_table())
    }

    pub fn new() -> (wg: WeightedGroups)
        ensures
            wg.wf(),
    {
        let mut frequency_groups: Vec<WeightedGroup> = Vec::new();
        frequency_groups.push(WeightedGroup::new(vec!['J', 'K', 'U', 'X', 'Z'], 1));
        frequency_groups.push(
            WeightedGroup::new(vec!['B', 'C', 'F', 'H', 'M', 'P', 'V', 'W', 'Y', '_'], 2),
        );
        frequency_groups.push(WeightedGroup::new(vec!['G'], 3));
        frequency_groups.push(WeightedGroup::new(vec!['D', 'L', 'S', 'U'], 4));
        frequency_groups.push(WeightedGroup::new(vec!['N', 'R', 'T'], 6));
        frequency_groups.push(WeightedGroup::new(vec!['O'], 8));
        frequency_groups.push(WeightedGroup::new(vec!['A', 'I'], 9));
        frequency_groups.push(WeightedGroup::new(vec!['E'], 12));
        let mut score_groups: Vec<WeightedGroup> = Vec::new();
        score_groups.push(
            WeightedGroup::new(vec!['A', 'E', 'I', 'L', 'N', 'O', 'R', 'S', 'T', 'U'], 1),
        );
        score_groups.push(WeightedGroup::new(vec!['D', 'G'], 2));
        score_groups.push(WeightedGroup::new(vec!['B', 'C', 'M', 'P'], 3));
        score_groups.push(WeightedGroup::new(vec!['F', 'H', 'V', 'W', 'Y'], 4));
        score_groups.push(WeightedGroup::new(vec!['K'], 5));
        score_groups.push(WeightedGroup::new(vec!['J', 'X'], 8));
        score_groups.push(WeightedGroup::new(vec!['Q', 'Z'], 10));
        score_groups.push(WeightedGroup::new(vec!['E'], 12));
        let wg = WeightedGroups { frequency_groups, score_groups };
        proof {
            assert forall|i: int| 0 <= i < wg.frequency_groups@.len() implies (
            #[trigger] wg.frequency_groups@[i].letters@) == frequency_table()[i].0
                && wg.frequency_groups@[i].weight == frequency_table()[i].1 by {
                assert(wg.frequency_groups@[i].letters@ =~= frequency_table()[i].0);
            }
            assert forall|i: int| 0 <= i < wg.score_groups@.len() implies (
            #[trigger] wg.score_groups@[i].letters@) == score_table()[i].0
                && wg.score_groups@[i].weight == score_table()[i].1 by {
                assert(wg.score_groups@[i].letters@ =~= score_table()[i].0);
            }
        }
        wg
    }

    /// The point value of a letter: the weight of the first score group that
    /// lists it, or zero when none does.
    pub fn get_score(&self, letter: char) -> (score: u32)
        requires
            self.wf(),
        ensures
            score == letter_score(letter),
    {
        let n = self.score_groups.len();
        for i in 0..n
            invariant
                self.wf(),
                n == self.score_groups@.len(),
                forall|j: int| 0 <= j < i ==> !(#[trigger] score_table()[j].0.contains(letter)),
        {
            if contains_char(&self.score_groups[i].letters, letter) {
                proof {
                    lemma_score_table_lookup(letter, i as int);
                }
                return self.score_groups[i].weight;
            }
        }
        proof {
            lemma_score_table_miss(letter);
        }
        0
    }

    /// The frequency weight of a tile: the weight of the first frequency
    /// group that lists it, or zero when none does.
    pub fn get_weight(&self, letter: char) -> (weight: u32)
        requires
            self.wf(),
        ensures
            weight == frequency_weight(letter),
    {
        let n = self.frequency_groups.len();
        for i in 0..n
            invariant
                self.wf(),
                n == self.frequency_groups@.len(),
                forall|j: int|
                    0 <= j < i ==> !(#[trigger] frequency_table()[j].0.contains(letter)),
        {
            if contains_char(&self.frequency_groups[i].letters, letter) {
                proof {
                    lemma_frequency_table_lookup(letter, i as int);
                }
                return self.frequency_groups[i].weight;
            }
        }
        proof {
            lemma_frequency_table_miss(letter);
        }
        0
    }
}

} // verus!
