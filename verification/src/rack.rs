//! The rack: the seven tiles a turn is played from, drawn at random from a
//! bag whose composition follows the frequency table. At most two of the
//! seven tiles are wildcards.

use crate::scoring::frequency_table;
use crate::weighted_group::WeightedGroups;
use rand::seq::SliceRandom;
use vstd::prelude::*;

verus! {

broadcast use vstd::seq_lib::group_to_multiset_ensures;

/// A symbol a tile can carry: one that some frequency group lists, the
/// wildcard included. Note that the table holds no `'Q'`, so no drawn rack
/// ever does either.
pub open spec fn is_rack_symbol(c: char) -> bool {
    exists|g: int|
        0 <= g < frequency_table().len() && (#[trigger] frequency_table()[g].0).contains(c)
}

/// How many wildcard tiles a letter sequence holds.
pub open spec fn wildcard_count(s: Seq<char>) -> int
    decreases s.len(),
{
    if s.len() == 0 {
        0
    } else {
        wildcard_count(s.drop_last()) + if s.last() == '_' {
            1int
        } else {
            0int
        }
    }
}

/// Every letter of every frequency group is a legal tile symbol.
proof fn lemma_frequency_symbols(g: int, l: int)
    requires
        0 <= g < frequency_table().len(),
        0 <= l < frequency_table()[g].0.len(),
    ensures
        is_rack_symbol(frequency_table()[g].0[l]),
{
    assert(frequency_table()[g].0.contains(frequency_table()[g].0[l]));
}

/// Relies on rand's `SliceRandom::shuffle` (a Fisher-Yates pass of in-place
/// swaps): it permutes the slice, so the tiles are rearranged but none is
/// added or lost.
#[verifier::external_body]
fn shuffle_bag(bag: &mut Vec<char>)
    ensures
        final(bag)@.to_multiset() == old(bag)@.to_multiset(),
{
    bag.shuffle(&mut rand::thread_rng());
}

/// How many wildcard tiles the vector holds.
fn count_wildcards(v: &Vec<char>) -> (n: usize)
    ensures
        n as int == wildcard_count(v@),
{
    let mut n: usize = 0;
    for i in 0..v.len()
        invariant
            n as int == wildcard_count(v@.take(i as int)),
            n <= i,
    {
        proof {
            assert(v@.take(i + 1).drop_last() =~= v@.take(i as int));
            assert(v@.take(i + 1).last() == v@[i as int]);
        }
        if v[i] == '_' {
            n += 1;
        }
    }
    proof {
        assert(v@.take(v@.len() as int) =~= v@);
    }
    n
}

/// The seven tiles of one turn, with the tables they were drawn under.
#[derive(Clone)]
pub struct Rack {
    pub letters: Vec<char>,
    pub weighted_groups: WeightedGroups,
}

impl Rack {
    /// Draws a fresh rack of seven tiles. The bag holds each letter as many
    /// times as its frequency weight; for each tile the bag is shuffled and
    /// scanned front to front, skipping wildcards once two are already held.
    /// Whatever the shuffles return, the rack has exactly seven tiles, at
    /// most two of them wildcards, every one listed in some frequency group.
    pub fn new() -> (rack: Rack)
        ensures
            rack.weighted_groups.wf(),
            rack.letters@.len() == 7,
            wildcard_count(rack.letters@) <= 2,
            forall|k: int|
                0 <= k < rack.letters@.len() ==> is_rack_symbol(#[trigger] rack.letters@[k]),
    {
        let wg = WeightedGroups::new();
        let mut bag: Vec<char> = Vec::new();
        // fill the bag: each letter of each group, repeated the group's weight
        let groups = wg.frequency_groups.len();
        for g in 0..groups
            invariant
                wg.wf(),
                groups == wg.frequency_groups@.len(),
                forall|k: int| 0 <= k < bag@.len() ==> is_rack_symbol(#[trigger] bag@[k]),
                g >= 1 ==> bag@.contains('J'),
        {
            let weight = wg.frequency_groups[g].weight;
            for rep in 0..weight
                invariant
                    wg.wf(),
                    g < wg.frequency_groups@.len(),
                    weight == wg.frequency_groups@[g as int].weight,
                    forall|k: int| 0 <= k < bag@.len() ==> is_rack_symbol(#[trigger] bag@[k]),
                    (g >= 1 || rep >= 1) ==> bag@.contains('J'),
            {
                let count = wg.frequency_groups[g].letters.len();
                for l in 0..count
                    invariant
                        wg.wf(),
                        g < wg.frequency_groups@.len(),
                        count == wg.frequency_groups@[g as int].letters@.len(),
                        forall|k: int| 0 <= k < bag@.len() ==> is_rack_symbol(#[trigger] bag@[k]),
                        (g >= 1 || rep >= 1 || l >= 1) ==> bag@.contains('J'),
                {
                    let c = wg.frequency_groups[g].letters[l];
                    proof {
                        lemma_frequency_symbols(g as int, l as int);
                    }
                    let ghost b0 = bag@;
                    bag.push(c);
                    proof {
                        if b0.contains('J') {
                            let k = choose|k: int| 0 <= k < b0.len() && b0[k] == 'J';
                            assert(bag@[k] == 'J');
                        }
                        if g == 0 && rep == 0 && l == 0 {
                            assert(c == 'J');
                            assert(bag@[b0.len() as int] == 'J');
                        }
                    }
                }
            }
            proof {
                if g == 0 {
                    assert(wg.frequency_groups@[0int].letters@ == frequency_table()[0int].0);
                    assert(weight == frequency_table()[0int].1);
                }
            }
        }
        // draw seven tiles, skipping wildcards once two are already held
        let mut letters: Vec<char> = Vec::new();
        for d in 0..7usize
            invariant
                wg.wf(),
                bag@.contains('J'),
                forall|k: int| 0 <= k < bag@.len() ==> is_rack_symbol(#[trigger] bag@[k]),
                letters@.len() == d,
                wildcard_count(letters@) <= 2,
                forall|k: int| 0 <= k < letters@.len() ==> is_rack_symbol(#[trigger] letters@[k]),
        {
            let ghost b0 = bag@;
            shuffle_bag(&mut bag);
            proof {
                assert(b0.to_multiset().count('J') > 0);
                assert(bag@.contains('J'));
                assert forall|k: int|
                    0 <= k < bag@.len() implies is_rack_symbol(#[trigger] bag@[k]) by {
                    assert(bag@.contains(bag@[k]));
                    assert(b0.to_multiset().count(bag@[k]) > 0);
                    let kk = choose|kk: int| 0 <= kk < b0.len() && b0[kk] == bag@[k];
                    assert(is_rack_symbol(b0[kk]));
                }
            }
            let wc = count_wildcards(&letters);
            let bagn = bag.len();
            let mut j: usize = 0;
            let mut chosen: Option<char> = None;
            while chosen.is_none()
                invariant
                    bagn == bag@.len(),
                    bag@.contains('J'),
                    forall|k: int| 0 <= k < bag@.len() ==> is_rack_symbol(#[trigger] bag@[k]),
                    j <= bagn,
                    chosen is None ==> forall|k: int| 0 <= k < j ==> bag@[k] == '_',
                    chosen matches Some(c) ==> is_rack_symbol(c) && (c == '_' ==> wc <= 1),
                decreases bag@.len() - j + (if chosen is None {
                    1int
                } else {
                    0int
                }),
            {
                proof {
                    // the bag holds a non-wildcard, so the scan cannot run out
                    if j >= bag@.len() {
                        let k = choose|k: int| 0 <= k < bag@.len() && bag@[k] == 'J';
                        assert(bag@[k] == '_');
                        assert(false);
                    }
                }
                let c = bag[j];
                if c == '_' && wc >= 2 {
                    j += 1;
                } else {
                    chosen = Some(c);
                }
            }
            match chosen {
                Some(c) => {
                    let ghost l0 = letters@;
                    letters.push(c);
                    proof {
                        assert(letters@.drop_last() =~= l0);
                        assert(letters@.last() == c);
                    }
                },
                None => {
                    proof {
                        assert(false);
                    }
                },
            }
        }
        Rack { letters, weighted_groups: wg }
    }
}

} // verus!
