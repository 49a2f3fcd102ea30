//! The candidate generator: a recursive, wildcard-aware search over every
//! ordered subset of the rack, pruned by dictionary lookups at every step,
//! and the selection of the best candidate with its board placement.

use crate::rack::Rack;
use crate::scoring::{
    estimated_score, freq_sum, frequency_weight, lemma_rack_bounds, letter_score,
    max_freq_weight, max_letter_score, rack_bound_fits_u32, rack_max_score, rack_threshold,
    score_fits_u32, score_sum,
};
use crate::text::{chars_to_string, copy_chars, remove_at, str_to_chars};
use crate::trieguy::TrieTree;
use crate::weighted_group::WeightedGroups;
use vstd::prelude::*;

verus! {

/// One candidate: a dictionary word reachable from the rack, with its
/// estimated score.
pub struct Anagram {
    pub word: String,
    pub score: u32,
}

impl Anagram {
    pub fn new(word: String, score: u32) -> (a: Anagram)
        ensures
            a.word == word,
            a.score == score,
    {
        Anagram { word, score }
    }
}

impl Clone for Anagram {
    fn clone(&self) -> (a: Self)
        ensures
            a == *self,
    {
        Anagram { word: self.word.clone(), score: self.score }
    }
}

/// The wildcard substitution alphabet, most frequent letters first. A
/// wildcard branch tries exactly these letters, in this order.
pub open spec fn wildcard_alphabet() -> Seq<char> {
    seq![
        'A',
        'E',
        'I',
        'O',
        'U',
        'L',
        'N',
        'R',
        'D',
        'B',
        'C',
        'G',
        'M',
        'F',
        'H',
        'P',
        'S',
        'V',
        'W',
        'Y',
        'J',
        'Q',
        'K',
        'Z',
    ]
}

/// The wildcard substitution alphabet as a vector.
fn wildcard_letters() -> (v: Vec<char>)
    ensures
        v@ == wildcard_alphabet(),
{
    let v = vec![
        'A',
        'E',
        'I',
        'O',
        'U',
        'L',
        'N',
        'R',
        'D',
        'B',
        'C',
        'G',
        'M',
        'F',
        'H',
        'P',
        'S',
        'V',
        'W',
        'Y',
        'J',
        'Q',
        'K',
        'Z',
    ];
    proof {
        assert(v@ =~= wildcard_alphabet());
    }
    v
}

/// The search standing at `path` with `rack` still in hand records the word
/// right here: the word is the path, and its point estimate clears the
/// frequency-weight threshold of the rack still in hand.
pub open spec fn root_hit(path: Seq<char>, rack: Seq<char>, w: Seq<char>) -> bool {
    w == path && estimated_score(w) >= rack_threshold(rack)
}

/// The search standing at `path` with `rack` still in hand records the word
/// somewhere in its subtree: either right here, or below one of the
/// branches it takes.
pub open spec fn qualifies(path: Seq<char>, rack: Seq<char>, w: Seq<char>) -> bool
    decreases rack.len(), 1int,
{
    root_hit(path, rack, w) || exists|i: int|
        #![trigger rack[i]]
        0 <= i < rack.len() && qualifies_branch(path, rack, w, i)
}

/// The branch for rack position `i`: a wildcard fans out over the fixed
/// alphabet, any other tile is appended as it is; the chosen letter joins
/// the path and the tile leaves the rack.
pub open spec fn qualifies_branch(path: Seq<char>, rack: Seq<char>, w: Seq<char>, i: int) -> bool
    decreases rack.len(), 0int,
{
    if 0 <= i < rack.len() {
        if rack[i] == '_' {
            exists|a: int|
                #![trigger wildcard_alphabet()[a]]
                0 <= a < wildcard_alphabet().len() && qualifies(
                    path.push(wildcard_alphabet()[a]),
                    rack.remove(i),
                    w,
                )
        } else {
            qualifies(path.push(rack[i]), rack.remove(i), w)
        }
    } else {
        false
    }
}

/// The word can be spelled from the path plus tiles of the rack, wildcards
/// standing for alphabet letters: the reachability half of `qualifies`,
/// with no threshold attached.
pub open spec fn derivable(path: Seq<char>, rack: Seq<char>, w: Seq<char>) -> bool
    decreases rack.len(), 1int,
{
    w == path || exists|i: int|
        #![trigger rack[i]]
        0 <= i < rack.len() && derivable_branch(path, rack, w, i)
}

/// The branch cases of `derivable`, mirroring `qualifies_branch`.
pub open spec fn derivable_branch(path: Seq<char>, rack: Seq<char>, w: Seq<char>, i: int) -> bool
    decreases rack.len(), 0int,
{
    if 0 <= i < rack.len() {
        if rack[i] == '_' {
            exists|a: int|
                #![trigger wildcard_alphabet()[a]]
                0 <= a < wildcard_alphabet().len() && derivable(
                    path.push(wildcard_alphabet()[a]),
                    rack.remove(i),
                    w,
                )
        } else {
            derivable(path.push(rack[i]), rack.remove(i), w)
        }
    } else {
        false
    }
}

/// Taking a tile out of the rack never raises the rack's frequency bound,
/// so the candidate filter only loosens as the search consumes tiles.
pub proof fn lemma_threshold_shrinks(rack: Seq<char>, i: int)
    requires
        0 <= i < rack.len(),
    ensures
        rack_max_score(rack.remove(i)) <= rack_max_score(rack),
        rack_threshold(rack.remove(i)) <= rack_threshold(rack),
    decreases rack.len(),
{
    lemma_freq_sum_remove(rack, i);
    lemma_max_freq_remove(rack, i);
    lemma_rack_bounds(rack);
    lemma_rack_bounds(rack.remove(i));
}

/// Removing one tile takes exactly that tile's weight off the sum.
proof fn lemma_freq_sum_remove(s: Seq<char>, i: int)
    requires
        0 <= i < s.len(),
    ensures
        freq_sum(s.remove(i)) == freq_sum(s) - frequency_weight(s[i]),
    decreases s.len(),
{
    if i == s.len() - 1 {
        assert(s.remove(i) =~= s.drop_last());
    } else {
        assert(s.remove(i).drop_last() =~= s.drop_last().remove(i));
        assert(s.remove(i).last() == s.last());
        lemma_freq_sum_remove(s.drop_last(), i);
    }
}

/// Removing a tile never raises the best single-tile weight.
proof fn lemma_max_freq_remove(s: Seq<char>, i: int)
    requires
        0 <= i < s.len(),
    ensures
        max_freq_weight(s.remove(i)) <= max_freq_weight(s),
    decreases s.len(),
{
    if i == s.len() - 1 {
        assert(s.remove(i) =~= s.drop_last());
    } else {
        assert(s.remove(i).drop_last() =~= s.drop_last().remove(i));
        assert(s.remove(i).last() == s.last());
        lemma_max_freq_remove(s.drop_last(), i);
    }
}

/// Law: whatever the search records is spellable from path and rack; the
/// threshold checks only thin the set out.
pub proof fn lemma_qualifies_derivable(path: Seq<char>, rack: Seq<char>, w: Seq<char>)
    requires
        qualifies(path, rack, w),
    ensures
        derivable(path, rack, w),
    decreases rack.len(),
{
    if root_hit(path, rack, w) {
    } else {
        let i = choose|i: int|
            #![trigger rack[i]]
            0 <= i < rack.len() && qualifies_branch(path, rack, w, i);
        if rack[i] == '_' {
            let a = choose|a: int|
                #![trigger wildcard_alphabet()[a]]
                0 <= a < wildcard_alphabet().len() && qualifies(
                    path.push(wildcard_alphabet()[a]),
                    rack.remove(i),
                    w,
                );
            lemma_qualifies_derivable(path.push(wildcard_alphabet()[a]), rack.remove(i), w);
            assert(derivable_branch(path, rack, w, i));
        } else {
            lemma_qualifies_derivable(path.push(rack[i]), rack.remove(i), w);
            assert(derivable_branch(path, rack, w, i));
        }
    }
}

/// Law: a spellable word whose score clears the full rack's threshold is
/// recorded by the search: thresholds only shrink as tiles are consumed, so
/// clearing the starting rack's bound clears every bound on the way down.
pub proof fn lemma_high_score_qualifies(path: Seq<char>, rack: Seq<char>, w: Seq<char>)
    requires
        derivable(path, rack, w),
        estimated_score(w) >= rack_threshold(rack),
    ensures
        qualifies(path, rack, w),
    decreases rack.len(),
{
    if w == path {
        assert(root_hit(path, rack, w));
    } else {
        let i = choose|i: int|
            #![trigger rack[i]]
            0 <= i < rack.len() && derivable_branch(path, rack, w, i);
        lemma_threshold_shrinks(rack, i);
        if rack[i] == '_' {
            let a = choose|a: int|
                #![trigger wildcard_alphabet()[a]]
                0 <= a < wildcard_alphabet().len() && derivable(
                    path.push(wildcard_alphabet()[a]),
                    rack.remove(i),
                    w,
                );
            lemma_high_score_qualifies(path.push(wildcard_alphabet()[a]), rack.remove(i), w);
            assert(qualifies_branch(path, rack, w, i));
        } else {
            lemma_high_score_qualifies(path.push(rack[i]), rack.remove(i), w);
            assert(qualifies_branch(path, rack, w, i));
        }
    }
}

/// Law: with an empty rack the search can only stand still, so nothing but
/// the path itself is ever in reach; an empty rack and empty path yield no
/// candidate at all, since candidates are at least four letters long.
pub proof fn lemma_empty_rack_stands_still(path: Seq<char>, rack: Seq<char>, w: Seq<char>)
    requires
        rack.len() == 0,
        qualifies(path, rack, w),
    ensures
        w == path,
{
}

/// The candidate ranking: higher score wins, equal scores go to the longer
/// word.
pub open spec fn rank_le(a: Anagram, b: Anagram) -> bool {
    a.score < b.score || (a.score == b.score && a.word@.len() <= b.word@.len())
}

/// Index `i` carries the letter with the highest point value in the word,
/// and is the first index to do so.
pub open spec fn is_first_max(w: Seq<char>, i: int) -> bool {
    &&& 0 <= i < w.len()
    &&& forall|j: int| 0 <= j < w.len() ==> letter_score(#[trigger] w[j]) <= letter_score(w[i])
    &&& forall|j: int| 0 <= j < i ==> letter_score(#[trigger] w[j]) < letter_score(w[i])
}

/// Law: every non-empty word has exactly one first index of maximal letter
/// value.
pub proof fn lemma_first_max_unique(w: Seq<char>, i1: int, i2: int)
    requires
        is_first_max(w, i1),
        is_first_max(w, i2),
    ensures
        i1 == i2,
{
    if i1 < i2 {
        assert(letter_score(w[i1]) < letter_score(w[i2]));
        assert(letter_score(w[i2]) <= letter_score(w[i1]));
    } else if i2 < i1 {
        assert(letter_score(w[i2]) < letter_score(w[i1]));
        assert(letter_score(w[i1]) <= letter_score(w[i2]));
    }
}

/// Law: every non-empty word has a first index of maximal letter value, so
/// together with its uniqueness the placement of a chosen word is fully
/// determined.
pub proof fn lemma_first_max_exists(w: Seq<char>)
    requires
        w.len() > 0,
    ensures
        exists|i: int| #[trigger] is_first_max(w, i),
    decreases w.len(),
{
    if w.len() == 1 {
        assert(is_first_max(w, 0));
    } else {
        lemma_first_max_exists(w.drop_last());
        let i = choose|i: int| #[trigger] is_first_max(w.drop_last(), i);
        assert(forall|j: int| 0 <= j < w.len() - 1 ==> w.drop_last()[j] == w[j]);
        if letter_score(w.last()) > letter_score(w[i]) {
            assert(is_first_max(w, w.len() - 1));
        } else {
            assert(is_first_max(w, i));
        }
    }
}

/// The starting slot on the thirteen-slot row for a word of this length
/// whose best letter sits at this index: the word always spans the centre
/// slot (index six), and the best letter lands on the reachable premium
/// slot. Words longer than seven letters are placed by the seven-letter
/// rule.
pub open spec fn board_offset(len: int, idx: int) -> int {
    if len < 5 {
        6
    } else if len == 5 {
        if idx == 0 {
            3
        } else {
            6
        }
    } else if len == 6 {
        if idx == 0 {
            3
        } else if idx == 1 {
            2
        } else if idx == 5 {
            5
        } else {
            4
        }
    } else {
        if idx == 0 {
            3
        } else if idx == 1 {
            2
        } else if idx == 2 {
            1
        } else if idx == 5 {
            5
        } else if idx == 4 {
            4
        } else {
            3
        }
    }
}

/// A chosen word with the board slot its first letter lands on.
pub struct Move {
    pub word: String,
    pub starting_element: u32,
}

impl Move {
    pub fn new(word: String, starting_element: u32) -> (m: Move)
        ensures
            m.word == word,
            m.starting_element == starting_element,
    {
        Move { word, starting_element }
    }
}

/// The zero-based position of the first letter carrying the word's highest
/// point value.
pub fn highest_letter_index(chars: &Vec<char>, wg: &WeightedGroups) -> (idx: usize)
    requires
        wg.wf(),
        chars@.len() > 0,
    ensures
        is_first_max(chars@, idx as int),
{
    let mut best: usize = 0;
    let mut best_score = wg.get_score(chars[0]);
    let n = chars.len();
    for j in 1..n
        invariant
            wg.wf(),
            n == chars@.len(),
            best < j,
            best_score == letter_score(chars@[best as int]),
            forall|k: int| 0 <= k < j ==> letter_score(#[trigger] chars@[k]) <= best_score,
            forall|k: int| 0 <= k < best ==> letter_score(#[trigger] chars@[k]) < best_score,
    {
        let s = wg.get_score(chars[j]);
        if s > best_score {
            best = j;
            best_score = s;
        }
    }
    best
}

/// The rack's own maximum achievable score, from the frequency weights of
/// the letters still in hand: their sum, plus the best single weight once.
fn rack_max(letters: &Vec<char>) -> (bound: u32)
    requires
        rack_bound_fits_u32(letters@.len() as int),
    ensures
        bound as int == rack_max_score(letters@),
{
    let wg = WeightedGroups::new();
    let mut sum: u32 = 0;
    let mut local_max: u32 = 0;
    let n = letters.len();
    for i in 0..n
        invariant
            wg.wf(),
            n == letters@.len(),
            rack_bound_fits_u32(letters@.len() as int),
            sum as int == freq_sum(letters@.take(i as int)),
            local_max as int == max_freq_weight(letters@.take(i as int)),
            sum <= 12 * i,
            local_max <= 12,
    {
        proof {
            assert(letters@.take(i + 1).drop_last() =~= letters@.take(i as int));
            assert(letters@.take(i + 1).last() == letters@[i as int]);
        }
        let s = wg.get_weight(letters[i]);
        sum += s;
        if s > local_max {
            local_max = s;
        }
    }
    proof {
        assert(letters@.take(n as int) =~= letters@);
    }
    sum + local_max
}

/// A sound record for a search at (path, rack): a dictionary word of at
/// least four letters, scored exactly by the estimate, recorded somewhere
/// in this subtree of the search.
pub open spec fn sound_candidate(
    dict: Set<Seq<char>>,
    path: Seq<char>,
    rack: Seq<char>,
    a: Anagram,
) -> bool {
    &&& dict.contains(a.word@)
    &&& a.word@.len() >= 4
    &&& a.score as int == estimated_score(a.word@)
    &&& qualifies(path, rack, a.word@)
}

/// Some entry at index `lo` or later holds the word.
pub open spec fn covered(entries: Seq<Anagram>, lo: int, w: Seq<char>) -> bool {
    exists|k: int| #![trigger entries[k]] lo <= k < entries.len() && entries[k].word@ == w
}

/// Law: a spellable dictionary word of at least four letters whose estimate
/// clears the starting rack's threshold is always among the recorded
/// candidates. The first premise is exactly what `generate` ensures of the
/// entries it appends.
pub proof fn lemma_generation_complete(
    dict: Set<Seq<char>>,
    path: Seq<char>,
    rack: Seq<char>,
    entries: Seq<Anagram>,
    lo: int,
    w: Seq<char>,
)
    requires
        forall|v: Seq<char>|
            #![trigger qualifies(path, rack, v)]
            dict.contains(v) && v.len() >= 4 && qualifies(path, rack, v) ==> covered(
                entries,
                lo,
                v,
            ),
        dict.contains(w),
        w.len() >= 4,
        derivable(path, rack, w),
        estimated_score(w) >= rack_threshold(rack),
    ensures
        covered(entries, lo, w),
{
    lemma_high_score_qualifies(path, rack, w);
}

/// Law: a search over an empty rack can only record its own starting path;
/// started from the empty path, the only reachable word is the empty one,
/// which is too short to be a candidate, so nothing is recorded.
pub proof fn lemma_empty_rack_candidate_is_the_path(
    dict: Set<Seq<char>>,
    path: Seq<char>,
    rack: Seq<char>,
    a: Anagram,
)
    requires
        rack.len() == 0,
        sound_candidate(dict, path, rack, a),
    ensures
        a.word@ == path,
{
    lemma_empty_rack_stands_still(path, rack, a.word@);
}

/// Lifts one plain-tile branch of the search: what the branch recorded is
/// sound for the parent, what was covered stays covered, and the branch's
/// words are covered from the parent's base.
proof fn lemma_branch_step_plain(
    dict: Set<Seq<char>>,
    path: Seq<char>,
    rack: Seq<char>,
    pre: Seq<Anagram>,
    post: Seq<Anagram>,
    base: int,
    i: int,
)
    requires
        0 <= base <= pre.len() <= post.len(),
        0 <= i < rack.len(),
        rack[i] != '_',
        forall|k: int| 0 <= k < pre.len() ==> post[k] == pre[k],
        forall|k: int|
            pre.len() <= k < post.len() ==> sound_candidate(
                dict,
                path.push(rack[i]),
                rack.remove(i),
                #[trigger] post[k],
            ),
        forall|w: Seq<char>|
            #![trigger qualifies(path.push(rack[i]), rack.remove(i), w)]
            dict.contains(w) && w.len() >= 4 && qualifies(path.push(rack[i]), rack.remove(i), w)
                ==> covered(post, pre.len() as int, w),
        forall|k: int|
            base <= k < pre.len() ==> sound_candidate(dict, path, rack, #[trigger] pre[k]),
    ensures
        forall|k: int|
            base <= k < post.len() ==> sound_candidate(dict, path, rack, #[trigger] post[k]),
        forall|w: Seq<char>|
            #![trigger qualifies(path.push(rack[i]), rack.remove(i), w)]
            dict.contains(w) && w.len() >= 4 && qualifies(path.push(rack[i]), rack.remove(i), w)
                ==> covered(post, base, w),
        forall|w: Seq<char>| #[trigger] covered(pre, base, w) ==> covered(post, base, w),
{
    assert forall|k: int| base <= k < post.len() implies sound_candidate(
        dict,
        path,
        rack,
        #[trigger] post[k],
    ) by {
        if k < pre.len() {
            assert(post[k] == pre[k]);
        } else {
            assert(qualifies(path.push(rack[i]), rack.remove(i), post[k].word@));
            assert(qualifies_branch(path, rack, post[k].word@, i));
            assert(qualifies(path, rack, post[k].word@));
        }
    }
    assert forall|w: Seq<char>|
        dict.contains(w) && w.len() >= 4 && qualifies(
            path.push(rack[i]),
            rack.remove(i),
            w,
        ) implies covered(post, base, w) by {
        let k = choose|k: int|
            #![trigger post[k]]
            pre.len() <= k < post.len() && post[k].word@ == w;
        assert(base <= k < post.len() && post[k].word@ == w);
    }
    assert forall|w: Seq<char>| #[trigger] covered(pre, base, w) implies covered(post, base, w) by {
        let k = choose|k: int| #![trigger pre[k]] base <= k < pre.len() && pre[k].word@ == w;
        assert(post[k] == pre[k]);
        assert(post[k].word@ == w);
    }
}

/// Lifts one wildcard branch of the search, for one alphabet letter, the
/// same way as the plain branch.
proof fn lemma_branch_step_wild(
    dict: Set<Seq<char>>,
    path: Seq<char>,
    rack: Seq<char>,
    pre: Seq<Anagram>,
    post: Seq<Anagram>,
    base: int,
    i: int,
    a: int,
)
    requires
        0 <= base <= pre.len() <= post.len(),
        0 <= i < rack.len(),
        rack[i] == '_',
        0 <= a < wildcard_alphabet().len(),
        forall|k: int| 0 <= k < pre.len() ==> post[k] == pre[k],
        forall|k: int|
            pre.len() <= k < post.len() ==> sound_candidate(
                dict,
                path.push(wildcard_alphabet()[a]),
                rack.remove(i),
                #[trigger] post[k],
            ),
        forall|w: Seq<char>|
            #![trigger qualifies(path.push(wildcard_alphabet()[a]), rack.remove(i), w)]
            dict.contains(w) && w.len() >= 4 && qualifies(
                path.push(wildcard_alphabet()[a]),
                rack.remove(i),
                w,
            ) ==> covered(post, pre.len() as int, w),
        forall|k: int|
            base <= k < pre.len() ==> sound_candidate(dict, path, rack, #[trigger] pre[k]),
    ensures
        forall|k: int|
            base <= k < post.len() ==> sound_candidate(dict, path, rack, #[trigger] post[k]),
        forall|w: Seq<char>|
            #![trigger qualifies(path.push(wildcard_alphabet()[a]), rack.remove(i), w)]
            dict.contains(w) && w.len() >= 4 && qualifies(
                path.push(wildcard_alphabet()[a]),
                rack.remove(i),
                w,
            ) ==> covered(post, base, w),
        forall|w: Seq<char>| #[trigger] covered(pre, base, w) ==> covered(post, base, w),
{
    assert forall|k: int| base <= k < post.len() implies sound_candidate(
        dict,
        path,
        rack,
        #[trigger] post[k],
    ) by {
        if k < pre.len() {
            assert(post[k] == pre[k]);
        } else {
            assert(qualifies(path.push(wildcard_alphabet()[a]), rack.remove(i), post[k].word@));
            assert(qualifies_branch(path, rack, post[k].word@, i));
            assert(qualifies(path, rack, post[k].word@));
        }
    }
    assert forall|w: Seq<char>|
        dict.contains(w) && w.len() >= 4 && qualifies(
            path.push(wildcard_alphabet()[a]),
            rack.remove(i),
            w,
        ) implies covered(post, base, w) by {
        let k = choose|k: int|
            #![trigger post[k]]
            pre.len() <= k < post.len() && post[k].word@ == w;
        assert(base <= k < post.len() && post[k].word@ == w);
    }
    assert forall|w: Seq<char>| #[trigger] covered(pre, base, w) implies covered(post, base, w) by {
        let k = choose|k: int| #![trigger pre[k]] base <= k < pre.len() && pre[k].word@ == w;
        assert(post[k] == pre[k]);
        assert(post[k].word@ == w);
    }
}

/// The set of candidates one search pass records.
pub struct Anagrams {
    pub anagrams: Vec<Anagram>,
}

impl Anagrams {
    pub fn new() -> (a: Anagrams)
        ensures
            a.anagrams@.len() == 0,
    {
        Anagrams { anagrams: Vec::new() }
    }

    /// The estimated score of a word: each letter's point value summed, and
    /// the best letter counted once more when the word is long enough
    /// (more than four letters) to land it on the double-letter square.
    pub fn estimate_score(&self, word: String) -> (score: u32)
        requires
            score_fits_u32(word@.len() as int),
        ensures
            score as int == estimated_score(word@),
    {
        let chars = str_to_chars(word.as_str());
        let wg = WeightedGroups::new();
        let mut score: u32 = 0;
        let mut local_max: u32 = 0;
        let n = chars.len();
        for i in 0..n
            invariant
                wg.wf(),
                n == chars@.len(),
                chars@ == word@,
                score_fits_u32(word@.len() as int),
                score as int == score_sum(word@.take(i as int)),
                local_max as int == max_letter_score(word@.take(i as int)),
                score <= 10 * i,
                local_max <= 10,
        {
            proof {
                assert(word@.take(i + 1).drop_last() =~= word@.take(i as int));
                assert(word@.take(i + 1).last() == word@[i as int]);
            }
            let s = wg.get_score(chars[i]);
            score += s;
            if s > local_max {
                local_max = s;
            }
        }
        proof {
            assert(word@.take(n as int) =~= word@);
        }
        if n > 4 {
            score += local_max;
        }
        score
    }

    /// The best candidate recorded so far: highest score first, ties going
    /// to the longer word, and among equals the earliest recorded one.
    /// With no candidates there is no move to report.
    pub fn get_best_anagram(&self) -> (r: Option<&Anagram>)
        ensures
            match r {
                None => self.anagrams@.len() == 0,
                Some(a) => exists|k: int|
                    #![trigger self.anagrams@[k]]
                    0 <= k < self.anagrams@.len() && self.anagrams@[k] == *a && (forall|j: int|
                        0 <= j < self.anagrams@.len() ==> rank_le(
                            #[trigger] self.anagrams@[j],
                            self.anagrams@[k],
                        )) && (forall|j: int|
                        0 <= j < k ==> !rank_le(self.anagrams@[k], #[trigger] self.anagrams@[j])),
            },
    {
        let n = self.anagrams.len();
        if n == 0 {
            return None;
        }
        let mut best: usize = 0;
        let mut best_score = self.anagrams[0].score;
        let mut best_len = self.anagrams[0].word.as_str().unicode_len();
        for j in 1..n
            invariant
                n == self.anagrams@.len(),
                best < j <= n,
                best_score == self.anagrams@[best as int].score,
                best_len == self.anagrams@[best as int].word@.len(),
                forall|k: int|
                    0 <= k < j ==> rank_le(
                        #[trigger] self.anagrams@[k],
                        self.anagrams@[best as int],
                    ),
                forall|k: int|
                    0 <= k < best ==> !rank_le(
                        self.anagrams@[best as int],
                        #[trigger] self.anagrams@[k],
                    ),
        {
            let s = self.anagrams[j].score;
            let l = self.anagrams[j].word.as_str().unicode_len();
            if s > best_score || (s == best_score && l > best_len) {
                best = j;
                best_score = s;
                best_len = l;
            }
        }
        Some(&self.anagrams[best])
    }

    /// The move for the best candidate: the word, placed so that it spans
    /// the centre slot and its single highest-value letter (the first one,
    /// when several tie) sits on the premium slot the offset table names.
    /// An empty candidate set is reported as no move at all.
    pub fn find_best_move(self) -> (r: Option<Move>)
        ensures
            match r {
                None => self.anagrams@.len() == 0,
                Some(m) => {
                    &&& exists|k: int|
                        #![trigger self.anagrams@[k]]
                        0 <= k < self.anagrams@.len() && self.anagrams@[k].word@ == m.word@ && (
                        forall|j: int|
                            0 <= j < self.anagrams@.len() ==> rank_le(
                                #[trigger] self.anagrams@[j],
                                self.anagrams@[k],
                            )) && (forall|j: int|
                            0 <= j < k ==> !rank_le(
                                self.anagrams@[k],
                                #[trigger] self.anagrams@[j],
                            ))
                    &&& m.word@.len() < 5 ==> m.starting_element == 6
                    &&& forall|i: int|
                        is_first_max(m.word@, i) ==> m.starting_element as int == board_offset(
                            m.word@.len() as int,
                            i,
                        )
                },
            },
    {
        match self.get_best_anagram() {
            None => None,
            Some(anagram) => {
                let word = anagram.word.clone();
                let chars = str_to_chars(word.as_str());
                let len = chars.len();
                let offset: u32 = if len < 5 {
                    6
                } else {
                    let wg = WeightedGroups::new();
                    let idx = highest_letter_index(&chars, &wg);
                    let off: u32 = if len == 5 {
                        if idx == 0 {
                            3
                        } else {
                            6
                        }
                    } else if len == 6 {
                        if idx == 0 {
                            3
                        } else if idx == 1 {
                            2
                        } else if idx == 5 {
                            5
                        } else {
                            4
                        }
                    } else {
                        if idx == 0 {
                            3
                        } else if idx == 1 {
                            2
                        } else if idx == 2 {
                            1
                        } else if idx == 5 {
                            5
                        } else if idx == 4 {
                            4
                        } else {
                            3
                        }
                    };
                    proof {
                        assert forall|i: int| is_first_max(word@, i) implies off as int
                            == board_offset(word@.len() as int, i) by {
                            lemma_first_max_unique(word@, i, idx as int);
                        }
                    }
                    off
                };
                Some(Move::new(word, offset))
            },
        }
    }

    /// The candidate search. Starting from `path` with the rack's letters
    /// in hand, it records the path wherever it is a dictionary word of at
    /// least four letters whose point estimate clears the frequency-weight
    /// threshold of the letters still in hand, then branches on every
    /// remaining tile (each
    /// branch on its own copy of the rack), substituting the fixed alphabet
    /// for wildcards. Exactly the words of `qualifies` are appended.
    pub fn generate(&mut self, path: String, rack: &mut Rack, trie_guy: &TrieTree)
        requires
            trie_guy.wf(),
            rack_bound_fits_u32(path@.len() + old(rack).letters@.len() as int),
        ensures
            *final(rack) == *old(rack),
            old(self).anagrams@.len() <= final(self).anagrams@.len(),
            forall|k: int|
                0 <= k < old(self).anagrams@.len() ==> final(self).anagrams@[k] == old(
                    self,
                ).anagrams@[k],
            forall|k: int|
                old(self).anagrams@.len() <= k < final(self).anagrams@.len()
                    ==> sound_candidate(
                    trie_guy@,
                    path@,
                    old(rack).letters@,
                    #[trigger] final(self).anagrams@[k],
                ),
            forall|w: Seq<char>|
                #![trigger qualifies(path@, old(rack).letters@, w)]
                trie_guy@.contains(w) && w.len() >= 4 && qualifies(path@, old(rack).letters@, w)
                    ==> covered(final(self).anagrams@, old(self).anagrams@.len() as int, w),
    {
        let path_chars = str_to_chars(path.as_str());
        let letters = copy_chars(&rack.letters);
        self.generate_rec(path_chars, letters, trie_guy);
    }

    /// One node of the search: record the path if it qualifies here, then
    /// branch on each tile still in hand.
    fn generate_rec(&mut self, path: Vec<char>, rack: Vec<char>, trie_guy: &TrieTree)
        requires
            trie_guy.wf(),
            rack_bound_fits_u32(path@.len() + rack@.len() as int),
        ensures
            old(self).anagrams@.len() <= final(self).anagrams@.len(),
            forall|k: int|
                0 <= k < old(self).anagrams@.len() ==> final(self).anagrams@[k] == old(
                    self,
                ).anagrams@[k],
            forall|k: int|
                old(self).anagrams@.len() <= k < final(self).anagrams@.len()
                    ==> sound_candidate(
                    trie_guy@,
                    path@,
                    rack@,
                    #[trigger] final(self).anagrams@[k],
                ),
            forall|w: Seq<char>|
                #![trigger qualifies(path@, rack@, w)]
                trie_guy@.contains(w) && w.len() >= 4 && qualifies(path@, rack@, w) ==> covered(
                    final(self).anagrams@,
                    old(self).anagrams@.len() as int,
                    w,
                ),
        decreases rack@.len(),
    {
        let ghost base = old(self).anagrams@.len() as int;
        let word = chars_to_string(&path);
        let bound = rack_max(&rack);
        let threshold: u64 = bound as u64 * 2 / 5;
        proof {
            assert(threshold as int == rack_threshold(rack@));
        }
        let found = trie_guy.search(word.as_str());
        if found && path.len() >= 4 {
            let score = self.estimate_score(word.clone());
            if score as u64 >= threshold {
                let ghost pre = self.anagrams@;
                self.anagrams.push(Anagram::new(word, score));
                proof {
                    assert(root_hit(path@, rack@, path@));
                    assert(qualifies(path@, rack@, path@));
                    assert(self.anagrams@[base].word@ == path@);
                    assert forall|w: Seq<char>|
                        trie_guy@.contains(w) && w.len() >= 4 && root_hit(
                            path@,
                            rack@,
                            w,
                        ) implies covered(self.anagrams@, base, w) by {
                        assert(self.anagrams@[base].word@ == w);
                    }
                }
            } else {
                proof {
                    // the root word scores under the bound, so no word is owed here
                    assert forall|w: Seq<char>|
                        trie_guy@.contains(w) && w.len() >= 4 && root_hit(
                            path@,
                            rack@,
                            w,
                        ) implies covered(self.anagrams@, base, w) by {
                        assert(estimated_score(w) < rack_threshold(rack@));
                    }
                }
            }
        } else {
            proof {
                // the path is no dictionary word, or it is too short
                assert forall|w: Seq<char>|
                    trie_guy@.contains(w) && w.len() >= 4 && root_hit(
                        path@,
                        rack@,
                        w,
                    ) implies covered(self.anagrams@, base, w) by {
                    assert(w == path@);
                    assert(false);
                }
            }
        }
        let n = rack.len();
        for i in 0..n
            invariant
                trie_guy.wf(),
                rack_bound_fits_u32(path@.len() + rack@.len() as int),
                n == rack@.len(),
                base == old(self).anagrams@.len(),
                base <= self.anagrams@.len(),
                forall|k: int| 0 <= k < base ==> self.anagrams@[k] == old(self).anagrams@[k],
                forall|k: int|
                    base <= k < self.anagrams@.len() ==> sound_candidate(
                        trie_guy@,
                        path@,
                        rack@,
                        #[trigger] self.anagrams@[k],
                    ),
                forall|w: Seq<char>|
                    #![trigger trie_guy@.contains(w)]
                    trie_guy@.contains(w) && w.len() >= 4 && (root_hit(path@, rack@, w) || exists|
                        i2: int,
                    |
                        #![trigger rack@[i2]]
                        0 <= i2 < i && qualifies_branch(path@, rack@, w, i2)) ==> covered(
                        self.anagrams@,
                        base,
                        w,
                    ),
        {
            let c = rack[i];
            if c == '_' {
                let alphabet = wildcard_letters();
                let an = alphabet.len();
                for a in 0..an
                    invariant
                        trie_guy.wf(),
                        rack_bound_fits_u32(path@.len() + rack@.len() as int),
                        n == rack@.len(),
                        i < n,
                        c == rack@[i as int],
                        c == '_',
                        an == wildcard_alphabet().len(),
                        alphabet@ == wildcard_alphabet(),
                        base == old(self).anagrams@.len(),
                        base <= self.anagrams@.len(),
                        forall|k: int|
                            0 <= k < base ==> self.anagrams@[k] == old(self).anagrams@[k],
                        forall|k: int|
                            base <= k < self.anagrams@.len() ==> sound_candidate(
                                trie_guy@,
                                path@,
                                rack@,
                                #[trigger] self.anagrams@[k],
                            ),
                        forall|w: Seq<char>|
                            #![trigger trie_guy@.contains(w)]
                            trie_guy@.contains(w) && w.len() >= 4 && (root_hit(path@, rack@, w)
                                || (exists|i2: int|
                                #![trigger rack@[i2]]
                                0 <= i2 < i && qualifies_branch(path@, rack@, w, i2)) || (exists|
                                a2: int,
                            |
                                #![trigger wildcard_alphabet()[a2]]
                                0 <= a2 < a && qualifies(
                                    path@.push(wildcard_alphabet()[a2]),
                                    rack@.remove(i as int),
                                    w,
                                ))) ==> covered(self.anagrams@, base, w),
                {
                    let mut new_path = copy_chars(&path);
                    new_path.push(alphabet[a]);
                    let new_rack = remove_at(&rack, i);
                    let ghost pre = self.anagrams@;
                    self.generate_rec(new_path, new_rack, trie_guy);
                    proof {
                        lemma_branch_step_wild(
                            trie_guy@,
                            path@,
                            rack@,
                            pre,
                            self.anagrams@,
                            base,
                            i as int,
                            a as int,
                        );
                    }
                }
                proof {
                    // close branch i: a wildcard branch is covered once the
                    // whole alphabet has been tried
                    assert forall|w: Seq<char>|
                        trie_guy@.contains(w) && w.len() >= 4 && (root_hit(path@, rack@, w) || (
                        exists|i2: int|
                            #![trigger rack@[i2]]
                            0 <= i2 < i + 1 && qualifies_branch(
                                path@,
                                rack@,
                                w,
                                i2,
                            ))) implies covered(self.anagrams@, base, w) by {
                        if !root_hit(path@, rack@, w) {
                            let i2 = choose|i2: int|
                                #![trigger rack@[i2]]
                                0 <= i2 < i + 1 && qualifies_branch(path@, rack@, w, i2);
                            if i2 == i {
                                let a2 = choose|a2: int|
                                    #![trigger wildcard_alphabet()[a2]]
                                    0 <= a2 < wildcard_alphabet().len() && qualifies(
                                        path@.push(wildcard_alphabet()[a2]),
                                        rack@.remove(i as int),
                                        w,
                                    );
                                assert(0 <= a2 < an);
                            }
                        }
                    }
                }
            } else {
                let mut new_path = copy_chars(&path);
                new_path.push(c);
                let new_rack = remove_at(&rack, i);
                let ghost pre = self.anagrams@;
                self.generate_rec(new_path, new_rack, trie_guy);
                proof {
                    lemma_branch_step_plain(
                        trie_guy@,
                        path@,
                        rack@,
                        pre,
                        self.anagrams@,
                        base,
                        i as int,
                    );
                    // close branch i: a plain branch is covered by its one
                    // recursive call
                    assert forall|w: Seq<char>|
                        trie_guy@.contains(w) && w.len() >= 4 && (root_hit(path@, rack@, w) || (
                        exists|i2: int|
                            #![trigger rack@[i2]]
                            0 <= i2 < i + 1 && qualifies_branch(
                                path@,
                                rack@,
                                w,
                                i2,
                            ))) implies covered(self.anagrams@, base, w) by {
                        if !root_hit(path@, rack@, w) {
                            let i2 = choose|i2: int|
                                #![trigger rack@[i2]]
                                0 <= i2 < i + 1 && qualifies_branch(path@, rack@, w, i2);
                            if i2 == i {
                                assert(qualifies(
                                    path@.push(rack@[i as int]),
                                    rack@.remove(i as int),
                                    w,
                                ));
                            } else {
                                assert(covered(pre, base, w));
                            }
                        } else {
                            assert(covered(pre, base, w));
                        }
                    }
                }
            }
        }
        proof {
            assert forall|w: Seq<char>|
                trie_guy@.contains(w) && w.len() >= 4 && qualifies(
                    path@,
                    rack@,
                    w,
                ) implies covered(self.anagrams@, base, w) by {
                if !root_hit(path@, rack@, w) {
                    let i2 = choose|i2: int|
                        #![trigger rack@[i2]]
                        0 <= i2 < rack@.len() && qualifies_branch(path@, rack@, w, i2);
                    assert(0 <= i2 < n);
                }
            }
        }
    }
}

} // verus!
