//! The mathematical model of letter scoring.
//!
//! Two fixed tables, each read first-match: the point table scores words
//! (`letter_score`, letters outside it, the wildcard `'_'` included, are
//! worth nothing), and the frequency table weighs the rack itself
//! (`frequency_weight`), setting the bound that the candidate filter holds
//! words against.

use vstd::prelude::*;

verus! {

/// Point value of a single letter tile under the fixed score table.
pub open spec fn letter_score(c: char) -> u32 {
    if c == 'A' || c == 'E' || c == 'I' || c == 'L' || c == 'N' || c == 'O' || c == 'R'
        || c == 'S' || c == 'T' || c == 'U' {
        1
    } else if c == 'D' || c == 'G' {
        2
    } else if c == 'B' || c == 'C' || c == 'M' || c == 'P' {
        3
    } else if c == 'F' || c == 'H' || c == 'V' || c == 'W' || c == 'Y' {
        4
    } else if c == 'K' {
        5
    } else if c == 'J' || c == 'X' {
        8
    } else if c == 'Q' || c == 'Z' {
        10
    } else {
        0
    }
}

/// Sum of the point values of all letters of a word.
pub open spec fn score_sum(w: Seq<char>) -> int
    decreases w.len(),
{
    if w.len() == 0 {
        0
    } else {
        score_sum(w.drop_last()) + letter_score(w.last())
    }
}

/// Highest point value of any single letter of a word (0 for the empty word).
pub open spec fn max_letter_score(w: Seq<char>) -> int
    decreases w.len(),
{
    if w.len() == 0 {
        0
    } else if letter_score(w.last()) > max_letter_score(w.drop_last()) {
        letter_score(w.last()) as int
    } else {
        max_letter_score(w.drop_last())
    }
}

/// Estimated point value of a word: the plain letter sum, plus the best
/// letter once more when the word is long enough (more than four letters)
/// to land that letter on the double-letter square.
pub open spec fn estimated_score(w: Seq<char>) -> int {
    score_sum(w) + if w.len() > 4 {
        max_letter_score(w)
    } else {
        0
    }
}

/// Frequency weight of a single letter tile: the weight of the first
/// frequency group that lists it (so `'U'` weighs 1, from the first group),
/// zero for a letter the bag never holds.
pub open spec fn frequency_weight(c: char) -> u32 {
    if c == 'J' || c == 'K' || c == 'U' || c == 'X' || c == 'Z' {
        1
    } else if c == 'B' || c == 'C' || c == 'F' || c == 'H' || c == 'M' || c == 'P' || c == 'V'
        || c == 'W' || c == 'Y' || c == '_' {
        2
    } else if c == 'G' {
        3
    } else if c == 'D' || c == 'L' || c == 'S' {
        4
    } else if c == 'N' || c == 'R' || c == 'T' {
        6
    } else if c == 'O' {
        8
    } else if c == 'A' || c == 'I' {
        9
    } else if c == 'E' {
        12
    } else {
        0
    }
}

/// Sum of the frequency weights of a rack's letters.
pub open spec fn freq_sum(w: Seq<char>) -> int
    decreases w.len(),
{
    if w.len() == 0 {
        0
    } else {
        freq_sum(w.drop_last()) + frequency_weight(w.last())
    }
}

/// Highest frequency weight of any single letter (0 for no letters).
pub open spec fn max_freq_weight(w: Seq<char>) -> int
    decreases w.len(),
{
    if w.len() == 0 {
        0
    } else if frequency_weight(w.last()) > max_freq_weight(w.drop_last()) {
        frequency_weight(w.last()) as int
    } else {
        max_freq_weight(w.drop_last())
    }
}

/// The rack's own maximum achievable score: the frequency weights of its
/// letters summed, plus the best single weight once more. This is the base
/// of the candidate filter, a different scale from the point estimate that
/// scores words.
pub open spec fn rack_max_score(letters: Seq<char>) -> int {
    freq_sum(letters) + max_freq_weight(letters)
}

/// The candidate filter bound for the letters still in hand: two fifths
/// (40%) of the rack's maximum achievable score, rounded down.
pub open spec fn rack_threshold(letters: Seq<char>) -> int {
    2 * rack_max_score(letters) / 5
}

/// A word of this length has an estimated score that a `u32` can hold.
pub open spec fn score_fits_u32(n: int) -> bool {
    10 * n + 10 <= u32::MAX
}

/// A rack of this length has a maximum achievable score that a `u32` can
/// hold; this also covers the point estimate of any word of the length.
pub open spec fn rack_bound_fits_u32(n: int) -> bool {
    12 * n + 12 <= u32::MAX
}

/// The score table as grouped data: each group is the letters sharing one
/// point value, in the order the lookup walks them. The letter `'E'` is also
/// listed in a trailing group, but the first group that lists a letter wins.
pub open spec fn score_table() -> Seq<(Seq<char>, u32)> {
    seq![
        (seq!['A', 'E', 'I', 'L', 'N', 'O', 'R', 'S', 'T', 'U'], 1u32),
        (seq!['D', 'G'], 2u32),
        (seq!['B', 'C', 'M', 'P'], 3u32),
        (seq!['F', 'H', 'V', 'W', 'Y'], 4u32),
        (seq!['K'], 5u32),
        (seq!['J', 'X'], 8u32),
        (seq!['Q', 'Z'], 10u32),
        (seq!['E'], 12u32),
    ]
}

/// The frequency table: each group is the letters sharing one frequency
/// weight in the tile bag, wildcards included.
pub open spec fn frequency_table() -> Seq<(Seq<char>, u32)> {
    seq![
        (seq!['J', 'K', 'U', 'X', 'Z'], 1u32),
        (seq!['B', 'C', 'F', 'H', 'M', 'P', 'V', 'W', 'Y', '_'], 2u32),
        (seq!['G'], 3u32),
        (seq!['D', 'L', 'S', 'U'], 4u32),
        (seq!['N', 'R', 'T'], 6u32),
        (seq!['O'], 8u32),
        (seq!['A', 'I'], 9u32),
        (seq!['E'], 12u32),
    ]
}

/// Spells out, for every score group, which characters it holds.
pub proof fn lemma_score_group_membership(c: char)
    ensures
        score_table()[0].0.contains(c) <==> (c == 'A' || c == 'E' || c == 'I' || c == 'L' || c
            == 'N' || c == 'O' || c == 'R' || c == 'S' || c == 'T' || c == 'U'),
        score_table()[1].0.contains(c) <==> (c == 'D' || c == 'G'),
        score_table()[2].0.contains(c) <==> (c == 'B' || c == 'C' || c == 'M' || c == 'P'),
        score_table()[3].0.contains(c) <==> (c == 'F' || c == 'H' || c == 'V' || c == 'W' || c
            == 'Y'),
        score_table()[4].0.contains(c) <==> (c == 'K'),
        score_table()[5].0.contains(c) <==> (c == 'J' || c == 'X'),
        score_table()[6].0.contains(c) <==> (c == 'Q' || c == 'Z'),
        score_table()[7].0.contains(c) <==> (c == 'E'),
{
    assert(score_table()[0].0[0] == 'A');
    assert(score_table()[0].0[1] == 'E');
    assert(score_table()[0].0[2] == 'I');
    assert(score_table()[0].0[3] == 'L');
    assert(score_table()[0].0[4] == 'N');
    assert(score_table()[0].0[5] == 'O');
    assert(score_table()[0].0[6] == 'R');
    assert(score_table()[0].0[7] == 'S');
    assert(score_table()[0].0[8] == 'T');
    assert(score_table()[0].0[9] == 'U');
    assert(score_table()[1].0[0] == 'D');
    assert(score_table()[1].0[1] == 'G');
    assert(score_table()[2].0[0] == 'B');
    assert(score_table()[2].0[1] == 'C');
    assert(score_table()[2].0[2] == 'M');
    assert(score_table()[2].0[3] == 'P');
    assert(score_table()[3].0[0] == 'F');
    assert(score_table()[3].0[1] == 'H');
    assert(score_table()[3].0[2] == 'V');
    assert(score_table()[3].0[3] == 'W');
    assert(score_table()[3].0[4] == 'Y');
    assert(score_table()[4].0[0] == 'K');
    assert(score_table()[5].0[0] == 'J');
    assert(score_table()[5].0[1] == 'X');
    assert(score_table()[6].0[0] == 'Q');
    assert(score_table()[6].0[1] == 'Z');
    assert(score_table()[7].0[0] == 'E');
}

/// The first score group that lists a letter carries exactly that letter's
/// point value.
pub proof fn lemma_score_table_lookup(c: char, i: int)
    requires
        0 <= i < score_table().len(),
        score_table()[i].0.contains(c),
        forall|j: int| 0 <= j < i ==> !(#[trigger] score_table()[j].0.contains(c)),
    ensures
        score_table()[i].1 == letter_score(c),
{
    lemma_score_group_membership(c);
}

/// A letter that no score group lists is worth nothing.
pub proof fn lemma_score_table_miss(c: char)
    requires
        forall|j: int| 0 <= j < score_table().len() ==> !(#[trigger] score_table()[j].0.contains(
            c,
        )),
    ensures
        letter_score(c) == 0,
{
    lemma_score_group_membership(c);
}

/// Spells out, for every frequency group, which characters it holds.
pub proof fn lemma_frequency_group_membership(c: char)
    ensures
        frequency_table()[0].0.contains(c) <==> (c == 'J' || c == 'K' || c == 'U' || c == 'X' || c
            == 'Z'),
        frequency_table()[1].0.contains(c) <==> (c == 'B' || c == 'C' || c == 'F' || c == 'H' || c
            == 'M' || c == 'P' || c == 'V' || c == 'W' || c == 'Y' || c == '_'),
        frequency_table()[2].0.contains(c) <==> (c == 'G'),
        frequency_table()[3].0.contains(c) <==> (c == 'D' || c == 'L' || c == 'S' || c == 'U'),
        frequency_table()[4].0.contains(c) <==> (c == 'N' || c == 'R' || c == 'T'),
        frequency_table()[5].0.contains(c) <==> (c == 'O'),
        frequency_table()[6].0.contains(c) <==> (c == 'A' || c == 'I'),
        frequency_table()[7].0.contains(c) <==> (c == 'E'),
{
    assert(frequency_table()[0].0[0] == 'J');
    assert(frequency_table()[0].0[1] == 'K');
    assert(frequency_table()[0].0[2] == 'U');
    assert(frequency_table()[0].0[3] == 'X');
    assert(frequency_table()[0].0[4] == 'Z');
    assert(frequency_table()[1].0[0] == 'B');
    assert(frequency_table()[1].0[1] == 'C');
    assert(frequency_table()[1].0[2] == 'F');
    assert(frequency_table()[1].0[3] == 'H');
    assert(frequency_table()[1].0[4] == 'M');
    assert(frequency_table()[1].0[5] == 'P');
    assert(frequency_table()[1].0[6] == 'V');
    assert(frequency_table()[1].0[7] == 'W');
    assert(frequency_table()[1].0[8] == 'Y');
    assert(frequency_table()[1].0[9] == '_');
    assert(frequency_table()[2].0[0] == 'G');
    assert(frequency_table()[3].0[0] == 'D');
    assert(frequency_table()[3].0[1] == 'L');
    assert(frequency_table()[3].0[2] == 'S');
    assert(frequency_table()[3].0[3] == 'U');
    assert(frequency_table()[4].0[0] == 'N');
    assert(frequency_table()[4].0[1] == 'R');
    assert(frequency_table()[4].0[2] == 'T');
    assert(frequency_table()[5].0[0] == 'O');
    assert(frequency_table()[6].0[0] == 'A');
    assert(frequency_table()[6].0[1] == 'I');
    assert(frequency_table()[7].0[0] == 'E');
}

/// The first frequency group that lists a letter carries exactly that
/// letter's frequency weight.
pub proof fn lemma_frequency_table_lookup(c: char, i: int)
    requires
        0 <= i < frequency_table().len(),
        frequency_table()[i].0.contains(c),
        forall|j: int| 0 <= j < i ==> !(#[trigger] frequency_table()[j].0.contains(c)),
    ensures
        frequency_table()[i].1 == frequency_weight(c),
{
    lemma_frequency_group_membership(c);
}

/// A letter that no frequency group lists weighs nothing.
pub proof fn lemma_frequency_table_miss(c: char)
    requires
        forall|j: int|
            0 <= j < frequency_table().len() ==> !(#[trigger] frequency_table()[j].0.contains(c)),
    ensures
        frequency_weight(c) == 0,
{
    lemma_frequency_group_membership(c);
}

/// Every tile weighs at most 12, so a rack's maximum achievable score is
/// bounded by twelve per tile plus one repeated best tile.
pub proof fn lemma_rack_bounds(w: Seq<char>)
    ensures
        0 <= freq_sum(w) <= 12 * w.len(),
        0 <= max_freq_weight(w) <= 12,
        0 <= rack_max_score(w) <= 12 * w.len() + 12,
    decreases w.len(),
{
    if w.len() > 0 {
        lemma_rack_bounds(w.drop_last());
    }
}

} // verus!
