//! The dictionary index: a prefix tree over words, supporting insertion and
//! exact-word membership queries.
//!
//! The nodes live in one arena vector; an edge is a `(letter, node index)`
//! pair. Every edge points forward (child index above parent index), labels
//! are unique among one node's edges, and every node has at most one parent,
//! so each node is reached by exactly one letter path from the root.
//!
//! The tree's view is the set of words it holds; `insert` adds exactly the
//! given word to that set and `search` decides membership in it.

use crate::text::str_to_chars;
use vstd::prelude::*;

verus! {

/// One node of the prefix tree: its outgoing edges and whether a stored
/// word ends here.
pub struct TrieNode {
    pub children: Vec<(char, usize)>,
    pub is_end_of_word: bool,
}

impl TrieNode {
    pub fn new() -> (node: TrieNode)
        ensures
            node.children@.len() == 0,
            !node.is_end_of_word,
    {
        TrieNode { children: Vec::new(), is_end_of_word: false }
    }
}

/// Some edge of this node is labelled with the given letter.
pub open spec fn has_child(cs: Seq<(char, usize)>, c: char) -> bool {
    exists|j: int| 0 <= j < cs.len() && (#[trigger] cs[j]).0 == c
}

/// The node the edge labelled with the given letter points to, if any.
pub open spec fn child_target(cs: Seq<(char, usize)>, c: char) -> Option<int> {
    if has_child(cs, c) {
        let j = choose|j: int| 0 <= j < cs.len() && (#[trigger] cs[j]).0 == c;
        Some(cs[j].1 as int)
    } else {
        None
    }
}

/// No two edges of one node carry the same letter.
pub open spec fn distinct_labels(cs: Seq<(char, usize)>) -> bool {
    forall|j1: int, j2: int|
        0 <= j1 < cs.len() && 0 <= j2 < cs.len() && (#[trigger] cs[j1]).0 == (
        #[trigger] cs[j2]).0 ==> j1 == j2
}

/// Well-formed arena: a root exists and holds no word (the empty word is
/// never stored), every edge points forward to a node in range, labels are
/// unique per node, and every node has at most one incoming edge.
pub open spec fn wf_nodes(t: Seq<TrieNode>) -> bool {
    &&& 1 <= t.len()
    &&& !t[0].is_end_of_word
    &&& forall|i: int, j: int|
        0 <= i < t.len() && 0 <= j < t[i].children@.len() ==> i < (
        #[trigger] t[i].children@[j]).1 < t.len()
    &&& forall|i: int| 0 <= i < t.len() ==> distinct_labels((#[trigger] t[i]).children@)
    &&& forall|i1: int, j1: int, i2: int, j2: int|
        0 <= i1 < t.len() && 0 <= j1 < t[i1].children@.len() && 0 <= i2 < t.len() && 0 <= j2
            < t[i2].children@.len() && (#[trigger] t[i1].children@[j1]).1 == (
        #[trigger] t[i2].children@[j2]).1 ==> i1 == i2 && j1 == j2
}

/// The node reached from the root by following the word's letters, if the
/// whole path exists.
pub open spec fn reach(t: Seq<TrieNode>, w: Seq<char>) -> Option<int>
    decreases w.len(),
{
    if w.len() == 0 {
        Some(0)
    } else {
        match reach(t, w.drop_last()) {
            Some(p) => if 0 <= p < t.len() {
                child_target(t[p].children@, w.last())
            } else {
                None
            },
            None => None,
        }
    }
}

/// The word's full path exists and ends on a node marked as a word end.
pub open spec fn contains_word_at(t: Seq<TrieNode>, w: Seq<char>) -> bool {
    match reach(t, w) {
        Some(n) => 0 <= n < t.len() && t[n].is_end_of_word,
        None => false,
    }
}

/// The non-empty words among the first `k` entries of a word list.
pub open spec fn listed_words(ws: Seq<String>, k: int) -> Set<Seq<char>> {
    Set::new(
        |w: Seq<char>|
            w.len() > 0 && exists|j: int| #![trigger ws[j]] 0 <= j < k && ws[j]@ == w,
    )
}

/// A reached node lies in range, and only the empty word reaches the root.
pub proof fn lemma_reach_in_range(t: Seq<TrieNode>, w: Seq<char>)
    requires
        wf_nodes(t),
        reach(t, w) is Some,
    ensures
        0 <= reach(t, w)->Some_0 < t.len(),
        w.len() == 0 ==> reach(t, w)->Some_0 == 0,
        w.len() > 0 ==> reach(t, w)->Some_0 > 0,
    decreases w.len(),
{
    if w.len() > 0 {
        lemma_reach_in_range(t, w.drop_last());
        let p = reach(t, w.drop_last())->Some_0;
        let cs = t[p].children@;
        let j = choose|j: int| 0 <= j < cs.len() && (#[trigger] cs[j]).0 == w.last();
        assert(0 <= cs[j].1 < t.len());
    }
}

/// Once a prefix of the word has no path, the word has none either.
pub proof fn lemma_reach_extend_none(t: Seq<TrieNode>, w: Seq<char>, k: int)
    requires
        0 <= k <= w.len(),
        reach(t, w.take(k)) is None,
    ensures
        reach(t, w) is None,
    decreases w.len() - k,
{
    if k == w.len() {
        assert(w.take(k) =~= w);
    } else {
        assert(w.take(k + 1).drop_last() =~= w.take(k));
        lemma_reach_extend_none(t, w, k + 1);
    }
}

/// In a well-formed tree, each node is reached by at most one word.
pub proof fn lemma_reach_unique(t: Seq<TrieNode>, w1: Seq<char>, w2: Seq<char>)
    requires
        wf_nodes(t),
        reach(t, w1) is Some,
        reach(t, w1) == reach(t, w2),
    ensures
        w1 == w2,
    decreases w1.len() + w2.len(),
{
    lemma_reach_in_range(t, w1);
    lemma_reach_in_range(t, w2);
    if w1.len() == 0 && w2.len() == 0 {
        assert(w1 =~= w2);
    } else if w1.len() == 0 {
        // w2 would reach the root over an edge, but edges point forward
        assert(false);
    } else if w2.len() == 0 {
        assert(false);
    } else {
        lemma_reach_in_range(t, w1.drop_last());
        lemma_reach_in_range(t, w2.drop_last());
        let p1 = reach(t, w1.drop_last())->Some_0;
        let p2 = reach(t, w2.drop_last())->Some_0;
        let cs1 = t[p1].children@;
        let cs2 = t[p2].children@;
        let j1 = choose|j: int| 0 <= j < cs1.len() && (#[trigger] cs1[j]).0 == w1.last();
        let j2 = choose|j: int| 0 <= j < cs2.len() && (#[trigger] cs2[j]).0 == w2.last();
        // both edges point at the same node, so they are the same edge
        assert(cs1[j1].1 == cs2[j2].1);
        assert(p1 == p2 && j1 == j2);
        assert(w1.last() == w2.last());
        lemma_reach_unique(t, w1.drop_last(), w2.drop_last());
        assert(w1 =~= w2) by {
            assert(w1.drop_last() == w2.drop_last());
            assert(w1.len() == w2.len());
            assert(forall|i: int|
                0 <= i < w1.len() - 1 ==> w1[i] == w1.drop_last()[i] && w2[i]
                    == w2.drop_last()[i]);
        }
    }
}

/// In a tree of a lone root with no edges, no word has a path.
proof fn lemma_root_only_reach(t: Seq<TrieNode>, w: Seq<char>)
    requires
        t.len() == 1,
        t[0].children@.len() == 0,
        w.len() > 0,
    ensures
        reach(t, w) is None,
    decreases w.len(),
{
    if w.len() > 1 {
        lemma_root_only_reach(t, w.drop_last());
    }
}

/// After following a word's letters, every node's edge list is unchanged, so
/// flags may differ but paths do not.
proof fn lemma_reach_same_children(t1: Seq<TrieNode>, t2: Seq<TrieNode>, v: Seq<char>)
    requires
        t1.len() == t2.len(),
        forall|i: int| 0 <= i < t1.len() ==> (#[trigger] t2[i]).children@ == t1[i].children@,
    ensures
        reach(t2, v) == reach(t1, v),
    decreases v.len(),
{
    if v.len() > 0 {
        lemma_reach_same_children(t1, t2, v.drop_last());
    }
}

/// Appending a fresh node and one forward edge to it leaves every existing
/// path as it was; only the new node's path (over the new edge) is added,
/// and it holds no word yet.
proof fn lemma_add_edge_reach(
    t1: Seq<TrieNode>,
    t2: Seq<TrieNode>,
    p: int,
    c: char,
    mu: usize,
    v: Seq<char>,
)
    requires
        wf_nodes(t1),
        mu as int == t1.len() as int,
        0 <= p < t1.len(),
        !has_child(t1[p].children@, c),
        t2.len() == t1.len() + 1,
        t2[mu as int].children@.len() == 0,
        !t2[mu as int].is_end_of_word,
        forall|i: int| 0 <= i < t1.len() && i != p ==> #[trigger] t2[i] == t1[i],
        t2[p].children@ == t1[p].children@.push((c, mu)),
        t2[p].is_end_of_word == t1[p].is_end_of_word,
    ensures
        reach(t1, v) is Some ==> reach(t2, v) == reach(t1, v),
        match reach(t2, v) {
            None => reach(t1, v) is None,
            Some(x) => (x == mu as int ==> reach(t1, v) is None) && (x != mu as int ==> reach(
                t1,
                v,
            ) == Some(x)),
        },
    decreases v.len(),
{
    let m = mu as int;
    if v.len() == 0 {
    } else {
        lemma_add_edge_reach(t1, t2, p, c, mu, v.drop_last());
        let l = v.last();
        match reach(t2, v.drop_last()) {
            None => {},
            Some(q) => {
                if q == m {
                    assert(!has_child(t2[m].children@, l));
                } else {
                    assert(reach(t1, v.drop_last()) == Some(q));
                    lemma_reach_in_range(t1, v.drop_last());
                    if q == p {
                        let cs1 = t1[p].children@;
                        let cs2 = t2[p].children@;
                        if l == c {
                            assert(cs2[cs1.len() as int].0 == c);
                            assert(has_child(cs2, c));
                            let j = choose|j: int|
                                0 <= j < cs2.len() && (#[trigger] cs2[j]).0 == c;
                            if j < cs1.len() {
                                assert(cs1[j].0 == c);
                                assert(false);
                            }
                            assert(cs2[j].1 == mu);
                            assert(reach(t2, v) == Some(m));
                            assert(!has_child(cs1, c));
                            assert(reach(t1, v) is None);
                        } else {
                            if has_child(cs1, l) {
                                let j1 = choose|j: int|
                                    0 <= j < cs1.len() && (#[trigger] cs1[j]).0 == l;
                                assert(cs2[j1].0 == l);
                                assert(has_child(cs2, l));
                                let j2 = choose|j: int|
                                    0 <= j < cs2.len() && (#[trigger] cs2[j]).0 == l;
                                if j2 == cs1.len() {
                                    assert(cs2[j2].0 == c);
                                    assert(false);
                                }
                                assert(cs2[j2] == cs1[j2]);
                                assert(j1 == j2);
                                assert(child_target(cs2, l) == Some(cs1[j1].1 as int));
                                assert(cs1[j1].1 < t1.len());
                            } else {
                                if has_child(cs2, l) {
                                    let j2 = choose|j: int|
                                        0 <= j < cs2.len() && (#[trigger] cs2[j]).0 == l;
                                    if j2 == cs1.len() {
                                        assert(cs2[j2].0 == c);
                                        assert(false);
                                    }
                                    assert(cs1[j2].0 == l);
                                    assert(false);
                                }
                            }
                        }
                    } else {
                        assert(t2[q] == t1[q]);
                        if has_child(t1[q].children@, l) {
                            let j = choose|j: int|
                                0 <= j < t1[q].children@.len() && (#[trigger] t1[q].children@[j]).0
                                    == l;
                            assert(t1[q].children@[j].1 < t1.len());
                        }
                    }
                }
            },
        }
    }
}

/// The combined effect of adding one fresh node and its incoming edge:
/// the arena stays well formed, no held word changes, and the new edge is in
/// place for the walk to follow.
proof fn lemma_add_edge(t1: Seq<TrieNode>, t2: Seq<TrieNode>, p: int, c: char, mu: usize)
    requires
        wf_nodes(t1),
        mu as int == t1.len() as int,
        0 <= p < t1.len(),
        !has_child(t1[p].children@, c),
        t2.len() == t1.len() + 1,
        t2[mu as int].children@.len() == 0,
        !t2[mu as int].is_end_of_word,
        forall|i: int| 0 <= i < t1.len() && i != p ==> #[trigger] t2[i] == t1[i],
        t2[p].children@ == t1[p].children@.push((c, mu)),
        t2[p].is_end_of_word == t1[p].is_end_of_word,
    ensures
        wf_nodes(t2),
        child_target(t2[p].children@, c) == Some(mu as int),
        forall|v: Seq<char>| reach(t1, v) is Some ==> reach(t2, v) == reach(t1, v),
        forall|v: Seq<char>| contains_word_at(t2, v) == contains_word_at(t1, v),
{
    let m = mu as int;
    let cs1 = t1[p].children@;
    let cs2 = t2[p].children@;
    // the fresh edge is found, and it is the only edge labelled c at p
    assert(cs2[cs1.len() as int].0 == c);
    assert(has_child(cs2, c));
    let j = choose|j: int| 0 <= j < cs2.len() && (#[trigger] cs2[j]).0 == c;
    if j < cs1.len() {
        assert(cs1[j].0 == c);
        assert(false);
    }
    assert(child_target(cs2, c) == Some(m));
    // well-formedness of the grown arena
    assert forall|i: int, jj: int|
        0 <= i < t2.len() && 0 <= jj < t2[i].children@.len() implies i < (
    #[trigger] t2[i].children@[jj]).1 < t2.len() by {
        if i == m {
        } else if i == p {
            if jj < cs1.len() {
                assert(cs2[jj] == cs1[jj]);
            }
        } else {
            assert(t2[i] == t1[i]);
        }
    }
    assert forall|i: int| 0 <= i < t2.len() implies distinct_labels(
        (#[trigger] t2[i]).children@,
    ) by {
        if i == m {
        } else if i == p {
            assert forall|j1: int, j2: int|
                0 <= j1 < cs2.len() && 0 <= j2 < cs2.len() && (#[trigger] cs2[j1]).0 == (
                #[trigger] cs2[j2]).0 implies j1 == j2 by {
                if j1 < cs1.len() && j2 < cs1.len() {
                    assert(cs1[j1] == cs2[j1] && cs1[j2] == cs2[j2]);
                } else if j1 < cs1.len() && j2 == cs1.len() {
                    assert(cs1[j1].0 == c);
                    assert(false);
                } else if j2 < cs1.len() && j1 == cs1.len() {
                    assert(cs1[j2].0 == c);
                    assert(false);
                }
            }
        } else {
            assert(t2[i] == t1[i]);
        }
    }
    assert forall|i1: int, j1: int, i2: int, j2: int|
        0 <= i1 < t2.len() && 0 <= j1 < t2[i1].children@.len() && 0 <= i2 < t2.len() && 0 <= j2
            < t2[i2].children@.len() && (#[trigger] t2[i1].children@[j1]).1 == (
        #[trigger] t2[i2].children@[j2]).1 implies i1 == i2 && j1 == j2 by {
        lemma_edge_in_old(t1, t2, p, c, mu, i1, j1);
        lemma_edge_in_old(t1, t2, p, c, mu, i2, j2);
    }
    assert(wf_nodes(t2));
    // paths and held words are untouched
    assert forall|v: Seq<char>| reach(t1, v) is Some implies reach(t2, v) == reach(t1, v) by {
        lemma_add_edge_reach(t1, t2, p, c, mu, v);
    }
    assert forall|v: Seq<char>| contains_word_at(t2, v) == contains_word_at(t1, v) by {
        lemma_add_edge_reach(t1, t2, p, c, mu, v);
        match reach(t2, v) {
            None => {},
            Some(x) => {
                if x == m {
                    assert(!t2[x].is_end_of_word);
                } else {
                    lemma_reach_in_range(t1, v);
                    if x == p {
                    } else {
                        assert(t2[x] == t1[x]);
                    }
                }
            },
        }
    }
}

/// Every edge of the grown arena is either an edge the old arena had, at the
/// same place, or the one fresh edge into the new node.
proof fn lemma_edge_in_old(
    t1: Seq<TrieNode>,
    t2: Seq<TrieNode>,
    p: int,
    c: char,
    mu: usize,
    i: int,
    j: int,
)
    requires
        wf_nodes(t1),
        mu as int == t1.len() as int,
        0 <= p < t1.len(),
        t2.len() == t1.len() + 1,
        t2[mu as int].children@.len() == 0,
        forall|k: int| 0 <= k < t1.len() && k != p ==> #[trigger] t2[k] == t1[k],
        t2[p].children@ == t1[p].children@.push((c, mu)),
        0 <= i < t2.len(),
        0 <= j < t2[i].children@.len(),
    ensures
        (i == p && j == t1[p].children@.len() && t2[i].children@[j] == (c, mu)) || (0 <= i
            < t1.len() && j < t1[i].children@.len() && t2[i].children@[j] == t1[i].children@[j]
            && t1[i].children@[j].1 < mu),
{
    if i == m_of(t1) {
        assert(false);
    } else if i == p {
        if j < t1[p].children@.len() {
            assert(t2[i].children@[j] == t1[i].children@[j]);
            assert(t1[i].children@[j].1 < t1.len());
        }
    } else {
        assert(t2[i] == t1[i]);
        assert(t1[i].children@[j].1 < t1.len());
    }
}

/// The index one past the arena's end, where a fresh node lands.
spec fn m_of(t1: Seq<TrieNode>) -> int {
    t1.len() as int
}

/// Marking one reached node as a word end adds exactly the word that
/// reaches it, and nothing else.
proof fn lemma_set_flag(t1: Seq<TrieNode>, t2: Seq<TrieNode>, nidx: int, w: Seq<char>)
    requires
        wf_nodes(t1),
        0 <= nidx < t1.len(),
        reach(t1, w) == Some(nidx),
        w.len() > 0,
        t2.len() == t1.len(),
        forall|i: int| 0 <= i < t1.len() && i != nidx ==> #[trigger] t2[i] == t1[i],
        t2[nidx].children@ == t1[nidx].children@,
        t2[nidx].is_end_of_word,
    ensures
        wf_nodes(t2),
        forall|v: Seq<char>|
            #[trigger] contains_word_at(t2, v) == (contains_word_at(t1, v) || v == w),
{
    lemma_reach_in_range(t1, w);
    assert(nidx > 0);
    assert(forall|i: int| 0 <= i < t1.len() ==> (#[trigger] t2[i]).children@ == t1[i].children@);
    assert forall|i: int, j: int|
        0 <= i < t2.len() && 0 <= j < t2[i].children@.len() implies i < (
    #[trigger] t2[i].children@[j]).1 < t2.len() by {
        assert(t2[i].children@ == t1[i].children@);
        assert(t1[i].children@[j].1 > i);
    }
    assert forall|i: int| 0 <= i < t2.len() implies distinct_labels(
        (#[trigger] t2[i]).children@,
    ) by {
        assert(t2[i].children@ == t1[i].children@);
        assert(distinct_labels(t1[i].children@));
    }
    assert forall|i1: int, j1: int, i2: int, j2: int|
        0 <= i1 < t2.len() && 0 <= j1 < t2[i1].children@.len() && 0 <= i2 < t2.len() && 0 <= j2
            < t2[i2].children@.len() && (#[trigger] t2[i1].children@[j1]).1 == (
        #[trigger] t2[i2].children@[j2]).1 implies i1 == i2 && j1 == j2 by {
        assert(t2[i1].children@ == t1[i1].children@);
        assert(t2[i2].children@ == t1[i2].children@);
    }
    assert(wf_nodes(t2));
    assert forall|v: Seq<char>|
        #[trigger] contains_word_at(t2, v) == (contains_word_at(t1, v) || v == w) by {
        lemma_reach_same_children(t1, t2, v);
        match reach(t1, v) {
            None => {},
            Some(x) => {
                lemma_reach_in_range(t1, v);
                if x == nidx {
                    lemma_reach_unique(t1, v, w);
                } else {
                    assert(t2[x] == t1[x]);
                    if v == w {
                        assert(false);
                    }
                }
            },
        }
    }
}

/// The dictionary index: a prefix tree of words, built once by insertions
/// and queried for exact membership.
pub struct TrieTree {
    pub nodes: Vec<TrieNode>,
}

impl View for TrieTree {
    type V = Set<Seq<char>>;

    /// The set of words the tree holds.
    open spec fn view(&self) -> Set<Seq<char>> {
        Set::new(|w: Seq<char>| contains_word_at(self.nodes@, w))
    }
}

impl TrieTree {
    pub open spec fn wf(self) -> bool {
        wf_nodes(self.nodes@)
    }

    /// An empty tree: a lone root, holding no words.
    pub fn new() -> (tree: TrieTree)
        ensures
            tree.wf(),
            tree@ == Set::<Seq<char>>::empty(),
    {
        let mut nodes: Vec<TrieNode> = Vec::new();
        nodes.push(TrieNode::new());
        let tree = TrieTree { nodes };
        proof {
            assert forall|w: Seq<char>| !tree@.contains(w) by {
                if w.len() > 0 {
                    lemma_root_only_reach(tree.nodes@, w);
                }
            }
            assert(tree@ =~= Set::<Seq<char>>::empty());
        }
        tree
    }

    /// Adds the word to the tree, walking existing edges and growing fresh
    /// nodes where the path ends; the final node is marked as a word end.
    /// An empty word is a no-op: the tree never holds the empty word.
    pub fn insert(&mut self, word: &str)
        requires
            old(self).wf(),
        ensures
            final(self).wf(),
            word@.len() == 0 ==> final(self)@ == old(self)@,
            word@.len() > 0 ==> final(self)@ == old(self)@.insert(word@),
    {
        let w = str_to_chars(word);
        if w.len() == 0 {
            return ;
        }
        let mut cur: usize = 0;
        let n = w.len();
        for i in 0..n
            invariant
                self.wf(),
                n == w@.len(),
                0 < n,
                w@ == word@,
                cur < self.nodes@.len(),
                reach(self.nodes@, w@.take(i as int)) == Some(cur as int),
                forall|v: Seq<char>|
                    #[trigger] contains_word_at(self.nodes@, v) == contains_word_at(
                        old(self).nodes@,
                        v,
                    ),
        {
            let c = w[i];
            proof {
                assert(w@.take(i + 1).drop_last() =~= w@.take(i as int));
                assert(w@.take(i + 1).last() == w@[i as int]);
            }
            match find_child(&self.nodes[cur], c) {
                Some(next) => {
                    proof {
                        let cs = self.nodes@[cur as int].children@;
                        let j = choose|j: int| 0 <= j < cs.len() && (#[trigger] cs[j]).0 == c;
                        assert(cur < cs[j].1 < self.nodes@.len());
                    }
                    cur = next;
                },
                None => {
                    let m = self.nodes.len();
                    let ghost t1 = self.nodes@;
                    self.nodes.push(TrieNode::new());
                    self.nodes[cur].children.push((c, m));
                    proof {
                        let t2 = self.nodes@;
                        assert(t2[cur as int].children@ == t1[cur as int].children@.push((c, m)));
                        assert(forall|ii: int|
                            0 <= ii < t1.len() && ii != cur ==> #[trigger] t2[ii] == t1[ii]);
                        lemma_add_edge(t1, t2, cur as int, c, m);
                        assert(reach(t2, w@.take(i as int)) == Some(cur as int));
                        assert(reach(t2, w@.take(i + 1)) == Some(m as int));
                        assert forall|v: Seq<char>|
                            #[trigger] contains_word_at(t2, v) == contains_word_at(
                                old(self).nodes@,
                                v,
                            ) by {
                            assert(contains_word_at(t2, v) == contains_word_at(t1, v));
                        }
                    }
                    cur = m;
                },
            }
        }
        let ghost t1 = self.nodes@;
        self.nodes[cur].is_end_of_word = true;
        proof {
            assert(w@.take(n as int) =~= w@);
            let t2 = self.nodes@;
            assert(forall|ii: int|
                0 <= ii < t1.len() && ii != cur ==> #[trigger] t2[ii] == t1[ii]);
            lemma_set_flag(t1, t2, cur as int, w@);
            assert forall|v: Seq<char>| #[trigger] self@.contains(v) == old(self)@.insert(
                word@,
            ).contains(v) by {
                assert(contains_word_at(t2, v) == (contains_word_at(t1, v) || v == w@));
            }
            assert(self@ =~= old(self)@.insert(word@));
        }
    }

    /// Builds the dictionary: inserts every word of the list, in order.
    /// Afterwards the tree holds exactly what it held before plus every
    /// non-empty word of the list; empty lines are no-ops.
    pub fn insert_all(&mut self, words: &Vec<String>)
        requires
            old(self).wf(),
        ensures
            final(self).wf(),
            final(self)@ == old(self)@.union(listed_words(words@, words@.len() as int)),
    {
        let n = words.len();
        for k in 0..n
            invariant
                self.wf(),
                n == words@.len(),
                self@ == old(self)@.union(listed_words(words@, k as int)),
        {
            let ghost before = self@;
            self.insert(words[k].as_str());
            proof {
                assert(self@ =~= old(self)@.union(listed_words(words@, k + 1))) by {
                    assert forall|w: Seq<char>| #[trigger] listed_words(words@, k + 1).contains(
                        w,
                    ) == (listed_words(words@, k as int).contains(w) || (w == words@[k as int]@
                        && w.len() > 0)) by {
                        if listed_words(words@, k as int).contains(w) {
                            let j = choose|j: int|
                                #![trigger words@[j]]
                                0 <= j < k && words@[j]@ == w;
                            assert(0 <= j < k + 1 && words@[j]@ == w);
                        }
                        if w == words@[k as int]@ && w.len() > 0 {
                            assert(0 <= k < k + 1 && words@[k as int]@ == w);
                        }
                        if listed_words(words@, k + 1).contains(w) {
                            let j = choose|j: int|
                                #![trigger words@[j]]
                                0 <= j < k + 1 && words@[j]@ == w;
                            if j < k {
                                assert(listed_words(words@, k as int).contains(w));
                            }
                        }
                    }
                }
            }
        }
    }

    /// Walks the word letter by letter from the root; the word is in the
    /// tree exactly when the whole path exists and ends on a word-end node.
    pub fn search(&self, word: &str) -> (found: bool)
        requires
            self.wf(),
        ensures
            found == self@.contains(word@),
    {
        let w = str_to_chars(word);
        let mut cur: usize = 0;
        let n = w.len();
        for i in 0..n
            invariant
                self.wf(),
                n == w@.len(),
                w@ == word@,
                cur < self.nodes@.len(),
                reach(self.nodes@, w@.take(i as int)) == Some(cur as int),
        {
            proof {
                assert(w@.take(i + 1).drop_last() =~= w@.take(i as int));
                assert(w@.take(i + 1).last() == w@[i as int]);
            }
            match find_child(&self.nodes[cur], w[i]) {
                Some(next) => {
                    proof {
                        let cs = self.nodes@[cur as int].children@;
                        let j = choose|j: int|
                            0 <= j < cs.len() && (#[trigger] cs[j]).0 == w@[i as int];
                        assert(cur < cs[j].1 < self.nodes@.len());
                    }
                    cur = next;
                },
                None => {
                    proof {
                        assert(reach(self.nodes@, w@.take(i + 1)) is None);
                        lemma_reach_extend_none(self.nodes@, w@, i + 1);
                    }
                    return false;
                },
            }
        }
        proof {
            assert(w@.take(n as int) =~= w@);
        }
        self.nodes[cur].is_end_of_word
    }
}

/// Law: a word is in the tree immediately after it is inserted, and it stays
/// in after any other word is inserted later. The premises are exactly what
/// `insert` ensures of a non-empty word.
pub proof fn lemma_inserted_word_stays(
    t0: TrieTree,
    t1: TrieTree,
    t2: TrieTree,
    w: Seq<char>,
    other: Seq<char>,
)
    requires
        t1@ == t0@.insert(w),
        t2@ == t1@.insert(other),
    ensures
        t1@.contains(w),
        t2@.contains(w),
{
}

/// Law: inserting a word adds no other word; in particular a word that is
/// only a strict prefix of inserted words is never in the tree.
pub proof fn lemma_strict_prefix_absent(t0: TrieTree, t1: TrieTree, v: Seq<char>, w: Seq<char>)
    requires
        t1@ == t0@.insert(w),
        !t0@.contains(v),
        v.len() < w.len(),
        v =~= w.take(v.len() as int),
    ensures
        !t1@.contains(v),
{
    assert(v != w);
}

/// Law: a well-formed tree never holds the empty word, so membership of the
/// empty string is always false.
pub proof fn lemma_empty_word_absent(t: TrieTree)
    requires
        t.wf(),
    ensures
        !t@.contains(Seq::<char>::empty()),
{
    assert(reach(t.nodes@, Seq::<char>::empty()) == Some(0int));
}

/// The outgoing edge of this node labelled with the given letter, if any.
fn find_child(node: &TrieNode, c: char) -> (r: Option<usize>)
    requires
        distinct_labels(node.children@),
    ensures
        match r {
            Some(target) => child_target(node.children@, c) == Some(target as int),
            None => !has_child(node.children@, c),
        },
{
    let n = node.children.len();
    for j in 0..n
        invariant
            distinct_labels(node.children@),
            n == node.children@.len(),
            forall|k: int| 0 <= k < j ==> (#[trigger] node.children@[k]).0 != c,
    {
        let (label, target) = node.children[j];
        if label == c {
            proof {
                assert(has_child(node.children@, c));
                let jj = choose|k: int|
                    0 <= k < node.children@.len() && (#[trigger] node.children@[k]).0 == c;
                assert(jj == j);
            }
            return Some(target);
        }
    }
    None
}

} // verus!
