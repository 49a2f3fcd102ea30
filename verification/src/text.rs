//! Small helpers for moving between `&str` words and `Vec<char>` letter
//! sequences, which the search and the dictionary walk letter by letter.

use vstd::prelude::*;

verus! {

/// Relies on String::push: appends the given character at the end of the string.
#[verifier::external_body]
pub(crate) fn push_char(s: &mut String, c: char)
    ensures
        final(s)@ == old(s)@.push(c),
{
    s.push(c);
}

/// The characters of a string slice, in order, as a vector.
pub fn str_to_chars(s: &str) -> (v: Vec<char>)
    ensures
        v@ == s@,
{
    let n = s.unicode_len();
    let mut v: Vec<char> = Vec::new();
    for i in 0..n
        invariant
            n == s@.len(),
            v@ =~= s@.take(i as int),
    {
        v.push(s.get_char(i));
        assert(v@ =~= s@.take(i + 1));
    }
    proof {
        assert(v@ =~= s@);
    }
    v
}

/// A freshly allocated string holding exactly the given characters, in order.
pub fn chars_to_string(v: &Vec<char>) -> (s: String)
    ensures
        s@ == v@,
{
    let mut s = String::new();
    for i in 0..v.len()
        invariant
            s@ =~= v@.take(i as int),
    {
        push_char(&mut s, v[i]);
        assert(s@ =~= v@.take(i + 1));
    }
    proof {
        assert(s@ =~= v@);
    }
    s
}

/// A fresh copy of a vector of characters.
pub fn copy_chars(v: &Vec<char>) -> (r: Vec<char>)
    ensures
        r@ == v@,
{
    let mut r: Vec<char> = Vec::new();
    for i in 0..v.len()
        invariant
            r@ =~= v@.take(i as int),
    {
        r.push(v[i]);
        assert(r@ =~= v@.take(i + 1));
    }
    proof {
        assert(r@ =~= v@);
    }
    r
}

/// A fresh copy of the vector with the element at one index left out.
pub fn remove_at(v: &Vec<char>, i: usize) -> (r: Vec<char>)
    requires
        i < v@.len(),
    ensures
        r@ == v@.remove(i as int),
{
    let mut r: Vec<char> = Vec::new();
    for j in 0..i
        invariant
            i < v@.len(),
            r@ =~= v@.subrange(0, j as int),
    {
        r.push(v[j]);
        assert(r@ =~= v@.subrange(0, j + 1));
    }
    let n = v.len();
    for j in (i + 1)..n
        invariant
            i < n == v@.len(),
            r@ =~= v@.subrange(0, i as int) + v@.subrange(i + 1, j as int),
    {
        r.push(v[j]);
        assert(r@ =~= v@.subrange(0, i as int) + v@.subrange(i + 1, j + 1));
    }
    proof {
        assert(r@ =~= v@.remove(i as int));
    }
    r
}

/// Whether a vector of characters holds the given character.
pub fn contains_char(v: &Vec<char>, c: char) -> (b: bool)
    ensures
        b == v@.contains(c),
{
    for i in 0..v.len()
        invariant
            forall|j: int| 0 <= j < i ==> v@[j] != c,
    {
        if v[i] == c {
            return true;
        }
    }
    false
}

} // verus!
