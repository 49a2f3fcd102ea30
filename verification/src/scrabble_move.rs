//! The result of the agent's move selection: the winning candidate and the
//! board slot its first letter lands on.

use crate::anagrams::Anagram;
use vstd::prelude::*;

verus! {

/// A chosen candidate with its starting board slot.
pub struct ScrabbleMove {
    pub anagram: Anagram,
    pub starting_element: u32,
}

impl ScrabbleMove {
    pub fn new(anagram: Anagram, starting_element: u32) -> (m: ScrabbleMove)
        ensures
            m.anagram == anagram,
            m.starting_element == starting_element,
    {
        ScrabbleMove { anagram, starting_element }
    }
}

} // verus!
