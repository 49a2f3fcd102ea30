//! A solver for the opening move of a word-tile game: from a rack of seven
//! tiles (wildcards included) and a dictionary held in a prefix tree, it
//! enumerates every reachable dictionary word, estimates each word's point
//! value, keeps the high-value candidates, and places the best one on the
//! single playable row so that it spans the centre square with its best
//! letter on the reachable premium square.

pub mod scoring;
pub mod agent;
pub mod anagrams;
pub mod board;
pub mod rack;
pub mod scores;
pub mod scrabble_move;
pub mod text;
pub mod trieguy;
pub mod weighted_group;
