//! An implementation of the Aho-Corasick algorithm for fast multi-pattern string search.
//!
//! Aho-Corasick searches a text for multiple keywords simultaneously in linear time,
//! O(n + m + z), where n is the length of the text, m is the total length of all
//! keywords, and z is the number of matches found.
pub mod aho_corasick;
pub mod byte_matches;
pub mod matches;
pub mod model;
pub mod trie;
pub mod utf8;

pub use aho_corasick::AhoCorasick;
pub use matches::Match;
pub use matches::Matches;
