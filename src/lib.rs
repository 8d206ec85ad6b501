//! Case-insensitive, Unicode-aware subsequence matching with a ranking score.
//!
//! A needle matches a haystack when the needle's lowercase characters occur,
//! in order, among the haystack's lowercase characters. The match is found
//! by a greedy forward scan; it reports the haystack character positions it
//! took and a score where smaller is better.
pub mod laws;
pub mod lowering;
pub mod matcher;
pub mod scan;

pub use matcher::{fuzzy_indices, fuzzy_match};
