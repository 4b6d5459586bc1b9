//! Fuzzy word search: scan text for tokens whose Levenshtein edit distance
//! to a target string lies strictly below a threshold, and report each match
//! with its source file and 1-based line number.

pub mod distance;
pub mod hit;
pub mod search;
pub mod text;
