//! Fuzzy word matching: an edit distance between two words, and the choice of
//! the words of a list that are nearest to a given word.

pub mod distance;
pub mod matcher;
pub mod ranking;

pub use crate::distance::damerau_levenshtein;
pub use crate::matcher::{find_most_similar_words, WordDistance};
