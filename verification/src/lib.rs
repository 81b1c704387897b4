//! An in-memory spelling correction engine over a frequency dictionary.
//!
//! A symmetric-delete index generates correction candidates in sublinear
//! time; candidates are verified by Levenshtein distance, ranked, and fed
//! to a correction policy that respects protected terms and patterns.

pub mod text;
pub mod edit;
pub mod unicode;
pub mod store;
pub mod symspell;
pub mod guards;
pub mod checker;
