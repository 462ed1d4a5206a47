//! Fuzzy record linkage between bibliographic records.
//!
//! Given subjects to identify and a corpus of candidates, the library ranks
//! for each subject the candidates that most plausibly are the same work.
//! A [`index::BlockingIndex`] over the corpus keeps the comparison from
//! being quadratic; the scorer in [`score`] weighs titles, authors, dates
//! and identifiers; [`batch`] does both for a whole batch of subjects.
//!
//! Scores are whole numbers: millionths of a point, multiplied by weights
//! that are whole numbers too. Every executable function carries a contract
//! that says what it computes, over the contents of the records.

pub mod batch;
pub mod blocking;
pub mod index;
pub mod names;
pub mod rank;
pub mod record;
pub mod score;
pub mod similarity;
pub mod text;
pub mod trigram;
