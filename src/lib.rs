//! A solver for the five-letter word-guessing game: per-letter feedback,
//! candidate filtering and expected-remaining-size guess selection.

pub mod feedback;
pub mod solver;
pub mod words;
