//! A solver's assistant for five-letter word puzzles.
//!
//! The crate keeps what the feedback seen so far says about the hidden word,
//! folds one more row of feedback into it, filters a word list by it, and
//! counts, for each candidate guess, how the surviving words split by the
//! feedback that the guess would draw.
pub mod word;
pub mod feedback;
pub mod state;
pub mod merge;
pub mod chars;
pub mod state_text;
pub mod row_text;
pub mod score;
pub mod calc;
pub mod session;
