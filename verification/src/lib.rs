//! A heuristic solver core for a five-letter word-guessing game with
//! positional feedback.
//!
//! The crate builds per-slot letter-frequency models from an answer corpus,
//! scores candidate guesses against such a model, searches a vocabulary
//! window by window for the best-scoring guesses, and narrows a candidate
//! pool as feedback about a played guess accumulates.

pub mod freq;
pub mod solver;
