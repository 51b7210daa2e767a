//! A word-guessing game: scoring of guesses against a hidden answer, the
//! state of one player's game, and the statistics kept over many games.

pub mod dictionary;
pub mod game;
pub mod registry;
pub mod scoring;
pub mod stats;
