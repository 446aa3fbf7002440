//! Solvers for the puzzles of the Kingdom of Algorithmia.
//!
//! Every solver is a total function from the puzzle text to an answer or an
//! error, and each carries a contract that says which answer it is. The
//! racetrack puzzle (`quests::quest_2024_07`) is the heart of the crate: it
//! traces a track from a diagram, simulates races over it and counts the
//! action plans that beat a given score.

pub mod common;
pub mod quests;
