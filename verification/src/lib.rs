//! Minimax strategy computations for a five-letter word-guessing game.
//!
//! Given a bank of allowed guesses and a bank of possible solutions, the
//! library grades guesses against solutions, partitions candidate solution
//! sets by feedback pattern, selects the guess whose worst-case partition is
//! smallest, simulates full games turn by turn, and reports the worst-case
//! number of turns over every possible hidden solution.

pub mod words;
pub mod grading;
pub mod buckets;
pub mod minimax;
pub mod game;
pub mod batch;
