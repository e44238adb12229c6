//! Towers of Hanoi: a peg-state model and the recursive solver that plays
//! the optimal sequence of single-ring moves on it.

pub mod laws;
pub mod model;
pub mod puzzle;
pub mod tower;

pub use puzzle::{solve_game, ConfigurationError, TowerOfHanoi};
pub use tower::{get_starting_stack, Tower};
