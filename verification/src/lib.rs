//! A verified model of the 3x3 sliding-tile puzzle (8-puzzle) together with a
//! breadth-first solver that returns a sequence of legal swipes reaching the
//! solved grid.

pub mod puzzle;
pub mod search;

pub use puzzle::{Coordination, Puzzle, PuzzleV, Swipe, PUZZLE_SIZE};
pub use search::{solve, Outcome};
