//! A sudoku solver: a 9×9 board read from text, a depth-first backtracking
//! solver, and a resumable solver that makes one decision per call.
//!
//! The rule a digit must pass to be placed is that it occurs neither in the
//! cell's row nor in its column; the 3×3 blocks are not checked.

pub mod board;
pub mod grid;
pub mod parse;
pub mod parse_error;
pub mod search_state;
pub mod solver;

pub use crate::grid::{Cell, Grid};
pub use crate::parse_error::ParseError;
pub use crate::solver::{solve, StepResult, StepSolver};
