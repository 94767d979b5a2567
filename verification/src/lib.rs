//! A logical (non-backtracking) solver for 9x9 Sudoku grids.
//!
//! The crate is organised around three layers:
//! - `sudoku`: the grid data model (positions, fields, unit queries),
//! - `solver`: the deduction strategies and the round orchestrator,
//! - `laws`: proved global properties of a solving round (soundness with
//!   respect to a completed solution, pruning, monotonicity, termination).

pub mod laws;
pub mod solver;
pub mod sudoku;
