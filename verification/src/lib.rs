//! A verified 9x9 Sudoku solver.
//!
//! The core is a constraint engine that computes, for every empty cell, the
//! set of digits consistent with the row, column and box constraints, eagerly
//! committing forced cells, and a depth-first backtracking search over grid
//! states that emits every valid completion of the starting grid.

pub mod engine;
pub mod grid;
pub mod parse;
pub mod render;
pub mod search;
