//! A 9x9 Sudoku solver.
//!
//! The puzzle lives in a [`board::Board`]: a flat array of 81 cell values
//! (0 for a blank, 1 through 9 for an assigned digit) together with the
//! ordered list of the originally blank cells. The solver fills those cells
//! by iterative backtracking search, checking row, column and 3x3 square
//! uniqueness at every placement.

pub mod board;
pub mod solver;
pub mod text;

pub use board::Board;
