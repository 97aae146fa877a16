//! Generation of solved sudoku grids and of puzzles with a unique solution.
pub mod candidates;
pub mod grid;
pub mod peers;
pub mod report;
pub mod solver;
