//! A verified 9x9 Sudoku solver.
//!
//! The grid is a flat table of 81 cells, each holding a digit 1-9 or
//! nothing.  A recursive backtracking search fills the empty cells in
//! row-major order, pruning with per-cell candidate sets, and a separate
//! validator re-checks global consistency of the result.

pub mod coord;
pub mod digits;
pub mod grid;
pub mod solver;
pub mod text;
pub mod validate;

pub use coord::Coord;
pub use digits::Digits;
pub use grid::Sudoku;
pub use text::ParseSudokuError;
pub use validate::InvalidSudokuError;
