//! A 9×9 Sudoku board and its candidate engine: for any cell, the digits that
//! its row, its column and its 3×3 sub-square still leave open.
//!
//! - [`position`]: validated coordinates and the geometry of the sub-squares.
//! - [`board`]: the grid of cells, with its accessors.
//! - [`regions`]: the digits that stand in the column, the row and the
//!   sub-square of a cell.
//! - [`candidates`]: the digits that are still open for a cell.
//! - [`error`]: the reasons for which a request is refused.

pub mod board;
pub mod candidates;
pub mod error;
pub mod position;
pub mod regions;

pub use board::Sudoku;
pub use error::SudokuError;
pub use position::{CellPos, MiniSquareBounds};
