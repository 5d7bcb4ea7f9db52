//! A 9x9 Sudoku constraint-propagation engine.
//!
//! The board is a dense, row-major vector of 81 cells. Each cell carries a
//! 9-bit candidate mask (bit `b` means digit `b + 1` is still possible) and an
//! assigned value (0 while unknown). Deduction passes (naked single, hidden
//! single, naked pair, box-line reduction) shrink candidate masks and assign
//! values; a fixed-point driver repeats them until nothing changes, and a
//! shallow guess fallback tries candidates of two- and three-candidate cells
//! when propagation stalls.

pub mod access;
pub mod board;
pub mod boxline;
pub mod cell;
pub mod counting;
pub mod pairs;
pub mod rules;
pub mod singles;
pub mod solve;
pub mod text;

pub use board::Sudoku;
pub use cell::Cell;
