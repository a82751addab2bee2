//! Conway's Game of Life on a bounded grid whose outside is permanently dead.
//!
//! Rows are packed 62 cells to a 64-bit word, and a generation is computed
//! with word-wide boolean logic: a carry-save adder network counts the
//! neighbours of all 62 cells of a word at once. The two spare bits of each
//! word carry, while a generation is computed, the cells that border the
//! word in the packed columns to its left and right.
//!
//! - [`board`] is the mathematical model: a board of cells and the rule
//!   that gives its next generation, cell by cell.
//! - [`bits`] and [`layout`] say which cell each bit of the storage stands
//!   for.
//! - [`kernel`] advances one word; [`grid`] holds the grid and sweeps the
//!   kernel over it.
//! - [`random`] fills a grid from a seeded generator, [`render`] draws it.
//! - [`laws`] states what follows for still lifes, oscillators and
//!   reproducible runs.
//!
//! Every executable function is proved against the model.

pub mod bits;
pub mod board;
pub mod kernel;
pub mod layout;
mod sweep;
pub mod grid;
pub mod random;
pub mod render;
pub mod laws;

pub use grid::GameOfLife;
pub use kernel::next_row;
