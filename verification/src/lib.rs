//! Core rules of a Minesweeper game: a rectangular grid of cells, some of
//! them mines, with verified operations to place mines, reveal cells (with
//! flood fill through blank regions), chord-reveal the neighbors of a
//! numbered cell, toggle flags, and decide the win condition.

mod cell;
mod error;
mod field;
pub mod reach;
mod rng;

pub use cell::Cell;
pub use error::FieldError;
pub use field::Field;
