//! Self-avoiding walks on a square letter grid.
//!
//! A [`Board`] is a `dim × dim` lattice of letters. A *path* is a sequence of
//! distinct cells in which each step moves to one of the (up to) eight
//! neighbours of the cell before it. The library computes the moves open at
//! the end of a path, lists every path in depth-first pre-order, reads the
//! word that a path spells, and keeps the dictionary words that some path
//! spells.
//!
//! Every executable function carries a contract over the mathematical model
//! of [`grid`], [`walks`] and [`words`], and is proved against it. What holds
//! of the answers in general is stated and proved in [`laws`].

pub mod board;
mod chars;
pub mod dictionary;
pub mod error;
pub mod grid;
pub mod laws;
mod random;
pub mod render;
pub mod walks;
pub mod words;

pub use board::Board;
pub use error::BoardError;
