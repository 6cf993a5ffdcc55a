//! Text utilities.
pub mod pieces;
