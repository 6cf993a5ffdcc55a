//! Borrowed pieces of text and the tokenizers that cut them.
pub mod file;
pub mod string;
pub mod tokenize;
