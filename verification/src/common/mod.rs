//! Structures shared by the estimation pipeline.
pub mod ngram;
pub mod ordering;
