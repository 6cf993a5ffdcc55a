//! Streams of records between the stages of the estimation pipeline.
pub mod chain;
pub mod config;
pub mod sort;
