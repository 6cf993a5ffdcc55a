use vstd::prelude::*;

pub mod hash;
pub mod bit_packing;
pub mod ngram;
pub mod types;
pub mod constant;
pub mod text;
pub mod sorting;
pub mod vocabulary;
pub mod trie;
pub mod trie_format;
pub mod trie_build;
pub mod bhiksha;
pub mod common;
pub mod stream;
pub mod utils;
pub mod search;
pub mod quantize;
pub mod builder;
pub mod model;
pub mod filter;
pub mod error;
pub mod arpa_reader;

verus! {

} // verus!
