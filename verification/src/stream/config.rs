//! Configuration of chains and sorters.
use vstd::prelude::*;

verus! {

/// How a chain is configured.
#[derive(Clone, Debug, Default)]
pub struct ChainConfig {
    /// Number of bytes in each record.
    pub entry_size: usize,
    /// Number of blocks in the chain.
    pub block_count: usize,
    /// Total number of bytes available to the chain, divided amongst its blocks.
    pub total_memory: usize,
}

impl ChainConfig {
    /// A configuration with every parameter zero.
    pub fn new() -> (r: Self)
        ensures
            r.entry_size == 0,
            r.block_count == 0,
            r.total_memory == 0,
    {
        Self { entry_size: 0, block_count: 0, total_memory: 0 }
    }

    /// A configuration with the given parameters.
    pub fn with_params(entry_size: usize, block_count: usize, total_memory: usize) -> (r: Self)
        ensures
            r.entry_size == entry_size,
            r.block_count == block_count,
            r.total_memory == total_memory,
    {
        Self { entry_size, block_count, total_memory }
    }
}

/// How a sorter is configured.
#[derive(Debug, Clone, Default)]
pub struct SortConfig {
    /// Filename prefix where temporary files are placed.
    pub temp_prefix: String,
    /// Size of each input/output buffer.
    pub buffer_size: usize,
    /// Total memory to use when running alone.
    pub total_memory: usize,
}

impl SortConfig {
    /// A sorter configuration with the given parameters.
    pub fn new(temp_prefix: String, buffer_size: usize, total_memory: usize) -> (r: Self)
        ensures
            r.temp_prefix == temp_prefix,
            r.buffer_size == buffer_size,
            r.total_memory == total_memory,
    {
        Self { temp_prefix, buffer_size, total_memory }
    }
}

} // verus!
