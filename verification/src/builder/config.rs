//! Configuration of the estimation stages.
use vstd::prelude::*;

verus! {

/// Memory and temporary files for a chain of the estimation pipeline.
#[derive(Debug, Clone)]
pub struct ChainConfig {
    pub memory: u64,
    pub temp_prefix: String,
}

impl Default for ChainConfig {
    fn default() -> (r: Self)
        ensures
            r.memory == 0,
            r.temp_prefix@.len() == 0,
    {
        ChainConfig { memory: 0, temp_prefix: String::new() }
    }
}

/// Configuration of the stage that computes initial probabilities.
#[derive(Debug, Clone)]
pub struct InitialProbabilitiesConfig {
    /// Small buffers keep the adder from getting too far ahead.
    pub adder_in: ChainConfig,
    pub adder_out: ChainConfig,
    /// Whether unigrams are interpolated too.
    pub interpolate_unigrams: bool,
}

impl Default for InitialProbabilitiesConfig {
    fn default() -> (r: Self)
        ensures
            r.adder_in.memory == 0,
            r.adder_out.memory == 0,
            !r.interpolate_unigrams,
    {
        InitialProbabilitiesConfig {
            adder_in: ChainConfig::default(),
            adder_out: ChainConfig::default(),
            interpolate_unigrams: false,
        }
    }
}

} // verus!
