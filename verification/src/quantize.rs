//! Quantization of probabilities and backoffs: the unquantized scheme.
use vstd::prelude::*;
use crate::bit_packing::BitAddress;

verus! {

/// Bits given to quantized probabilities and backoffs.
#[derive(Debug, Clone)]
pub struct QuantConfig {
    pub prob_bits: u8,
    pub backoff_bits: u8,
}

impl Default for QuantConfig {
    fn default() -> (r: Self)
        ensures
            r.prob_bits == 8,
            r.backoff_bits == 8,
    {
        Self { prob_bits: 8, backoff_bits: 8 }
    }
}

/// No quantization: values are stored as full floats.
#[derive(Debug, Clone)]
pub struct DontQuantize;

impl Default for DontQuantize {
    fn default() -> (r: Self) {
        DontQuantize
    }
}

impl DontQuantize {
    /// Offset of the model type for this scheme.
    pub const MODEL_TYPE_ADD: u8 = 0;

    /// No quantization tables are stored.
    pub fn size(_order: u8, _config: &QuantConfig) -> (r: u64)
        ensures
            r == 0,
    {
        0
    }

    /// A middle entry takes a 31-bit probability and a 32-bit backoff.
    pub fn middle_bits(_config: &QuantConfig) -> (r: u8)
        ensures
            r == 63,
    {
        63
    }

    /// A longest entry takes a 31-bit probability.
    pub fn longest_bits(_config: &QuantConfig) -> (r: u8)
        ensures
            r == 31,
    {
        31
    }

    /// Nothing to lay out: the memory is left as it is.
    pub fn setup_memory(&mut self, _start: &mut [u8], _order: u8, _config: &QuantConfig)
        ensures
            final(_start)@ == old(_start)@,
    {
    }

    /// Nothing to finish.
    pub fn finished_loading(&mut self, _config: &QuantConfig) {
    }
}

/// Where an unquantized middle entry lives.
#[derive(Debug, Clone)]
pub struct DontQuantizeMiddlePointer {
    pub address: BitAddress,
}

impl DontQuantizeMiddlePointer {
    pub fn new(_quant: &DontQuantize, _order_minus_2: u8, address: BitAddress) -> (r: Self)
        ensures
            r.address == address,
    {
        Self { address }
    }

    /// Whether the pointer points at anything: its memory is not empty.
    pub fn found(&self) -> (r: bool)
        ensures
            r == (self.address.base@.len() > 0),
    {
        self.address.base.len() != 0
    }
}

/// Where an unquantized longest entry lives.
#[derive(Debug, Clone)]
pub struct DontQuantizeLongestPointer {
    pub address: BitAddress,
}

impl DontQuantizeLongestPointer {
    pub fn new(_quant: &DontQuantize, address: BitAddress) -> (r: Self)
        ensures
            r.address == address,
    {
        Self { address }
    }

    /// Whether the pointer points at anything: its memory is not empty.
    pub fn found(&self) -> (r: bool)
        ensures
            r == (self.address.base@.len() > 0),
    {
        self.address.base.len() != 0
    }
}

} // verus!
