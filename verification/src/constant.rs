//! Constants and option enums shared across the library.
use vstd::prelude::*;

verus! {

/// Maximum order supported.
pub const KENLM_MAX_ORDER: usize = 6;

/// Index of the unknown word.
pub const UNK_WORD: u32 = 0;

/// Index of the beginning-of-sentence marker `<s>`.
pub const BOS_WORD: u32 = 1;

/// Index of the end-of-sentence marker `</s>`.
pub const EOS_WORD: u32 = 2;

/// Magic string at the start of binary model files.
pub const BINARY_MAGIC: &'static str = "mmap lm http://kheafield.com/code";

/// Binary model format version.
pub const MODEL_VERSION: u32 = 5;

/// Quantized extension marker.
pub const K_EXTENSION_QUANT: u64 = 1;

/// Quantized marker for an n-gram that no longer n-gram extends.
pub const K_NO_EXTENSION_QUANT: u64 = 0;

/// How much to complain about ARPA files while loading.
#[derive(Debug, Clone)]
pub enum ARPALoadComplain {
    All,
    Expensive,
    /// No complaints.
    NoComplain,
}

/// How a binary file is written.
#[derive(Debug, Clone)]
pub enum WriteMethod {
    /// Map the file directly.
    WriteMmap,
    /// Write after building is done.
    WriteAfter,
}

/// Left rest options. Only used when the model includes rest costs.
#[derive(Debug, Clone)]
pub enum RestFunction {
    /// Maximum of any score to the left.
    RestMax,
    /// Use lower-order files.
    RestLower,
}

/// Mode of the n-gram filter.
#[derive(Debug)]
pub enum FilterMode {
    ModeCopy,
    ModeSingle,
    ModeMultiple,
    ModeUnion,
    ModeUnset,
}

/// What to do about a questionable input.
#[derive(Debug, Clone, Default)]
pub enum WarningAction {
    ThrowUp,
    Complain,
    #[default]
    Silent,
}

/// Input format of the filter.
#[derive(Debug)]
pub enum Format {
    FormatArpa,
    FormatCount,
}

/// How a model file is brought into memory.
#[derive(Debug)]
pub enum LoadMethod {
    Lazy,
    PopulateOrLazy,
    PopulateOrRead,
    Read,
    ParallelRead,
}

/// Format of filter input and output.
#[derive(Debug)]
pub enum FormatEnum {
    FormatArpa,
    FormatCount,
}

/// Kind of output hook of the estimation pipeline.
#[derive(Debug)]
pub enum HookType {
    /// Probability and backoff (or just q), processed by order in parallel.
    ProbParallelHook,
    /// Probability and backoff (or just q), processed in any order.
    ProbSequentialHook,
    /// Number of hook kinds.
    NumberOfHooks,
}

} // verus!
