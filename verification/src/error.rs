//! Errors of the library.
use vstd::prelude::*;

verus! {

/// What went wrong while loading or building a model.
#[derive(Debug, Clone, PartialEq, Eq)]
pub enum LMError {
    ConfigError(String),
    LoadError(String),
    FormatError(String),
    VocabError(String),
    SpecialWordMissingError(String),
    ParseError(String),
    /// A read ran past the end of the data.
    EndOfFile,
    UnsupportedModelType,
    VersionMismatch { expected: u32, actual: u32 },
    InvalidArpa(String),
}

} // verus!
