//! Initial probabilities: the special words and the stream plumbing around them.
use vstd::prelude::*;
use crate::types::WordIndex;
use crate::vocabulary::Vocabulary;

verus! {

/// Index of the unknown word.
pub const K_UNK: usize = 0;

/// The indices of the special words of a vocabulary.
#[derive(Debug, Clone)]
pub struct SpecialVocab {
    bos: WordIndex,
    eos: WordIndex,
    unk: WordIndex,
}

impl SpecialVocab {
    pub closed spec fn spec_bos(&self) -> WordIndex {
        self.bos
    }

    pub closed spec fn spec_eos(&self) -> WordIndex {
        self.eos
    }

    pub closed spec fn spec_unk(&self) -> WordIndex {
        self.unk
    }

    /// The special words of `vocab`: its sentence markers and its index for unknown words.
    pub fn new<V: Vocabulary>(vocab: &V) -> (r: Self)
        ensures
            r.spec_bos() == vocab.bos_index(),
            r.spec_eos() == vocab.eos_index(),
            r.spec_unk() == vocab.not_found_index(),
    {
        SpecialVocab { bos: vocab.begin_sentence(), eos: vocab.end_sentence(), unk: vocab.not_found() }
    }

    /// The given indices.
    pub fn from_indices(bos: WordIndex, eos: WordIndex, unk: WordIndex) -> (r: Self)
        ensures
            r.spec_bos() == bos,
            r.spec_eos() == eos,
            r.spec_unk() == unk,
    {
        SpecialVocab { bos, eos, unk }
    }

    pub fn bos(&self) -> (r: WordIndex)
        ensures
            r == self.spec_bos(),
    {
        self.bos
    }

    pub fn eos(&self) -> (r: WordIndex)
        ensures
            r == self.spec_eos(),
    {
        self.eos
    }

    #[allow(non_snake_case)]
    pub fn UNK(&self) -> (r: WordIndex)
        ensures
            r == self.spec_unk(),
    {
        self.unk
    }

    #[allow(non_snake_case)]
    pub fn EOS(&self) -> (r: WordIndex)
        ensures
            r == self.spec_eos(),
    {
        self.eos
    }

    /// Whether `word` is one of the special words.
    pub fn is_special(&self, word: WordIndex) -> (r: bool)
        ensures
            r == (word == self.spec_bos() || word == self.spec_eos() || word == self.spec_unk()),
    {
        word == self.bos || word == self.eos || word == self.unk
    }
}

/// The chains of the probability stage.
pub struct Chains {}

/// A stage's place in a chain.
#[derive(Clone, Debug)]
pub struct ChainPosition {}

impl ChainPosition {
    pub fn new() -> (r: Self) {
        ChainPosition {}
    }
}

/// Walks the blocks of a chain.
#[derive(Debug)]
pub struct Link {}

impl Link {
    pub fn new(_position: &ChainPosition) -> (r: Self) {
        Link {}
    }
}

/// Walks the records of a chain.
#[derive(Debug)]
pub struct Stream {}

impl Stream {
    pub fn new(_position: &ChainPosition) -> (r: Self) {
        Stream {}
    }
}

} // verus!
