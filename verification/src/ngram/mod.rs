//! N-gram model storage formats and the pieces the models are assembled from.
pub mod binary_format;
pub mod query;

use vstd::prelude::*;
use crate::trie::NodeRange;
use crate::types::{ModelType, WordIndex};
use crate::utils::pieces::string::{piece_chars, StringPiece};
use crate::vocabulary::{is_unk_hash, word_hash, ProbingVocabulary, SortedVocabulary, Vocabulary};
use vstd::utf8::encode_utf8_decode_utf8;

verus! {

/// A node of a model's search structure: the range of entries below it.
type Node = NodeRange;

/// How a model's file is brought into memory.
#[derive(Debug, Clone, Copy)]
pub struct LoadMethod;

/// The probing hash table model.
#[derive(Debug, Default)]
pub struct ProbingModel;

/// The probing hash table model with rest costs.
#[derive(Debug, Default)]
pub struct RestProbingModel;

/// The trie model.
#[derive(Debug, Default)]
pub struct TrieModel;

/// The trie model with array-compressed pointers.
#[derive(Debug, Default)]
pub struct ArrayTrieModel;

/// The trie model with quantized weights.
#[derive(Debug, Default)]
pub struct QuantTrieModel;

/// The trie model with quantized weights and array-compressed pointers.
#[derive(Debug, Default)]
pub struct QuantArrayTrieModel;

/// Values that carry rest costs besides backoffs.
#[derive(Debug)]
pub struct RestValue;

/// Values that carry probabilities and backoffs only.
#[derive(Debug)]
pub struct BackoffValue;

/// A kind of value stored with each n-gram.
pub trait Value: Sized {
    fn new() -> Self;
}

impl Value for RestValue {
    fn new() -> Self {
        RestValue
    }
}

impl Value for BackoffValue {
    fn new() -> Self {
        BackoffValue
    }
}

/// A vocabulary as the models use it: built empty and asked for word indices.
pub trait VocabularyT: Sized {
    /// What looking up word `w` in `self` answers (`r`) and leaves behind (`after`).
    spec fn looks_up(&self, w: Seq<char>, r: WordIndex, after: Self) -> bool;

    fn new() -> Self;

    /// Index of the word held in `inp_str` (empty when it holds none).
    fn index(&mut self, inp_str: &StringPiece) -> (r: WordIndex)
        ensures
            old(self).looks_up(piece_chars(inp_str.bytes()), r, *final(self)),
    ;
}

impl VocabularyT for SortedVocabulary {
    /// As `Vocabulary::index`: 0 for the unknown-word markers (and their sighting is
    /// recorded), `i + 1` for the word with hash `hashes[i]`, else `not_found`.
    open spec fn looks_up(&self, w: Seq<char>, r: WordIndex, after: Self) -> bool {
        &&& self.wf() ==> after.wf()
        &&& after.words() == self.words()
        &&& after.hashes() == self.hashes()
        &&& after.base().spec_saw_unk() == (self.base().spec_saw_unk() || is_unk_hash(word_hash(w)))
        &&& is_unk_hash(word_hash(w)) ==> r == 0
        &&& self.wf() && !is_unk_hash(word_hash(w)) && !self.hashes().contains(word_hash(w)) ==> r
            == self.base().spec_not_found()
        &&& self.wf() && !is_unk_hash(word_hash(w)) && self.hashes().contains(word_hash(w)) ==> 1 <= r
            <= self.hashes().len() && self.hashes()[r - 1] == word_hash(w)
    }

    fn new() -> (r: Self)
        ensures
            r.wf(),
            r.words().len() == 0,
    {
        SortedVocabulary::new()
    }

    /// Same as `Vocabulary::index` on the piece's text.
    fn index(&mut self, inp_str: &StringPiece) -> (r: WordIndex)
    {
        let text = inp_str.as_str();
        proof {
            encode_utf8_decode_utf8(text@);
        }
        Vocabulary::index(self, text)
    }
}

impl VocabularyT for ProbingVocabulary {
    /// As `Vocabulary::index`: the position of the word, else `not_found`; nothing changes.
    open spec fn looks_up(&self, w: Seq<char>, r: WordIndex, after: Self) -> bool {
        &&& after == *self
        &&& self.wf() && self.words().contains(w) ==> r < self.words().len() && self.words()[r as int] == w
        &&& self.wf() && !self.words().contains(w) ==> r == self.base().spec_not_found()
    }

    fn new() -> (r: Self)
        ensures
            r.wf(),
            r.words().len() == 0,
    {
        ProbingVocabulary::new()
    }

    /// Same as `Vocabulary::index` on the piece's text.
    fn index(&mut self, inp_str: &StringPiece) -> (r: WordIndex)
    {
        let text = inp_str.as_str();
        proof {
            encode_utf8_decode_utf8(text@);
        }
        Vocabulary::index(self, text)
    }
}

/// Whether a file holds a model in binary form. No binary format is recognized: the answer
/// is always no.
#[allow(non_snake_case)]
pub fn RecognizeBinary(_file: &str, _recognized: &ModelType) -> (r: bool)
    ensures
        !r,
{
    false
}

/// Builds the node for the words `[begin, end)` without looking them up one by one. No
/// search structure supports this here: the answer is always no.
#[allow(non_snake_case)]
pub fn FastMakeNode(_begin: WordIndex, _end: WordIndex, _node: &Node) -> (r: bool)
    ensures
        !r,
{
    false
}

} // verus!
