//! Common types of the language model.
use vstd::prelude::*;
use std::cmp::Ordering;
use crate::hash::{murmur_hash_64a, spec_murmur_hash_64a};

verus! {

/// Index of a word in the vocabulary.
pub type WordIndex = u32;

/// Kind of language model data structure.
#[derive(Debug, Clone, Copy, PartialEq, Eq, Structural)]
pub enum ModelType {
    Probing,
    RestProbing,
    Trie,
    QuantTrie,
    ArrayTrie,
    QuantArrayTrie,
}

impl ModelType {
    pub const HASH_PROBING: ModelType = ModelType::Probing;
    pub const TRIE_SORTED: ModelType = ModelType::Trie;
    pub const QUANT_TRIE_SORTED: ModelType = ModelType::QuantTrie;
    pub const ARRAY_TRIE_SORTED: ModelType = ModelType::ArrayTrie;
    pub const QUANT_ARRAY_TRIE_SORTED: ModelType = ModelType::QuantArrayTrie;
    /// Offset of the quantized trie variants from the plain trie.
    pub const K_QUANT_ADD: u8 = 1;
    /// Offset of the array-compressed trie variants from the plain trie.
    pub const K_ARRAY_ADD: u8 = 2;
}

/// Policy when the unknown word is missing from a model.
#[derive(Debug, Clone, Copy, PartialEq, Eq)]
pub enum UnknownMissing {
    ThrowUp,
    ComplainEndlessly,
    Silent,
}

/// How much to complain about ARPA files.
#[derive(Debug, Clone, Copy, PartialEq, Eq)]
pub enum ARPAComplain {
    All,
    Expensive,
    /// No complaints.
    NoComplain,
}

/// How a binary file is written.
#[derive(Debug, Clone, Copy, PartialEq, Eq)]
pub enum WriteMethod {
    WriteMethod,
    WriteAfter,
}

/// How a model file is loaded.
#[derive(Debug, Clone, Copy, PartialEq, Eq)]
pub enum LoadMethod {
    ReadMethod,
    MMapMethod,
    LazyMethod,
    PopulateOrRead,
    PopulateOrLazy,
}

/// Policy for positive log probabilities in ARPA files.
#[derive(Debug, Clone, Copy, PartialEq, Eq)]
pub enum PositiveLogProbability {
    Throw,
    Complain,
    Silent,
}

/// Receives the vocabulary words as a model loads.
pub trait EnumerateVocab {
    fn add(&mut self, word_index: WordIndex, word: &str);
}

/// Left-context state used in chart-based decoding: trie pointers of the left-context words
/// and whether the context is saturated up to the model order.
#[derive(Debug, Clone, PartialEq, Eq)]
pub struct Left {
    pub pointers: [u64; 5],
    pub length: u8,
    /// True when the left context cannot extend further.
    pub full: bool,
}

/// Three-way comparison of `Left` states: by length, then by the last pointer, then by `full`.
pub open spec fn left_order(a: Left, b: Left) -> Ordering {
    if a.length < b.length {
        Ordering::Less
    } else if a.length > b.length {
        Ordering::Greater
    } else if a.length == 0 {
        Ordering::Equal
    } else if a.pointers[a.length - 1] < b.pointers[b.length - 1] {
        Ordering::Less
    } else if a.pointers[a.length - 1] > b.pointers[b.length - 1] {
        Ordering::Greater
    } else if a.full == b.full {
        Ordering::Equal
    } else if !a.full {
        Ordering::Less
    } else {
        Ordering::Greater
    }
}

impl Left {
    /// An empty left state.
    pub fn new() -> (r: Self)
        ensures
            r.length == 0,
            !r.full,
            forall|i: int| 0 <= i < 5 ==> r.pointers[i] == 0,
    {
        Left { pointers: [0; 5], length: 0, full: false }
    }

    /// Zeros the pointer slots beyond `length`, keeping the others.
    pub fn zero_remaining(&mut self)
        requires
            old(self).length <= 5,
        ensures
            final(self).length == old(self).length,
            final(self).full == old(self).full,
            forall|i: int| 0 <= i < old(self).length ==> final(self).pointers[i] == old(self).pointers[i],
            forall|i: int| old(self).length <= i < 5 ==> final(self).pointers[i] == 0,
    {
        let mut i: usize = self.length as usize;
        while i < 5
            invariant
                old(self).length <= i <= 5,
                self.length == old(self).length,
                self.full == old(self).full,
                forall|k: int| 0 <= k < old(self).length ==> self.pointers[k] == old(self).pointers[k],
                forall|k: int| old(self).length <= k < i ==> self.pointers[k] == 0,
            decreases 5 - i,
        {
            self.pointers[i] = 0;
            i = i + 1;
        }
    }

    /// The pointer of the last left-context word.
    fn last_pointer(&self) -> (r: u64)
        requires
            0 < self.length <= 5,
        ensures
            r == self.pointers[self.length - 1],
    {
        self.pointers[(self.length - 1) as usize]
    }

    /// Three-way comparison: by length, then by the last pointer, then by `full`.
    pub fn compare(&self, other: &Self) -> (r: Ordering)
        requires
            self.length <= 5,
            other.length <= 5,
        ensures
            r == left_order(*self, *other),
    {
        if self.length < other.length {
            Ordering::Less
        } else if self.length > other.length {
            Ordering::Greater
        } else if self.length == 0 {
            Ordering::Equal
        } else {
            let a = self.last_pointer();
            let b = other.last_pointer();
            if a < b {
                Ordering::Less
            } else if a > b {
                Ordering::Greater
            } else if self.full == other.full {
                Ordering::Equal
            } else if !self.full {
                Ordering::Less
            } else {
                Ordering::Greater
            }
        }
    }

    /// Hash of the state: MurmurHash64A of `[length, full]` seeded with the last pointer
    /// (0 when empty).
    pub fn hash_value(&self) -> (h: u64)
        requires
            self.length <= 5,
        ensures
            h == spec_murmur_hash_64a(
                seq![self.length, if self.full { 1u8 } else { 0u8 }],
                if self.length > 0 { self.pointers[self.length - 1] } else { 0 },
            ),
    {
        let seed = if self.length > 0 { self.last_pointer() } else { 0 };
        let full_byte: u8 = if self.full { 1 } else { 0 };
        let add = [self.length, full_byte];
        assert(add@ =~= seq![self.length, full_byte]);
        murmur_hash_64a(&add, seed)
    }
}

/// Swapping the states swaps `Less` and `Greater` in `compare`, and `Equal` stays `Equal`.
pub proof fn law_left_order_antisymmetric(a: Left, b: Left)
    requires
        a.length <= 5,
        b.length <= 5,
    ensures
        (left_order(a, b) == Ordering::Less) == (left_order(b, a) == Ordering::Greater),
        (left_order(a, b) == Ordering::Equal) == (left_order(b, a) == Ordering::Equal),
{
}

/// `compare` is transitive: states in increasing order compare `Less` end to end.
pub proof fn law_left_order_transitive(a: Left, b: Left, c: Left)
    requires
        a.length <= 5,
        b.length <= 5,
        c.length <= 5,
        left_order(a, b) == Ordering::Less,
        left_order(b, c) == Ordering::Less,
    ensures
        left_order(a, c) == Ordering::Less,
{
}

/// `compare` says `Equal` exactly when the length, the last pointer (if any) and `full` agree.
pub proof fn law_left_order_equal(a: Left, b: Left)
    requires
        a.length <= 5,
        b.length <= 5,
    ensures
        (left_order(a, b) == Ordering::Equal) == (a.length == b.length && (a.length > 0 ==> (
        a.pointers[a.length - 1] == b.pointers[b.length - 1] && a.full == b.full))),
{
}

impl Default for Left {
    fn default() -> (r: Self)
        ensures
            r.length == 0,
            !r.full,
            forall|i: int| 0 <= i < 5 ==> r.pointers[i] == 0,
    {
        Self::new()
    }
}


/// The context that a model keeps between words: the most recent words first, the bit
/// patterns of their backoffs, and how many of them matter (at most five, one less than the
/// highest order).
#[derive(Debug, Clone, Copy, PartialEq)]
pub struct State {
    pub words: [WordIndex; 5],
    pub backoff: [u32; 5],
    pub length: u8,
}

impl State {
    /// A state with no context, all words 0 and all backoffs +0.0.
    pub fn new() -> (r: Self)
        ensures
            r.length == 0,
            forall|i: int| 0 <= i < 5 ==> r.words[i] == 0 && r.backoff[i] == 0,
    {
        State { words: [0; 5], backoff: [0; 5], length: 0 }
    }

    /// The length of the context.
    pub fn len(&self) -> (r: u8)
        ensures
            r == self.length,
    {
        self.length
    }

    /// Zeros the words and backoffs beyond `length`, keeping the others.
    pub fn zero_remaining(&mut self)
        requires
            old(self).length <= 5,
        ensures
            final(self).length == old(self).length,
            forall|i: int| 0 <= i < old(self).length ==> final(self).words[i] == old(self).words[i]
                && final(self).backoff[i] == old(self).backoff[i],
            forall|i: int| old(self).length <= i < 5 ==> final(self).words[i] == 0 && final(self).backoff[i] == 0,
    {
        let mut i: usize = self.length as usize;
        while i < 5
            invariant
                old(self).length <= i <= 5,
                self.length == old(self).length,
                forall|k: int| 0 <= k < old(self).length ==> self.words[k] == old(self).words[k]
                    && self.backoff[k] == old(self).backoff[k],
                forall|k: int| old(self).length <= k < i ==> self.words[k] == 0 && self.backoff[k] == 0,
            decreases 5 - i,
        {
            self.words[i] = 0;
            self.backoff[i] = 0;
            i = i + 1;
        }
    }
}

impl Default for State {
    fn default() -> (r: Self)
        ensures
            r.length == 0,
            forall|i: int| 0 <= i < 5 ==> r.words[i] == 0 && r.backoff[i] == 0,
    {
        State::new()
    }
}

/// What scoring a word gives: the bits of its log probability, the length of the n-gram
/// that matched, whether words further left cannot change the score, the key to extend
/// left from, and the bits of the rest cost.
#[derive(Debug, Clone, Copy, PartialEq, Eq, Structural)]
pub struct FullScoreReturn {
    pub prob: u32,
    pub ngram_length: u8,
    pub independent_left: bool,
    pub extend_left: u64,
    pub rest: u32,
}

impl FullScoreReturn {
    /// All fields zero.
    pub fn new() -> (r: Self)
        ensures
            r == (FullScoreReturn { prob: 0, ngram_length: 0, independent_left: false, extend_left: 0, rest: 0 }),
    {
        FullScoreReturn { prob: 0, ngram_length: 0, independent_left: false, extend_left: 0, rest: 0 }
    }
}

impl Default for FullScoreReturn {
    fn default() -> (r: Self)
        ensures
            r == (FullScoreReturn { prob: 0, ngram_length: 0, independent_left: false, extend_left: 0, rest: 0 }),
    {
        FullScoreReturn::new()
    }
}
} // verus!
