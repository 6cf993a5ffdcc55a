//! Search structures of the models: value kinds, trie pointers, the word-hash mix and the
//! hashed search of probing models, whose weights are kept as the bit patterns of the
//! IEEE 754 singles that were read.
use vstd::prelude::*;
use std::marker::PhantomData;
use std::collections::HashMap;
use crate::model::{
    has_extension, is_independent_left, magnitude, mark_extends_left, mark_independent, scoring_prob,
    set_extension, sign_bit, with_sign,
};
use crate::types::WordIndex;

verus! {

/// A kind of value stored with each n-gram, with the model type of its probing model and
/// whether it carries rest costs apart from probabilities.
pub trait Value {
    fn k_probing_model_type() -> u8;

    fn k_different_rest() -> bool;
}

/// Probabilities and backoffs only.
#[derive(Debug, Clone, Copy)]
pub struct BackoffValue;

impl BackoffValue {
    pub const K_PROBING_MODEL_TYPE: u8 = 0;
    pub const K_DIFFERENT_REST: bool = false;
}

impl Value for BackoffValue {
    fn k_probing_model_type() -> (r: u8)
        ensures
            r == BackoffValue::K_PROBING_MODEL_TYPE,
    {
        BackoffValue::K_PROBING_MODEL_TYPE
    }

    fn k_different_rest() -> (r: bool)
        ensures
            r == BackoffValue::K_DIFFERENT_REST,
    {
        BackoffValue::K_DIFFERENT_REST
    }
}

/// Probabilities, backoffs and rest costs.
#[derive(Debug, Clone, Copy)]
pub struct RestValue;

impl RestValue {
    pub const K_PROBING_MODEL_TYPE: u8 = 1;
    pub const K_DIFFERENT_REST: bool = true;
}

impl Value for RestValue {
    fn k_probing_model_type() -> (r: u8)
        ensures
            r == RestValue::K_PROBING_MODEL_TYPE,
    {
        RestValue::K_PROBING_MODEL_TYPE
    }

    fn k_different_rest() -> (r: bool)
        ensures
            r == RestValue::K_DIFFERENT_REST,
    {
        RestValue::K_DIFFERENT_REST
    }
}

/// A node of the trie search.
#[derive(Debug)]
pub struct TrieNode;

impl Default for TrieNode {
    fn default() -> (r: Self) {
        TrieNode
    }
}

/// Where a unigram of the trie lives.
#[derive(Debug)]
pub struct TrieUnigramPointer<Q>(pub PhantomData<Q>);

/// Where a middle n-gram of the trie lives.
#[derive(Debug)]
pub struct TrieMiddlePointer<Q>(pub PhantomData<Q>);

/// Where a longest n-gram of the trie lives.
#[derive(Debug)]
pub struct TrieLongestPointer<Q>(pub PhantomData<Q>);

/// The first multiplier of the word-hash mix.
pub const K_HASH_MUL_CURRENT: u64 = 8978948897894561157;

/// The second multiplier of the word-hash mix.
pub const K_HASH_MUL_NEXT: u64 = 17894857484156487943;

/// The hash of a context extended by one word: `current * K1 XOR (next + 1) * K2`, both
/// products wrapping at 64 bits.
pub open spec fn spec_combine_word_hash(current: u64, next: WordIndex) -> u64 {
    ((current * K_HASH_MUL_CURRENT) % 0x1_0000_0000_0000_0000) as u64 ^ (((1 + next) * K_HASH_MUL_NEXT)
        % 0x1_0000_0000_0000_0000) as u64
}

/// Mixes the next word into the hash of a context.
pub fn combine_word_hash(current: u64, next: WordIndex) -> (r: u64)
    ensures
        r == spec_combine_word_hash(current, next),
{
    let n: u64 = 1 + next as u64;
    current.wrapping_mul(K_HASH_MUL_CURRENT) ^ n.wrapping_mul(K_HASH_MUL_NEXT)
}

/// The hash key of a word sequence: the first word, with each later word mixed in by
/// `combine_word_hash`; 0 for no words.
pub open spec fn spec_hash_key(ids: Seq<WordIndex>) -> u64
    decreases ids.len(),
{
    if ids.len() == 0 {
        0
    } else if ids.len() == 1 {
        ids[0] as u64
    } else {
        spec_combine_word_hash(spec_hash_key(ids.drop_last()), ids.last())
    }
}

/// The hash key of the n-gram `vocab_ids`, as the hashed tables store it.
pub fn compute_hash_key(vocab_ids: &[WordIndex]) -> (r: u64)
    ensures
        r == spec_hash_key(vocab_ids@),
{
    if vocab_ids.len() == 0 {
        return 0;
    }
    let mut key = vocab_ids[0] as u64;
    let mut i: usize = 1;
    assert(vocab_ids@.take(1).drop_last() =~= Seq::<WordIndex>::empty());
    while i < vocab_ids.len()
        invariant
            1 <= i <= vocab_ids@.len(),
            key == spec_hash_key(vocab_ids@.take(i as int)),
        decreases vocab_ids@.len() - i,
    {
        assert(vocab_ids@.take(i + 1).drop_last() =~= vocab_ids@.take(i as int));
        key = combine_word_hash(key, vocab_ids[i]);
        i = i + 1;
    }
    assert(vocab_ids@.take(vocab_ids@.len() as int) =~= vocab_ids@);
    key
}

/// The keys of the prefixes of an n-gram of at least two words: `keys[k]` is the hash key
/// of its first `k + 2` words.
pub fn build_ngram_keys(vocab_ids: &[WordIndex]) -> (r: Vec<u64>)
    requires
        vocab_ids@.len() >= 2,
    ensures
        r@.len() == vocab_ids@.len() - 1,
        forall|k: int| 0 <= k < r@.len() ==> #[trigger] r@[k] == spec_hash_key(vocab_ids@.take(k + 2)),
{
    let mut keys: Vec<u64> = Vec::new();
    let mut acc = vocab_ids[0] as u64;
    let mut i: usize = 1;
    assert(vocab_ids@.take(1).drop_last() =~= Seq::<WordIndex>::empty());
    while i < vocab_ids.len()
        invariant
            1 <= i <= vocab_ids@.len(),
            keys@.len() == i - 1,
            acc == spec_hash_key(vocab_ids@.take(i as int)),
            forall|k: int| 0 <= k < keys@.len() ==> #[trigger] keys@[k] == spec_hash_key(vocab_ids@.take(k + 2)),
        decreases vocab_ids@.len() - i,
    {
        assert(vocab_ids@.take(i + 1).drop_last() =~= vocab_ids@.take(i as int));
        acc = combine_word_hash(acc, vocab_ids[i]);
        keys.push(acc);
        i = i + 1;
    }
    keys
}

} // verus!

verus! {

broadcast use vstd::std_specs::hash::group_hash_axioms;

/// The bit patterns of a stored log probability and log backoff.
#[derive(Debug, Clone, Copy, PartialEq, Eq, Structural)]
pub struct ProbBackoffBits {
    pub prob: u32,
    pub backoff: u32,
}

/// Weights of +0.0 and +0.0.
pub open spec fn zero_bits() -> ProbBackoffBits {
    ProbBackoffBits { prob: 0, backoff: 0 }
}

/// The entry put in for a missing shorter n-gram on the way to a longer one: probability
/// -0.0 marked independent, backoff -0.0 (nothing extends it yet).
pub open spec fn blank_bits() -> ProbBackoffBits {
    ProbBackoffBits { prob: sign_bit(), backoff: sign_bit() }
}

/// The entry with its probability marked as extended to the left.
pub open spec fn extends_marked(e: ProbBackoffBits) -> ProbBackoffBits {
    ProbBackoffBits { prob: magnitude(e.prob), backoff: e.backoff }
}

/// The entry with its backoff marked as extended.
pub open spec fn extension_set(e: ProbBackoffBits) -> ProbBackoffBits {
    ProbBackoffBits {
        prob: e.prob,
        backoff: if e.backoff == sign_bit() {
            0u32
        } else {
            e.backoff
        },
    }
}

/// The unigrams, indexed by word, and the weights of the unknown word.
#[derive(Debug)]
struct UnigramTable {
    data: Vec<ProbBackoffBits>,
    unknown: ProbBackoffBits,
}

/// The n-grams of one middle order, by hash key.
#[derive(Debug)]
struct MiddleTable {
    data: HashMap<u64, ProbBackoffBits>,
}

/// The n-grams of the highest order, by hash key: probabilities only.
#[derive(Debug)]
struct LongestTable {
    data: HashMap<u64, u32>,
}

/// The hashed search of a probing model: unigrams by word, and one table per higher order,
/// keyed by the hash of the n-gram with its newest word first.
#[derive(Debug)]
pub struct HashedSearch<V> {
    unigram: UnigramTable,
    middle: Vec<MiddleTable>,
    longest: LongestTable,
    _phantom: PhantomData<V>,
}

/// What a unigram lookup found: its weights, and whether the word is in the table.
#[derive(Debug)]
pub struct HashedUnigramPointer<V> {
    pub prob: u32,
    pub backoff: u32,
    pub rest: u32,
    pub found: bool,
    pub _phantom: PhantomData<V>,
}

/// What a middle lookup found.
#[derive(Debug)]
pub struct HashedMiddlePointer<V> {
    pub prob: u32,
    pub backoff: u32,
    pub rest: u32,
    pub found: bool,
    pub _phantom: PhantomData<V>,
}

/// What a lookup of the highest order found: a probability only.
#[derive(Debug, Clone, Copy)]
pub struct HashedLongestPointer {
    pub prob: u32,
    pub found: bool,
}

impl<V> HashedUnigramPointer<V> {
    /// A pointer to stored weights; the rest cost is the probability.
    pub fn new(prob: u32, backoff: u32, found: bool) -> (r: Self)
        ensures
            r.prob == prob,
            r.backoff == backoff,
            r.rest == prob,
            r.found == found,
    {
        HashedUnigramPointer { prob, backoff, rest: prob, found, _phantom: PhantomData }
    }

    /// Whether the word was in the table.
    pub fn found(&self) -> (r: bool)
        ensures
            r == self.found,
    {
        self.found
    }

    /// The probability to score with: the stored one with its sign bit set.
    pub fn prob(&self) -> (r: u32)
        ensures
            r == with_sign(self.prob),
    {
        scoring_prob(self.prob)
    }

    /// The stored backoff.
    pub fn backoff(&self) -> (r: u32)
        ensures
            r == self.backoff,
    {
        self.backoff
    }

    /// The rest cost.
    pub fn rest(&self) -> (r: u32)
        ensures
            r == self.rest,
    {
        self.rest
    }

    /// Whether no longer n-gram extends this one to the left.
    pub fn independent_left(&self) -> (r: bool)
        ensures
            r == crate::model::sign_set(self.prob),
    {
        is_independent_left(self.prob)
    }
}

impl<V> HashedMiddlePointer<V> {
    /// A pointer to stored weights; the rest cost is the probability.
    pub fn new(prob: u32, backoff: u32, found: bool) -> (r: Self)
        ensures
            r.prob == prob,
            r.backoff == backoff,
            r.rest == prob,
            r.found == found,
    {
        HashedMiddlePointer { prob, backoff, rest: prob, found, _phantom: PhantomData }
    }

    /// The same weights, as a middle pointer.
    pub fn from_unigram(unigram: HashedUnigramPointer<V>) -> (r: Self)
        ensures
            r.prob == unigram.prob,
            r.backoff == unigram.backoff,
            r.rest == unigram.rest,
            r.found == unigram.found,
    {
        HashedMiddlePointer {
            prob: unigram.prob,
            backoff: unigram.backoff,
            rest: unigram.rest,
            found: unigram.found,
            _phantom: PhantomData,
        }
    }

    /// Whether the n-gram was in the table.
    pub fn found(&self) -> (r: bool)
        ensures
            r == self.found,
    {
        self.found
    }

    /// The probability to score with: the stored one with its sign bit set.
    pub fn prob(&self) -> (r: u32)
        ensures
            r == with_sign(self.prob),
    {
        scoring_prob(self.prob)
    }

    /// The stored backoff.
    pub fn backoff(&self) -> (r: u32)
        ensures
            r == self.backoff,
    {
        self.backoff
    }

    /// The rest cost.
    pub fn rest(&self) -> (r: u32)
        ensures
            r == self.rest,
    {
        self.rest
    }

    /// Whether no longer n-gram extends this one to the left.
    pub fn independent_left(&self) -> (r: bool)
        ensures
            r == crate::model::sign_set(self.prob),
    {
        is_independent_left(self.prob)
    }
}

impl HashedLongestPointer {
    /// A pointer that found nothing.
    pub fn new(prob: u32) -> (r: Self)
        ensures
            r.prob == prob,
            !r.found,
    {
        HashedLongestPointer { prob, found: false }
    }

    /// A pointer to a stored probability.
    pub fn new_found(prob: u32) -> (r: Self)
        ensures
            r.prob == prob,
            r.found,
    {
        HashedLongestPointer { prob, found: true }
    }

    /// Whether the n-gram was in the table.
    pub fn found(&self) -> (r: bool)
        ensures
            r == self.found,
    {
        self.found
    }

    /// The stored probability.
    pub fn prob(&self) -> (r: u32)
        ensures
            r == self.prob,
    {
        self.prob
    }
}

impl<V> HashedSearch<V> {
    /// The unigram weights, by word.
    pub closed spec fn unigrams(&self) -> Seq<ProbBackoffBits> {
        self.unigram.data@
    }

    /// The weights of the unknown word.
    pub closed spec fn unknown(&self) -> ProbBackoffBits {
        self.unigram.unknown
    }

    /// The middle tables, lowest order first: `middles()[k]` holds the n-grams of order
    /// `k + 2`.
    pub closed spec fn middles(&self) -> Seq<Map<u64, ProbBackoffBits>> {
        self.middle@.map_values(|t: MiddleTable| t.data@)
    }

    /// The table of the highest order.
    pub closed spec fn longest(&self) -> Map<u64, u32> {
        self.longest.data@
    }

    /// A search with no n-grams and no middle order.
    pub fn new() -> (r: Self)
        ensures
            r.unigrams().len() == 0,
            r.unknown() == zero_bits(),
            r.middles().len() == 0,
            r.longest() == Map::<u64, u32>::empty(),
    {
        let r = HashedSearch {
            unigram: UnigramTable { data: Vec::new(), unknown: ProbBackoffBits { prob: 0, backoff: 0 } },
            middle: Vec::new(),
            longest: LongestTable { data: HashMap::new() },
            _phantom: PhantomData,
        };
        assert(r.middles() =~= Seq::<Map<u64, ProbBackoffBits>>::empty());
        r
    }

    /// The order of the model: two more than the number of middle tables, as a byte.
    pub fn order(&self) -> (r: u8)
        ensures
            r as int == (self.middles().len() + 2) % 256,
    {
        let m: u8 = (self.middle.len() % 256) as u8;
        m.wrapping_add(2)
    }

    /// The weights of the unknown word, to be set by whoever loads the model.
    pub fn unknown_unigram(&mut self) -> (r: &mut ProbBackoffBits)
        ensures
            *r == old(self).unknown(),
            final(self).unknown() == *final(r),
            final(self).unigrams() == old(self).unigrams(),
            final(self).middles() == old(self).middles(),
            final(self).longest() == old(self).longest(),
    {
        &mut self.unigram.unknown
    }

    /// Looks `word` up among the unigrams: its weights if the table has it, else those of
    /// the unknown word, marked not found. `node` and `extend_left` become the word itself,
    /// and `independent_left` tells whether no longer n-gram extends it.
    pub fn lookup_unigram(
        &self,
        word: WordIndex,
        node: &mut u64,
        independent_left: &mut bool,
        extend_left: &mut u64,
    ) -> (r: HashedUnigramPointer<V>)
        ensures
            *final(extend_left) == word as u64,
            *final(node) == word as u64,
            r.found == (word < self.unigrams().len()),
            r.found ==> r.prob == self.unigrams()[word as int].prob && r.backoff
                == self.unigrams()[word as int].backoff,
            !r.found ==> r.prob == self.unknown().prob && r.backoff == self.unknown().backoff,
            r.rest == r.prob,
            *final(independent_left) == crate::model::sign_set(r.prob),
    {
        *extend_left = word as u64;
        *node = *extend_left;
        let pointer = self.unigram_lookup(word);
        *independent_left = pointer.independent_left();
        pointer
    }

    fn unigram_lookup(&self, word: WordIndex) -> (r: HashedUnigramPointer<V>)
        ensures
            r.found == (word < self.unigrams().len()),
            r.found ==> r.prob == self.unigrams()[word as int].prob && r.backoff
                == self.unigrams()[word as int].backoff,
            !r.found ==> r.prob == self.unknown().prob && r.backoff == self.unknown().backoff,
            r.rest == r.prob,
    {
        if (word as usize) < self.unigram.data.len() {
            let weights = self.unigram.data[word as usize];
            HashedUnigramPointer::new(weights.prob, weights.backoff, true)
        } else {
            HashedUnigramPointer::new(self.unigram.unknown.prob, self.unigram.unknown.backoff, false)
        }
    }

    fn middle_lookup(&self, level: usize, key: u64) -> (r: HashedMiddlePointer<V>)
        requires
            level < self.middles().len(),
        ensures
            r.found == self.middles()[level as int].contains_key(key),
            r.found ==> r.prob == self.middles()[level as int][key].prob && r.backoff
                == self.middles()[level as int][key].backoff,
            !r.found ==> r.prob == 0 && r.backoff == 0,
            r.rest == r.prob,
    {
        match self.middle[level].data.get(&key) {
            Some(weights) => HashedMiddlePointer::new(weights.prob, weights.backoff, true),
            None => HashedMiddlePointer::new(0, 0, false),
        }
    }

    /// Looks up the n-gram one word longer than `node` at middle table `order_minus_2`:
    /// `node` and `extend_left` become its key.
    pub fn lookup_middle(
        &self,
        order_minus_2: u8,
        word: WordIndex,
        node: &mut u64,
        independent_left: &mut bool,
        extend_left: &mut u64,
    ) -> (r: HashedMiddlePointer<V>)
        requires
            order_minus_2 < self.middles().len(),
        ensures
            *final(node) == spec_combine_word_hash(*old(node), word),
            *final(extend_left) == *final(node),
            r.found == self.middles()[order_minus_2 as int].contains_key(*final(node)),
            r.found ==> r.prob == self.middles()[order_minus_2 as int][*final(node)].prob
                && r.backoff == self.middles()[order_minus_2 as int][*final(node)].backoff,
            !r.found ==> r.prob == 0 && r.backoff == 0,
            r.rest == r.prob,
            *final(independent_left) == crate::model::sign_set(r.prob),
    {
        let key = combine_word_hash(*node, word);
        *extend_left = key;
        *node = key;
        let pointer = self.middle_lookup(order_minus_2 as usize, key);
        *independent_left = pointer.independent_left();
        pointer
    }

    /// Looks up the n-gram of the highest order one word longer than `node`.
    pub fn lookup_longest(&self, word: WordIndex, node: &u64) -> (r: HashedLongestPointer)
        ensures
            r.found == self.longest().contains_key(spec_combine_word_hash(*node, word)),
            r.found ==> r.prob == self.longest()[spec_combine_word_hash(*node, word)],
            !r.found ==> r.prob == 0,
    {
        let key = combine_word_hash(*node, word);
        match self.longest.data.get(&key) {
            Some(prob) => HashedLongestPointer::new_found(*prob),
            None => HashedLongestPointer::new(0),
        }
    }

    /// Makes the node of the context `begin`: its hash key. Fails on no words.
    pub fn fast_make_node(&self, begin: &[WordIndex], node: &mut u64) -> (r: bool)
        ensures
            r == (begin@.len() > 0),
            r ==> *final(node) == spec_hash_key(begin@),
            !r ==> *final(node) == *old(node),
    {
        if begin.len() == 0 {
            return false;
        }
        *node = compute_hash_key(begin);
        true
    }

    /// Goes back to the entry that a state recorded: `extend_pointer` is its key, or its
    /// word when `extend_length` is 1.
    pub fn unpack(&self, extend_pointer: u64, extend_length: u8, node: &mut u64) -> (r: HashedMiddlePointer<V>)
        requires
            extend_length >= 1,
            extend_length >= 2 ==> extend_length - 2 < self.middles().len(),
        ensures
            *final(node) == extend_pointer,
            extend_length == 1 ==> {
                let w = extend_pointer as WordIndex;
                &&& r.found == (w < self.unigrams().len())
                &&& r.found ==> r.prob == self.unigrams()[w as int].prob && r.backoff
                    == self.unigrams()[w as int].backoff
                &&& !r.found ==> r.prob == self.unknown().prob && r.backoff == self.unknown().backoff
            },
            extend_length >= 2 ==> {
                let t = self.middles()[extend_length - 2];
                &&& r.found == t.contains_key(extend_pointer)
                &&& r.found ==> r.prob == t[extend_pointer].prob && r.backoff
                    == t[extend_pointer].backoff
                &&& !r.found ==> r.prob == 0 && r.backoff == 0
            },
            r.rest == r.prob,
    {
        *node = extend_pointer;
        if extend_length == 1 {
            let unigram_ptr = self.unigram_lookup(extend_pointer as WordIndex);
            HashedMiddlePointer::from_unigram(unigram_ptr)
        } else {
            self.middle_lookup((extend_length - 2) as usize, extend_pointer)
        }
    }
}


impl<V> HashedSearch<V> {
    /// Puts `v` under `key` in middle table `level`.
    fn table_insert(&mut self, level: usize, key: u64, v: ProbBackoffBits)
        requires
            level < old(self).middles().len(),
        ensures
            final(self).middles() == old(self).middles().update(
                level as int,
                old(self).middles()[level as int].insert(key, v),
            ),
            final(self).unigrams() == old(self).unigrams(),
            final(self).unknown() == old(self).unknown(),
            final(self).longest() == old(self).longest(),
    {
        self.middle[level].data.insert(key, v);
        assert(self.middles() =~= old(self).middles().update(
            level as int,
            old(self).middles()[level as int].insert(key, v),
        ));
    }

    /// The entry under `key` in middle table `level`, if any.
    fn table_get(&self, level: usize, key: u64) -> (r: Option<ProbBackoffBits>)
        requires
            level < self.middles().len(),
        ensures
            r == if self.middles()[level as int].contains_key(key) {
                Some(self.middles()[level as int][key])
            } else {
                None::<ProbBackoffBits>
            },
    {
        match self.middle[level].data.get(&key) {
            Some(v) => Some(*v),
            None => None,
        }
    }
}

/// The highest level at or below `top` whose table holds that level's key; -1 when none
/// does.
pub open spec fn found_level(middles: Seq<Map<u64, ProbBackoffBits>>, keys: Seq<u64>, top: int) -> int
    decreases top + 1,
{
    if top < 0 {
        -1
    } else if middles[top].contains_key(keys[top]) {
        top
    } else {
        found_level(middles, keys, top - 1)
    }
}

/// Middle table `level` once the shorter n-grams of a new n-gram were found or put in,
/// with `found` the level found below `top`: each level above it up to `top` has a blank
/// entry, the level found has its entry, and both are marked as extended to the left; the
/// other levels stay.
pub open spec fn lowered_table(
    m: Map<u64, ProbBackoffBits>,
    key: u64,
    level: int,
    found: int,
    top: int,
) -> Map<u64, ProbBackoffBits> {
    if level > top || level < found {
        m
    } else if level == found {
        m.insert(key, extends_marked(m[key]))
    } else {
        m.insert(key, extends_marked(blank_bits()))
    }
}

/// All middle tables once the shorter n-grams below level `top` were found or put in.
pub open spec fn lowered_middles(
    middles: Seq<Map<u64, ProbBackoffBits>>,
    keys: Seq<u64>,
    top: int,
) -> Seq<Map<u64, ProbBackoffBits>> {
    Seq::new(
        middles.len(),
        |l: int| lowered_table(middles[l], keys[l], l, found_level(middles, keys, top), top),
    )
}

/// The unigrams once a new n-gram with newest word `w` was placed: when no shorter n-gram
/// was found among the middle tables, the unigram of `w` is marked as extended.
pub open spec fn lowered_unigrams(u: Seq<ProbBackoffBits>, w: int, found: int) -> Seq<ProbBackoffBits> {
    if found < 0 && 0 <= w < u.len() {
        u.update(w, extends_marked(u[w]))
    } else {
        u
    }
}

proof fn lemma_found_level_below(middles: Seq<Map<u64, ProbBackoffBits>>, keys: Seq<u64>, top: int, l: int)
    requires
        -1 <= l <= top,
        forall|k: int| l < k <= top ==> !(#[trigger] middles[k]).contains_key(keys[k]),
    ensures
        found_level(middles, keys, top) == found_level(middles, keys, l),
    decreases top - l,
{
    if top > l {
        lemma_found_level_below(middles, keys, top - 1, l);
    }
}

proof fn lemma_found_level_range(middles: Seq<Map<u64, ProbBackoffBits>>, keys: Seq<u64>, top: int)
    ensures
        -1 <= found_level(middles, keys, top) <= (if top < -1 {
            -1
        } else {
            top
        }),
        found_level(middles, keys, top) >= 0 ==> middles[found_level(middles, keys, top)].contains_key(
            keys[found_level(middles, keys, top)],
        ),
    decreases top + 1,
{
    if top >= 0 && !middles[top].contains_key(keys[top]) {
        lemma_found_level_range(middles, keys, top - 1);
    }
}

impl<V> HashedSearch<V> {
    /// Places the shorter n-grams of a new n-gram `vocab_ids` (newest word first, whose
    /// prefix keys are `keys`): from its own order down, each missing shorter n-gram gets a
    /// blank entry, until one that is there; all of these are marked as extended to the
    /// left, and so is the unigram of the newest word when no shorter n-gram was there.
    pub fn find_lower_and_mark_extends(&mut self, vocab_ids: &[WordIndex], keys: &[u64])
        requires
            vocab_ids@.len() >= 2,
            keys@.len() + 2 >= vocab_ids@.len(),
            old(self).middles().len() + 2 >= vocab_ids@.len(),
        ensures
            final(self).middles() == lowered_middles(old(self).middles(), keys@, vocab_ids@.len() - 3),
            final(self).unigrams() == lowered_unigrams(
                old(self).unigrams(),
                vocab_ids@[0] as int,
                found_level(old(self).middles(), keys@, vocab_ids@.len() - 3),
            ),
            final(self).unknown() == old(self).unknown(),
            final(self).longest() == old(self).longest(),
    {
        let ghost om = self.middles();
        let ghost ks = keys@;
        let n = vocab_ids.len();
        let new_word = vocab_ids[0] as usize;
        if n == 2 {
            if new_word < self.unigram.data.len() {
                let e = self.unigram.data[new_word];
                self.unigram.data.set(new_word, ProbBackoffBits { prob: mark_extends_left(e.prob), backoff: e.backoff });
            }
            assert(self.middles() =~= lowered_middles(om, ks, -1));
            return;
        }
        let top = n - 3;
        let mut found: Option<usize> = None;
        let mut l: usize = top + 1;
        while l > 0
            invariant_except_break
                found.is_none(),
            invariant
                0 <= l <= top + 1,
                top + 3 == n,
                n == vocab_ids@.len(),
                keys@ == ks,
                ks.len() + 2 >= n,
                om.len() + 2 >= n,
                self.middles().len() == om.len(),
                self.unigrams() == old(self).unigrams(),
                self.unknown() == old(self).unknown(),
                self.longest() == old(self).longest(),
                forall|k: int| l <= k <= top ==> !(#[trigger] om[k]).contains_key(ks[k]),
                forall|k: int| 0 <= k < om.len() ==> #[trigger] self.middles()[k] == if l <= k <= top {
                    om[k].insert(ks[k], blank_bits())
                } else {
                    om[k]
                },
            ensures
                found.is_none() ==> l == 0,
                found.is_some() ==> l > 0 && found.unwrap() == l - 1 && om[l - 1].contains_key(ks[l - 1]),
            decreases l,
        {
            let key = keys[l - 1];
            assert(self.middles()[l - 1] == self.middle@[l - 1].data@);
            assert(self.middles()[l - 1] == om[l - 1]);
            if self.middle[l - 1].data.contains_key(&key) {
                found = Some(l - 1);
                break;
            }
            self.table_insert(l - 1, key, ProbBackoffBits { prob: 0x8000_0000u32, backoff: 0x8000_0000u32 });
            l = l - 1;
        }
        let ghost f: int = l - 1;
        proof {
            lemma_found_level_below(om, ks, top as int, f);
            lemma_found_level_range(om, ks, f);
            assert(found_level(om, ks, top as int) == f);
        }
        let bottom: usize = match found {
            Some(x) => x,
            None => 0,
        };
        let mut level = bottom;
        while level <= top
            invariant
                bottom <= level <= top + 1,
                f == l - 1,
                bottom as int == if f < 0 {
                    0
                } else {
                    f
                },
                top + 3 == n,
                keys@ == ks,
                ks.len() + 2 >= n,
                om.len() + 2 >= n,
                f >= 0 ==> om[f].contains_key(ks[f]),
                self.middles().len() == om.len(),
                self.unigrams() == old(self).unigrams(),
                self.unknown() == old(self).unknown(),
                self.longest() == old(self).longest(),
                forall|k: int| 0 <= k < om.len() ==> #[trigger] self.middles()[k] == if bottom <= k < level {
                    lowered_table(om[k], ks[k], k, f, top as int)
                } else if l <= k <= top {
                    om[k].insert(ks[k], blank_bits())
                } else {
                    om[k]
                },
            decreases top + 1 - level,
        {
            let key = keys[level];
            let entry = self.table_get(level, key);
            match entry {
                Some(e) => {
                    self.table_insert(level, key, ProbBackoffBits { prob: mark_extends_left(e.prob), backoff: e.backoff });
                },
                None => {},
            }
            level = level + 1;
        }
        assert(self.middles() =~= lowered_middles(om, ks, top as int));
        if found.is_none() && new_word < self.unigram.data.len() {
            let e = self.unigram.data[new_word];
            self.unigram.data.set(new_word, ProbBackoffBits { prob: mark_extends_left(e.prob), backoff: e.backoff });
        }
    }
}

/// The hash key of the context of an n-gram whose words are `ids`, newest first: the key of
/// all its words but the newest.
pub open spec fn context_key(ids: Seq<WordIndex>) -> u64 {
    spec_hash_key(ids.subrange(1, ids.len() as int))
}

/// The unigrams once a bigram with words `ids` (newest first) marked its context word as
/// extended.
pub open spec fn activated_unigrams(u: Seq<ProbBackoffBits>, ids: Seq<WordIndex>) -> Seq<ProbBackoffBits> {
    if ids.len() == 2 && ids[1] < u.len() {
        u.update(ids[1] as int, extension_set(u[ids[1] as int]))
    } else {
        u
    }
}

/// The middle tables once an n-gram longer than a bigram, with words `ids` (newest first),
/// marked its context as extended, when the context is in its table.
pub open spec fn activated_middles(ms: Seq<Map<u64, ProbBackoffBits>>, ids: Seq<WordIndex>) -> Seq<Map<u64, ProbBackoffBits>> {
    let level = ids.len() - 3;
    let key = context_key(ids);
    if ids.len() > 2 && ms[level].contains_key(key) {
        ms.update(level, ms[level].insert(key, extension_set(ms[level][key])))
    } else {
        ms
    }
}

/// The prefix keys of an n-gram of at least two words: entry `k` is the key of its first
/// `k + 2` words.
pub open spec fn prefix_keys(ids: Seq<WordIndex>) -> Seq<u64> {
    Seq::new((ids.len() - 1) as nat, |k: int| spec_hash_key(ids.take(k + 2)))
}

/// The middle tables once an n-gram with words `ids` (newest first) of a model of order
/// `total` is stored: below the highest order, its own table gets its weights, the
/// probability marked independent.
pub open spec fn stored_middles(
    ms: Seq<Map<u64, ProbBackoffBits>>,
    ids: Seq<WordIndex>,
    total: int,
    prob: u32,
    backoff: u32,
) -> Seq<Map<u64, ProbBackoffBits>> {
    if ids.len() == total {
        ms
    } else {
        ms.update(
            ids.len() - 2,
            ms[ids.len() - 2].insert(spec_hash_key(ids), ProbBackoffBits { prob: with_sign(prob), backoff }),
        )
    }
}

proof fn lemma_hash_key_step(ids: Seq<WordIndex>, i: int)
    requires
        1 <= i < ids.len(),
    ensures
        spec_hash_key(ids.subrange(1, i + 1)) == if i == 1 {
            ids[1] as u64
        } else {
            spec_combine_word_hash(spec_hash_key(ids.subrange(1, i)), ids[i])
        },
{
    if i > 1 {
        assert(ids.subrange(1, i + 1).drop_last() =~= ids.subrange(1, i));
    }
}

impl<V> HashedSearch<V> {
    /// Marks the context of a new n-gram `vocab_ids` (newest first) as extended: for a
    /// bigram, the backoff of its context word; for a longer one, the backoff of its context
    /// in the next lower table, when that table holds it.
    pub fn activate_context_backoff(&mut self, vocab_ids: &[WordIndex])
        requires
            vocab_ids@.len() >= 2,
            old(self).middles().len() + 2 >= vocab_ids@.len(),
        ensures
            final(self).unigrams() == activated_unigrams(old(self).unigrams(), vocab_ids@),
            final(self).middles() == activated_middles(old(self).middles(), vocab_ids@),
            final(self).unknown() == old(self).unknown(),
            final(self).longest() == old(self).longest(),
    {
        let n = vocab_ids.len();
        if n == 2 {
            let ctx = vocab_ids[1] as usize;
            if ctx < self.unigram.data.len() {
                let e = self.unigram.data[ctx];
                let mut b = e.backoff;
                set_extension(&mut b);
                self.unigram.data.set(ctx, ProbBackoffBits { prob: e.prob, backoff: b });
            }
        } else {
            let mut hash = vocab_ids[1] as u64;
            let mut i: usize = 2;
            proof {
                lemma_hash_key_step(vocab_ids@, 1);
            }
            while i < n
                invariant
                    2 <= i <= n,
                    n == vocab_ids@.len(),
                    hash == spec_hash_key(vocab_ids@.subrange(1, i as int)),
                decreases n - i,
            {
                proof {
                    lemma_hash_key_step(vocab_ids@, i as int);
                }
                hash = combine_word_hash(hash, vocab_ids[i]);
                i = i + 1;
            }
            let level = n - 3;
            match self.table_get(level, hash) {
                Some(e) => {
                    let mut b = e.backoff;
                    set_extension(&mut b);
                    self.table_insert(level, hash, ProbBackoffBits { prob: e.prob, backoff: b });
                },
                None => {},
            }
        }
    }

    /// Stores an n-gram of order two or more: `vocab_ids` are its words, newest first,
    /// `total_orders` the order of the model, `prob` and `backoff` the bits of its weights.
    /// The highest order keeps the probability only. The probability is stored marked
    /// independent; then the shorter n-grams are placed and marked, and the context is marked
    /// as extended.
    pub fn insert_ngram(&mut self, vocab_ids: &[WordIndex], total_orders: usize, prob: u32, backoff: u32)
        requires
            2 <= vocab_ids@.len() <= total_orders,
            old(self).middles().len() + 2 == total_orders,
        ensures
            final(self).longest() == if vocab_ids@.len() == total_orders {
                old(self).longest().insert(spec_hash_key(vocab_ids@), with_sign(prob))
            } else {
                old(self).longest()
            },
            final(self).middles() == activated_middles(
                lowered_middles(
                    stored_middles(old(self).middles(), vocab_ids@, total_orders as int, prob, backoff),
                    prefix_keys(vocab_ids@),
                    vocab_ids@.len() - 3,
                ),
                vocab_ids@,
            ),
            final(self).unigrams() == activated_unigrams(
                lowered_unigrams(
                    old(self).unigrams(),
                    vocab_ids@[0] as int,
                    found_level(
                        stored_middles(old(self).middles(), vocab_ids@, total_orders as int, prob, backoff),
                        prefix_keys(vocab_ids@),
                        vocab_ids@.len() - 3,
                    ),
                ),
                vocab_ids@,
            ),
            final(self).unknown() == old(self).unknown(),
    {
        let n = vocab_ids.len();
        let keys = build_ngram_keys(vocab_ids);
        assert(keys@ =~= prefix_keys(vocab_ids@));
        assert(vocab_ids@.take(n as int) =~= vocab_ids@);
        let ngram_key = keys[n - 2];
        let stored_prob = mark_independent(prob);
        if n == total_orders {
            self.longest.data.insert(ngram_key, stored_prob);
        } else {
            self.table_insert(n - 2, ngram_key, ProbBackoffBits { prob: stored_prob, backoff });
        }
        assert(self.middles() == stored_middles(old(self).middles(), vocab_ids@, total_orders as int, prob, backoff));
        self.find_lower_and_mark_extends(vocab_ids, keys.as_slice());
        self.activate_context_backoff(vocab_ids);
    }

    /// Stores a unigram: when `word` has a slot, its weights become `prob`, marked
    /// independent, and `backoff`.
    pub fn insert_unigram(&mut self, word: WordIndex, prob: u32, backoff: u32)
        ensures
            final(self).unigrams() == if word < old(self).unigrams().len() {
                old(self).unigrams().update(word as int, ProbBackoffBits { prob: with_sign(prob), backoff })
            } else {
                old(self).unigrams()
            },
            final(self).unknown() == old(self).unknown(),
            final(self).middles() == old(self).middles(),
            final(self).longest() == old(self).longest(),
    {
        if (word as usize) < self.unigram.data.len() {
            let stored = mark_independent(prob);
            self.unigram.data.set(word as usize, ProbBackoffBits { prob: stored, backoff });
        }
    }
}

impl UnigramTable {
    /// Room for `capacity` words and one more, all weights +0.0.
    fn with_capacity(capacity: usize) -> (r: UnigramTable)
        requires
            capacity < usize::MAX,
        ensures
            r.data@ == Seq::new((capacity + 1) as nat, |k: int| zero_bits()),
            r.unknown == zero_bits(),
    {
        let mut data: Vec<ProbBackoffBits> = Vec::new();
        let mut k: usize = 0;
        while k <= capacity
            invariant
                k <= capacity + 1,
                capacity < usize::MAX,
                data@ == Seq::new(k as nat, |j: int| zero_bits()),
            decreases capacity + 1 - k,
        {
            data.push(ProbBackoffBits { prob: 0, backoff: 0 });
            k = k + 1;
            assert(data@ =~= Seq::new(k as nat, |j: int| zero_bits()));
        }
        UnigramTable { data, unknown: ProbBackoffBits { prob: 0, backoff: 0 } }
    }
}

impl<V> HashedSearch<V> {
    /// Makes the middle tables empty, `count` of them, and the table of the highest order
    /// empty.
    fn reset_orders(&mut self, count: usize)
        ensures
            final(self).middles() == Seq::new(count as nat, |k: int| Map::<u64, ProbBackoffBits>::empty()),
            final(self).longest() == Map::<u64, u32>::empty(),
            final(self).unigrams() == old(self).unigrams(),
            final(self).unknown() == old(self).unknown(),
    {
        self.middle.clear();
        assert(self.middles() =~= Seq::new(0nat, |j: int| Map::<u64, ProbBackoffBits>::empty()));
        let mut k: usize = 0;
        while k < count
            invariant
                k <= count,
                self.middle@.len() == k,
                self.middles() == Seq::new(k as nat, |j: int| Map::<u64, ProbBackoffBits>::empty()),
                self.unigrams() == old(self).unigrams(),
                self.unknown() == old(self).unknown(),
            decreases count - k,
        {
            let t = MiddleTable { data: HashMap::new() };
            assert(t.data@ == Map::<u64, ProbBackoffBits>::empty());
            let ghost before = self.middle@;
            let ghost before_views = self.middles();
            self.middle.push(t);
            assert(self.middle@ == before.push(t));
            assert forall|j: int| 0 <= j < k implies #[trigger] self.middles()[j] == before_views[j] by {
                assert(self.middle@[j] == before[j]);
            }
            assert(self.middles()[k as int] == t.data@);
            k = k + 1;
            assert(self.middles() =~= Seq::new(k as nat, |j: int| Map::<u64, ProbBackoffBits>::empty()));
        }
        self.longest = LongestTable { data: HashMap::new() };
    }

    /// Lays the tables out for a model with n-gram `counts`, lowest order first: room for
    /// `counts[0]` unigrams and one more, an empty table for each order between the first
    /// and the last, and an empty table of the highest order.
    pub fn setup_memory(&mut self, counts: &[u64])
        requires
            counts@.len() >= 1,
            counts@[0] < usize::MAX,
        ensures
            final(self).unigrams() == Seq::new((counts@[0] + 1) as nat, |k: int| zero_bits()),
            final(self).unknown() == zero_bits(),
            final(self).middles() == Seq::new(
                (if counts@.len() >= 2 {
                    counts@.len() - 2
                } else {
                    0
                }) as nat,
                |k: int| Map::<u64, ProbBackoffBits>::empty(),
            ),
            final(self).longest() == Map::<u64, u32>::empty(),
    {
        self.unigram = UnigramTable::with_capacity(counts[0] as usize);
        let middles: usize = if counts.len() >= 2 {
            counts.len() - 2
        } else {
            0
        };
        self.reset_orders(middles);
    }

    /// Room for the `count` unigrams of an ARPA file, one more for the unknown word, and one
    /// more again, all weights +0.0.
    pub fn prepare_unigrams(&mut self, count: u64)
        requires
            count < usize::MAX - 1,
        ensures
            final(self).unigrams() == Seq::new((count + 2) as nat, |k: int| zero_bits()),
            final(self).unknown() == zero_bits(),
            final(self).middles() == old(self).middles(),
            final(self).longest() == old(self).longest(),
    {
        self.unigram = UnigramTable::with_capacity(count as usize + 1);
    }

    /// Empty tables for the orders above the first of a model of order `total_orders`: one
    /// middle table for each order from 2 below `total_orders`, and the table of the highest
    /// order.
    pub fn prepare_orders(&mut self, total_orders: usize)
        ensures
            final(self).middles() == Seq::new(
                (if total_orders >= 2 {
                    total_orders - 2
                } else {
                    0
                }) as nat,
                |k: int| Map::<u64, ProbBackoffBits>::empty(),
            ),
            final(self).longest() == Map::<u64, u32>::empty(),
            final(self).unigrams() == old(self).unigrams(),
            final(self).unknown() == old(self).unknown(),
    {
        let middles: usize = if total_orders >= 2 {
            total_orders - 2
        } else {
            0
        };
        self.reset_orders(middles);
    }

    /// The memory that the tables of a model with n-gram `counts` take: a fixed 1024 bytes
    /// for the unigrams, for each middle order and for the highest order.
    pub fn size(counts: &[u64]) -> (r: u64)
        requires
            1 <= counts@.len() <= 0x10_0000_0000,
        ensures
            r == 1024 * (2 + if counts@.len() >= 2 {
                counts@.len() - 2
            } else {
                0
            }),
    {
        let mut ret: u64 = 1024;
        let mut n: usize = 1;
        while n < counts.len() - 1
            invariant
                1 <= n <= counts@.len(),
                counts@.len() <= 0x10_0000_0000,
                n + 1 <= counts@.len() || n == 1,
                ret == 1024 * n,
            decreases counts@.len() - n,
        {
            ret = ret + 1024;
            n = n + 1;
        }
        ret + 1024
    }
}

impl<V> Default for HashedSearch<V> {
    fn default() -> (r: Self)
        ensures
            r.unigrams().len() == 0,
            r.unknown() == zero_bits(),
            r.middles().len() == 0,
            r.longest() == Map::<u64, u32>::empty(),
    {
        HashedSearch::new()
    }
}

/// An n-gram below the highest order, once stored, is in its own table under its key, with
/// its probability marked independent and its backoff as read: placing the shorter n-grams
/// and marking the context touch only lower orders.
pub proof fn law_stored_ngram_is_found(
    ms: Seq<Map<u64, ProbBackoffBits>>,
    ids: Seq<WordIndex>,
    total: int,
    prob: u32,
    backoff: u32,
)
    requires
        2 <= ids.len() < total,
        ms.len() + 2 == total,
    ensures
        activated_middles(
            lowered_middles(stored_middles(ms, ids, total, prob, backoff), prefix_keys(ids), ids.len() - 3),
            ids,
        )[ids.len() - 2].contains_key(spec_hash_key(ids)),
        activated_middles(
            lowered_middles(stored_middles(ms, ids, total, prob, backoff), prefix_keys(ids), ids.len() - 3),
            ids,
        )[ids.len() - 2][spec_hash_key(ids)] == (ProbBackoffBits { prob: with_sign(prob), backoff }),
{
    let st = stored_middles(ms, ids, total, prob, backoff);
    let lo = lowered_middles(st, prefix_keys(ids), ids.len() - 3);
    assert(lo[ids.len() - 2] == st[ids.len() - 2]);
}

/// Once an n-gram is stored, each of its prefixes from the level where one was found (or
/// from the bigrams, when none was) up to the order below its own is in its table, marked
/// as extended to the left.
pub proof fn law_stored_prefixes_are_present(
    ms: Seq<Map<u64, ProbBackoffBits>>,
    ids: Seq<WordIndex>,
    total: int,
    prob: u32,
    backoff: u32,
    level: int,
)
    requires
        2 <= ids.len() <= total,
        ms.len() + 2 == total,
        0 <= level <= ids.len() - 3,
        level >= found_level(stored_middles(ms, ids, total, prob, backoff), prefix_keys(ids), ids.len() - 3),
    ensures
        activated_middles(
            lowered_middles(stored_middles(ms, ids, total, prob, backoff), prefix_keys(ids), ids.len() - 3),
            ids,
        )[level].contains_key(prefix_keys(ids)[level]),
        !crate::model::sign_set(
            lowered_middles(stored_middles(ms, ids, total, prob, backoff), prefix_keys(ids), ids.len() - 3)[level][prefix_keys(
                ids,
            )[level]].prob,
        ),
{
    let st = stored_middles(ms, ids, total, prob, backoff);
    let keys = prefix_keys(ids);
    let top = ids.len() - 3;
    let lo = lowered_middles(st, keys, top);
    assert(lo[level] == lowered_table(st[level], keys[level], level, found_level(st, keys, top), top));
    assert(lo[level].contains_key(keys[level]));
    let act = activated_middles(lo, ids);
    if ids.len() > 2 && lo[ids.len() - 3].contains_key(context_key(ids)) {
        assert(act[level].dom() =~= lo[level].dom().insert(context_key(ids)) || act[level] == lo[level]);
    }
}
/// Storing an n-gram marks its context as extended: after `insert_ngram` with words `ids`
/// (newest first), the context, the words after the newest, has a backoff other than -0.0
/// wherever it is stored: in the unigrams for a bigram, in the middle table of its order for
/// a longer n-gram; its probability and whether it is stored are what they were after the
/// n-gram and its shorter n-grams were placed.
pub proof fn law_insert_marks_context(
    u: Seq<ProbBackoffBits>,
    ms: Seq<Map<u64, ProbBackoffBits>>,
    ids: Seq<WordIndex>,
    total: int,
    prob: u32,
    backoff: u32,
)
    requires
        2 <= ids.len() <= total,
        ms.len() + 2 == total,
    ensures
        ({
            let placed = stored_middles(ms, ids, total, prob, backoff);
            let keys = prefix_keys(ids);
            let mid = lowered_middles(placed, keys, ids.len() - 3);
            let after = activated_middles(mid, ids);
            let level = ids.len() - 3;
            let key = spec_hash_key(ids.subrange(1, ids.len() as int));
            &&& after.len() == ms.len()
            &&& ids.len() >= 3 ==> {
                &&& after[level].contains_key(key) == mid[level].contains_key(key)
                &&& after[level].contains_key(key) ==> after[level][key].backoff != sign_bit()
                    && after[level][key].prob == mid[level][key].prob
                    && (mid[level][key].backoff != sign_bit() ==> after[level][key].backoff == mid[level][key].backoff)
                &&& forall|l: int, k: u64| 0 <= l < ms.len() && (l != level || k != key) ==> after[l].contains_key(k)
                    == mid[l].contains_key(k) && (mid[l].contains_key(k) ==> after[l][k] == mid[l][k])
            }
        }),
        ({
            let placed = stored_middles(ms, ids, total, prob, backoff);
            let found = found_level(placed, prefix_keys(ids), ids.len() - 3);
            let lowered = lowered_unigrams(u, ids[0] as int, found);
            let after = activated_unigrams(lowered, ids);
            &&& after.len() == u.len()
            &&& ids.len() == 2 && ids[1] < u.len() ==> after[ids[1] as int].backoff != sign_bit()
                && after[ids[1] as int].prob == lowered[ids[1] as int].prob
        }),
{
}

} // verus!
