//! Vocabularies: the mapping between words and word indices.
use vstd::prelude::*;
use vstd::string::StringSliceAdditionalSpecFns;
use vstd::utf8::encode_utf8;
use std::collections::HashMap;
use crate::constant::{BOS_WORD, EOS_WORD, UNK_WORD};
use crate::hash::{hash_for_vocab, spec_murmur_hash_64a, UNKNOWN_HASH, UNKNOWN_CAP_HASH};
use crate::text::{str_eq, lemma_encode_utf8_injective};
use crate::types::WordIndex;
use crate::sorting::{sort_pairs, pair_le};

verus! {

broadcast use vstd::std_specs::hash::group_hash_axioms;

/// The hash under which a word is stored: MurmurHash64A of its UTF-8 bytes, seed 0.
#[verifier::opaque]
pub open spec fn word_hash(w: Seq<char>) -> u64 {
    spec_murmur_hash_64a(encode_utf8(w), 0)
}

/// Whether a word hashes like the unknown-word markers `<unk>` or `<UNK>`.
pub open spec fn is_unk_hash(h: u64) -> bool {
    h == UNKNOWN_HASH || h == UNKNOWN_CAP_HASH
}

/// Whether index `i` is listed in the bucket of the hash of `w`.
pub open spec fn filed(buckets: Map<u64, Vec<WordIndex>>, w: Seq<char>, i: int) -> bool {
    buckets.contains_key(word_hash(w)) && buckets[word_hash(w)]@.contains(i as u32)
}

/// Hash-table invariant: distinct words, each filed under its hash, each bucket entry a word
/// with that hash.
pub open spec fn table_wf(words: Seq<Seq<char>>, buckets: Map<u64, Vec<WordIndex>>) -> bool {
    &&& forall|i: int, j: int| 0 <= i < words.len() && 0 <= j < words.len() && i != j ==> words[i] != words[j]
    &&& forall|i: int|
        0 <= i < words.len() ==> #[trigger] filed(buckets, words[i], i)
    &&& forall|h: u64, k: int|
        buckets.contains_key(h) && 0 <= k < buckets[h]@.len() ==> (#[trigger] buckets[h]@[k])
            < words.len() && word_hash(words[buckets[h]@[k] as int]) == h
}

/// Filing a new word under its hash keeps the table invariant.
proof fn lemma_table_add(
    words: Seq<Seq<char>>,
    buckets: Map<u64, Vec<WordIndex>>,
    w: Seq<char>,
    nb: Vec<WordIndex>,
)
    requires
        table_wf(words, buckets),
        !words.contains(w),
        words.len() < u32::MAX,
        nb@ == (if buckets.contains_key(word_hash(w)) {
            buckets[word_hash(w)]@
        } else {
            Seq::<WordIndex>::empty()
        }).push(words.len() as u32),
    ensures
        table_wf(words.push(w), buckets.insert(word_hash(w), nb)),
{
    lemma_table_add_distinct(words, w);
    lemma_table_add_filed(words, buckets, w, nb);
    lemma_table_add_entries(words, buckets, w, nb);
}

proof fn lemma_table_add_distinct(words: Seq<Seq<char>>, w: Seq<char>)
    requires
        forall|i: int, j: int| 0 <= i < words.len() && 0 <= j < words.len() && i != j ==> words[i] != words[j],
        !words.contains(w),
    ensures
        forall|i: int, j: int|
            0 <= i < words.push(w).len() && 0 <= j < words.push(w).len() && i != j ==> words.push(w)[i]
                != words.push(w)[j],
{
    let nw = words.push(w);
    assert forall|i: int, j: int| 0 <= i < nw.len() && 0 <= j < nw.len() && i != j implies nw[i]
        != nw[j] by {
        if i == words.len() {
            assert(words[j] == nw[j]);
        } else if j == words.len() {
            assert(words[i] == nw[i]);
        } else {
            assert(words[i] == nw[i] && words[j] == nw[j]);
        }
    }
}

proof fn lemma_table_add_filed(
    words: Seq<Seq<char>>,
    buckets: Map<u64, Vec<WordIndex>>,
    w: Seq<char>,
    nb: Vec<WordIndex>,
)
    requires
        forall|i: int| 0 <= i < words.len() ==> #[trigger] filed(buckets, words[i], i),
        words.len() < u32::MAX,
        nb@ == (if buckets.contains_key(word_hash(w)) {
            buckets[word_hash(w)]@
        } else {
            Seq::<WordIndex>::empty()
        }).push(words.len() as u32),
    ensures
        forall|i: int|
            0 <= i < words.push(w).len() ==> #[trigger] filed(
                buckets.insert(word_hash(w), nb),
                words.push(w)[i],
                i,
            ),
{
    let h = word_hash(w);
    let nw = words.push(w);
    let nm = buckets.insert(h, nb);
    let ob = if buckets.contains_key(h) {
        buckets[h]@
    } else {
        Seq::<WordIndex>::empty()
    };
    assert forall|i: int| 0 <= i < nw.len() implies #[trigger] filed(nm, nw[i], i) by {
        if i < words.len() {
            assert(nw[i] == words[i]);
            assert(filed(buckets, words[i], i));
            if word_hash(nw[i]) == h {
                let kk = choose|kk: int| 0 <= kk < ob.len() && ob[kk] == i as u32;
                assert(nm[h]@[kk] == i as u32);
            }
        } else {
            assert(nm[h]@[ob.len() as int] == words.len() as u32);
        }
    }
}

proof fn lemma_table_add_entries(
    words: Seq<Seq<char>>,
    buckets: Map<u64, Vec<WordIndex>>,
    w: Seq<char>,
    nb: Vec<WordIndex>,
)
    requires
        forall|h: u64, k: int|
            buckets.contains_key(h) && 0 <= k < buckets[h]@.len() ==> (#[trigger] buckets[h]@[k])
                < words.len() && word_hash(words[buckets[h]@[k] as int]) == h,
        words.len() < u32::MAX,
        nb@ == (if buckets.contains_key(word_hash(w)) {
            buckets[word_hash(w)]@
        } else {
            Seq::<WordIndex>::empty()
        }).push(words.len() as u32),
    ensures
        forall|h: u64, k: int|
            buckets.insert(word_hash(w), nb).contains_key(h) && 0 <= k < buckets.insert(
                word_hash(w),
                nb,
            )[h]@.len() ==> (#[trigger] buckets.insert(word_hash(w), nb)[h]@[k]) < words.push(w).len()
                && word_hash(words.push(w)[buckets.insert(word_hash(w), nb)[h]@[k] as int]) == h,
{
    let h = word_hash(w);
    let nw = words.push(w);
    let nm = buckets.insert(h, nb);
    let ob = if buckets.contains_key(h) {
        buckets[h]@
    } else {
        Seq::<WordIndex>::empty()
    };
    assert forall|hh: u64, k: int| nm.contains_key(hh) && 0 <= k < nm[hh]@.len() implies (
    #[trigger] nm[hh]@[k]) < nw.len() && word_hash(nw[nm[hh]@[k] as int]) == hh by {
        if hh == h {
            if k < ob.len() {
                assert(nm[hh]@[k] == ob[k]);
                assert(buckets[h]@[k] == ob[k]);
            } else {
                assert(nm[hh]@[k] == words.len() as u32);
            }
        } else {
            assert(nm[hh] == buckets[hh]);
            assert(buckets[hh]@[k] < words.len());
            assert(nw[nm[hh]@[k] as int] == words[nm[hh]@[k] as int]);
        }
    }
}

/// Operations common to all vocabularies.
pub trait Vocabulary {
    /// Whether `add_word` may be called in this state.
    spec fn accepts_words(&self) -> bool;

    /// The index of the beginning-of-sentence marker.
    spec fn bos_index(&self) -> WordIndex;

    /// The index of the end-of-sentence marker.
    spec fn eos_index(&self) -> WordIndex;

    /// The index given to words that are not in the vocabulary.
    spec fn not_found_index(&self) -> WordIndex;

    /// Index of the beginning-of-sentence marker.
    fn begin_sentence(&self) -> (r: WordIndex)
        ensures
            r == self.bos_index(),
    ;

    /// Index of the end-of-sentence marker.
    fn end_sentence(&self) -> (r: WordIndex)
        ensures
            r == self.eos_index(),
    ;

    /// Index given to words that are not in the vocabulary.
    fn not_found(&self) -> (r: WordIndex)
        ensures
            r == self.not_found_index(),
    ;

    /// What a lookup of `word` in this vocabulary gives and leaves behind: `r` is the index
    /// it returns and `after` the vocabulary afterwards.
    spec fn index_outcome(&self, word: Seq<char>, r: WordIndex, after: Self) -> bool
        where Self: Sized;

    /// Index of a word. A lookup may record that an unknown-word marker was seen.
    fn index(&mut self, str: &str) -> (r: WordIndex)
        where Self: Sized
        ensures
            old(self).index_outcome(str@, r, *final(self)),
    ;

    /// Index of a word held in a `String`: what `index` gives for its text.
    fn index_from_string(&mut self, str: &String) -> (r: WordIndex)
        where Self: Sized
        ensures
            old(self).index_outcome(str@, r, *final(self)),
    {
        self.index(str.as_str())
    }

    /// Same as `index`.
    fn index_from_str(&mut self, str: &str) -> (r: WordIndex)
        where Self: Sized
        ensures
            old(self).index_outcome(str@, r, *final(self)),
    {
        self.index(str)
    }

    /// Sets the special word indices.
    fn set_special(&mut self, begin_sentence: WordIndex, end_sentence: WordIndex, not_found: WordIndex);

    /// One past the largest word index.
    fn bound(&self) -> WordIndex;

    /// Whether an unknown-word marker was seen while loading.
    fn saw_unk(&self) -> bool;

    /// Inserts `word`, returning its index.
    fn add_word(&mut self, word: &str) -> WordIndex
        requires
            old(self).accepts_words(),
    ;
}

/// Special indices, bound and unknown-word flag shared by the vocabularies.
pub struct BaseVocabulary {
    begin_sentence: WordIndex,
    end_sentence: WordIndex,
    not_found: WordIndex,
    bound: WordIndex,
    saw_unk: bool,
}

impl BaseVocabulary {
    pub closed spec fn spec_begin_sentence(&self) -> WordIndex {
        self.begin_sentence
    }

    pub closed spec fn spec_end_sentence(&self) -> WordIndex {
        self.end_sentence
    }

    pub closed spec fn spec_not_found(&self) -> WordIndex {
        self.not_found
    }

    pub closed spec fn spec_bound(&self) -> WordIndex {
        self.bound
    }

    pub closed spec fn spec_saw_unk(&self) -> bool {
        self.saw_unk
    }

    /// `<s>`, `</s>` and `<unk>` at their standard indices, bound 3, no unknown word seen.
    pub fn new() -> (r: Self)
        ensures
            r.spec_begin_sentence() == BOS_WORD,
            r.spec_end_sentence() == EOS_WORD,
            r.spec_not_found() == UNK_WORD,
            r.spec_bound() == 3,
            !r.spec_saw_unk(),
    {
        Self {
            begin_sentence: BOS_WORD,
            end_sentence: EOS_WORD,
            not_found: UNK_WORD,
            bound: 3,
            saw_unk: false,
        }
    }

    /// Like `new`, with the given special indices.
    pub fn with_special(begin_sentence: WordIndex, end_sentence: WordIndex, not_found: WordIndex) -> (r: Self)
        ensures
            r.spec_begin_sentence() == begin_sentence,
            r.spec_end_sentence() == end_sentence,
            r.spec_not_found() == not_found,
            r.spec_bound() == 3,
            !r.spec_saw_unk(),
    {
        let mut vocab = Self::new();
        vocab.set_special(begin_sentence, end_sentence, not_found);
        vocab
    }

    /// Sets the bound.
    pub fn set_bound(&mut self, bound: WordIndex)
        ensures
            final(self).spec_bound() == bound,
            final(self).spec_begin_sentence() == old(self).spec_begin_sentence(),
            final(self).spec_end_sentence() == old(self).spec_end_sentence(),
            final(self).spec_not_found() == old(self).spec_not_found(),
            final(self).spec_saw_unk() == old(self).spec_saw_unk(),
    {
        self.bound = bound;
    }

    /// Records whether an unknown-word marker was seen.
    pub fn set_saw_unk(&mut self, saw_unk: bool)
        ensures
            final(self).spec_saw_unk() == saw_unk,
            final(self).spec_bound() == old(self).spec_bound(),
            final(self).spec_begin_sentence() == old(self).spec_begin_sentence(),
            final(self).spec_end_sentence() == old(self).spec_end_sentence(),
            final(self).spec_not_found() == old(self).spec_not_found(),
    {
        self.saw_unk = saw_unk;
    }
}

impl Vocabulary for BaseVocabulary {
    open spec fn bos_index(&self) -> WordIndex {
        self.spec_begin_sentence()
    }

    open spec fn eos_index(&self) -> WordIndex {
        self.spec_end_sentence()
    }

    open spec fn not_found_index(&self) -> WordIndex {
        self.spec_not_found()
    }

    /// The base vocabulary holds no words and cannot take any.
    open spec fn accepts_words(&self) -> bool {
        false
    }

    fn begin_sentence(&self) -> (r: WordIndex)
        ensures
            r == self.spec_begin_sentence(),
    {
        self.begin_sentence
    }

    fn end_sentence(&self) -> (r: WordIndex)
        ensures
            r == self.spec_end_sentence(),
    {
        self.end_sentence
    }

    fn not_found(&self) -> (r: WordIndex)
        ensures
            r == self.spec_not_found(),
    {
        assert(self.not_found_index() == self.spec_not_found());
        self.not_found
    }

    /// The base vocabulary knows no words.
    open spec fn index_outcome(&self, word: Seq<char>, r: WordIndex, after: Self) -> bool {
        r == self.spec_not_found() && after == *self
    }

    fn index(&mut self, _str: &str) -> (r: WordIndex)
        ensures
            r == old(self).spec_not_found(),
            *final(self) == *old(self),
    {
        self.not_found
    }

    fn set_special(&mut self, begin_sentence: WordIndex, end_sentence: WordIndex, not_found: WordIndex)
        ensures
            final(self).spec_begin_sentence() == begin_sentence,
            final(self).spec_end_sentence() == end_sentence,
            final(self).spec_not_found() == not_found,
            final(self).spec_bound() == old(self).spec_bound(),
            final(self).spec_saw_unk() == old(self).spec_saw_unk(),
    {
        self.begin_sentence = begin_sentence;
        self.end_sentence = end_sentence;
        self.not_found = not_found;
    }

    fn bound(&self) -> (r: WordIndex)
        ensures
            r == self.spec_bound(),
    {
        self.bound
    }

    fn saw_unk(&self) -> (r: bool)
        ensures
            r == self.spec_saw_unk(),
    {
        self.saw_unk
    }

    fn add_word(&mut self, _word: &str) -> WordIndex {
        // The requires of the trait method (accepts_words) is false here.
        assert(false);
        0
    }
}

impl Default for BaseVocabulary {
    fn default() -> (r: Self)
        ensures
            r.spec_begin_sentence() == BOS_WORD,
            r.spec_end_sentence() == EOS_WORD,
            r.spec_not_found() == UNK_WORD,
            r.spec_bound() == 3,
            !r.spec_saw_unk(),
    {
        Self::new()
    }
}

/// Vocabulary over a hash table: words get consecutive indices from 0 in insertion order.
pub struct ProbingVocabulary {
    base: BaseVocabulary,
    buckets: HashMap<u64, Vec<WordIndex>>,
    index_to_word: Vec<String>,
}

impl ProbingVocabulary {
    /// The words, in index order.
    pub closed spec fn words(&self) -> Seq<Seq<char>> {
        self.index_to_word@.map_values(|s: String| s@)
    }

    pub closed spec fn base(&self) -> BaseVocabulary {
        self.base
    }

    /// Table invariant: distinct words, each filed under its hash, each bucket entry a word
    /// with that hash; the bound is the larger of 3 and the word count.
    pub closed spec fn wf(&self) -> bool {
        let words = self.words();
        &&& words.len() < u32::MAX
        &&& self.base.bound == if words.len() > 3 {
            words.len()
        } else {
            3
        }
        &&& table_wf(words, self.buckets@)
    }

    /// What `index` gives for `w`: its position among the words, or the not-found index.
    pub open spec fn spec_index(&self, w: Seq<char>) -> WordIndex {
        if self.words().contains(w) {
            self.words().index_of(w) as u32
        } else {
            self.base().spec_not_found()
        }
    }

    /// In a well-formed vocabulary no word is stored twice.
    pub proof fn lemma_words_distinct(&self, i: int, j: int)
        requires
            self.wf(),
            0 <= i < self.words().len(),
            0 <= j < self.words().len(),
            self.words()[i] == self.words()[j],
        ensures
            i == j,
    {
    }

    /// In a well-formed vocabulary, the position of a stored word is its only position.
    pub proof fn lemma_index_of_stored(&self, i: int)
        requires
            self.wf(),
            0 <= i < self.words().len(),
        ensures
            self.words().index_of(self.words()[i]) == i,
            self.spec_index(self.words()[i]) == i,
    {
        let w = self.words()[i];
        assert(self.words().contains(w));
        let j = self.words().index_of(w);
        self.lemma_words_distinct(i, j);
    }

    /// An empty vocabulary with the standard special indices.
    pub fn new() -> (r: Self)
        ensures
            r.wf(),
            r.words() == Seq::<Seq<char>>::empty(),
            r.base().spec_begin_sentence() == BOS_WORD,
            r.base().spec_end_sentence() == EOS_WORD,
            r.base().spec_not_found() == UNK_WORD,
            r.base().spec_bound() == 3,
            !r.base().spec_saw_unk(),
    {
        let r = Self { base: BaseVocabulary::new(), buckets: HashMap::new(), index_to_word: Vec::new() };
        assert(r.words() =~= Seq::<Seq<char>>::empty());
        r
    }

    /// The first index in `bucket` whose word equals `s`, if any.
    fn find_in_bucket(&self, bucket: &Vec<WordIndex>, s: &str) -> (r: Option<WordIndex>)
        ensures
            match r {
                Some(i) => i < self.words().len() && self.words()[i as int] == s@,
                None => forall|k: int|
                    0 <= k < bucket@.len() && (#[trigger] bucket@[k]) < self.words().len()
                        ==> self.words()[bucket@[k] as int] != s@,
            },
    {
        let mut k: usize = 0;
        while k < bucket.len()
            invariant
                k <= bucket@.len(),
                forall|j: int|
                    0 <= j < k && (#[trigger] bucket@[j]) < self.words().len() ==> self.words()[bucket@[j] as int] != s@,
            decreases bucket@.len() - k,
        {
            let idx = bucket[k];
            if (idx as usize) < self.index_to_word.len() {
                let stored: &String = &self.index_to_word[idx as usize];
                if str_eq(stored.as_str(), s) {
                    return Some(idx);
                }
            }
            k = k + 1;
        }
        None
    }

    /// Inserts `word` if it is new; returns its index either way.
    pub fn add_word(&mut self, word: &str) -> (r: WordIndex)
        requires
            old(self).wf(),
            old(self).words().len() + 1 < u32::MAX,
        ensures
            final(self).wf(),
            final(self).base().spec_begin_sentence() == old(self).base().spec_begin_sentence(),
            final(self).base().spec_end_sentence() == old(self).base().spec_end_sentence(),
            final(self).base().spec_not_found() == old(self).base().spec_not_found(),
            final(self).base().spec_saw_unk() == old(self).base().spec_saw_unk(),
            probing_added(*old(self), *final(self), word@, r),
    {
        let h = hash_for_vocab(word);
        assert(h == word_hash(word@)) by {
            reveal(word_hash);
        }
        let ghost old_words = self.words();
        match self.buckets.get(&h) {
            Some(bucket) => {
                let found = self.find_in_bucket(bucket, word);
                if let Some(i) = found {
                    return i;
                }
            },
            None => {},
        }
        proof {
            if old_words.contains(word@) {
                let i = choose|i: int| 0 <= i < old_words.len() && old_words[i] == word@;
                assert(filed(self.buckets@, old_words[i], i));
                let b = self.buckets@[h]@;
                let k = choose|k: int| 0 <= k < b.len() && b[k] == i as u32;
                assert(self.words()[b[k] as int] != word@);
            }
        }
        let new_index = self.index_to_word.len() as WordIndex;
        let ghost pre_buckets = self.buckets@;
        let mut bucket: Vec<WordIndex> = match self.buckets.remove(&h) {
            Some(b) => b,
            None => Vec::new(),
        };
        let ghost old_buckets = self.buckets@;
        bucket.push(new_index);
        proof {
            lemma_table_add(old_words, pre_buckets, word@, bucket);
        }
        self.buckets.insert(h, bucket);
        assert(self.buckets@ =~= pre_buckets.insert(h, bucket));
        self.index_to_word.push(word.to_owned());
        let b = if new_index + 1 > self.base.bound { new_index + 1 } else { self.base.bound };
        self.base.set_bound(b);
        assert(self.words() =~= old_words.push(word@));
        new_index
    }

    /// The word at `index`, if there is one.
    pub fn word(&self, index: WordIndex) -> (r: Option<&str>)
        requires
            self.wf(),
        ensures
            match r {
                Some(s) => index < self.words().len() && s@ == self.words()[index as int],
                None => index >= self.words().len(),
            },
    {
        if (index as usize) < self.index_to_word.len() {
            Some(self.index_to_word[index as usize].as_str())
        } else {
            None
        }
    }
}

/// What a word's addition does to the words of a vocabulary, as `add_word` states it: a known
/// word leaves them as they are and `r` is its position; a new word is appended at `r`.
pub open spec fn probing_added(
    before: ProbingVocabulary,
    after: ProbingVocabulary,
    w: Seq<char>,
    r: WordIndex,
) -> bool {
    &&& before.words().contains(w) ==> after.words() == before.words() && r < before.words().len()
        && before.words()[r as int] == w
    &&& !before.words().contains(w) ==> after.words() == before.words().push(w) && r
        == before.words().len()
}

/// The index a vocabulary holding `words` gives `w` when `w` is added: its position, or the
/// next one for a new word.
pub open spec fn vocab_id(words: Seq<Seq<char>>, w: Seq<char>) -> u32 {
    if words.contains(w) {
        words.index_of(w) as u32
    } else {
        words.len() as u32
    }
}

/// The words of the vocabulary once `w` is added.
pub open spec fn vocab_learn(words: Seq<Seq<char>>, w: Seq<char>) -> Seq<Seq<char>> {
    if words.contains(w) {
        words
    } else {
        words.push(w)
    }
}

/// In the terms of `vocab_id` and `vocab_learn`: what `add_word` gives and leaves.
pub proof fn lemma_added_is_learned(
    before: ProbingVocabulary,
    after: ProbingVocabulary,
    w: Seq<char>,
    r: WordIndex,
)
    requires
        before.wf(),
        probing_added(before, after, w, r),
    ensures
        r == vocab_id(before.words(), w),
        after.words() == vocab_learn(before.words(), w),
{
    if before.words().contains(w) {
        before.lemma_index_of_stored(r as int);
    }
}

/// Looking a word up after adding it gives back the index that adding it returned.
pub proof fn law_probing_index_after_add(
    before: ProbingVocabulary,
    after: ProbingVocabulary,
    w: Seq<char>,
    r: WordIndex,
)
    requires
        after.wf(),
        probing_added(before, after, w, r),
    ensures
        after.words().contains(w),
        after.spec_index(w) == r,
{
    assert(after.words()[r as int] == w);
    after.lemma_index_of_stored(r as int);
}

/// Adding the same word twice gives the same index both times and adds nothing the second
/// time.
pub proof fn law_probing_add_twice(
    first: ProbingVocabulary,
    second: ProbingVocabulary,
    third: ProbingVocabulary,
    w: Seq<char>,
    r1: WordIndex,
    r2: WordIndex,
)
    requires
        second.wf(),
        probing_added(first, second, w, r1),
        probing_added(second, third, w, r2),
    ensures
        r2 == r1,
        third.words() == second.words(),
{
    assert(second.words()[r1 as int] == w);
    assert(second.words().contains(w));
    second.lemma_words_distinct(r1 as int, r2 as int);
}

impl Vocabulary for ProbingVocabulary {
    open spec fn bos_index(&self) -> WordIndex {
        self.base().spec_begin_sentence()
    }

    open spec fn eos_index(&self) -> WordIndex {
        self.base().spec_end_sentence()
    }

    open spec fn not_found_index(&self) -> WordIndex {
        self.base().spec_not_found()
    }

    open spec fn accepts_words(&self) -> bool {
        self.wf() && self.words().len() + 1 < u32::MAX
    }

    fn begin_sentence(&self) -> (r: WordIndex)
        ensures
            r == self.base().spec_begin_sentence(),
    {
        self.base.begin_sentence()
    }

    fn end_sentence(&self) -> (r: WordIndex)
        ensures
            r == self.base().spec_end_sentence(),
    {
        self.base.end_sentence()
    }

    fn not_found(&self) -> (r: WordIndex)
        ensures
            r == self.base().spec_not_found(),
    {
        self.base.not_found()
    }

    /// The index of the word, or `not_found` when it is not in the vocabulary.
    open spec fn index_outcome(&self, word: Seq<char>, r: WordIndex, after: Self) -> bool {
        &&& after == *self
        &&& self.wf() ==> r == self.spec_index(word)
    }

    fn index(&mut self, str: &str) -> (r: WordIndex)
        ensures
            *final(self) == *old(self),
            old(self).wf() && old(self).words().contains(str@) ==> r < old(self).words().len()
                && old(self).words()[r as int] == str@,
            old(self).wf() && !old(self).words().contains(str@) ==> r == old(self).base().spec_not_found(),
            old(self).wf() ==> r == old(self).spec_index(str@),
    {
        let h = hash_for_vocab(str);
        assert(h == word_hash(str@)) by {
            reveal(word_hash);
        }
        if let Some(bucket) = self.buckets.get(&h) {
            let found = self.find_in_bucket(bucket, str);
            if let Some(i) = found {
                proof {
                    if self.wf() {
                        self.lemma_index_of_stored(i as int);
                    }
                }
                return i;
            }
            proof {
                if self.wf() && self.words().contains(str@) {
                    let i = choose|i: int| 0 <= i < self.words().len() && self.words()[i] == str@;
                    assert(filed(self.buckets@, self.words()[i], i));
                    let b = self.buckets@[h]@;
                    let k = choose|k: int| 0 <= k < b.len() && b[k] == i as u32;
                    assert(self.words()[b[k] as int] != str@);
                }
            }
        } else {
            proof {
                if self.wf() && self.words().contains(str@) {
                    let i = choose|i: int| 0 <= i < self.words().len() && self.words()[i] == str@;
                    assert(filed(self.buckets@, self.words()[i], i));
                }
            }
        }
        self.base.not_found()
    }

    fn set_special(&mut self, begin_sentence: WordIndex, end_sentence: WordIndex, not_found: WordIndex)
        ensures
            final(self).base().spec_begin_sentence() == begin_sentence,
            final(self).base().spec_end_sentence() == end_sentence,
            final(self).base().spec_not_found() == not_found,
            final(self).words() == old(self).words(),
            old(self).wf() ==> final(self).wf(),
    {
        self.base.set_special(begin_sentence, end_sentence, not_found);
    }

    fn bound(&self) -> (r: WordIndex)
        ensures
            r == self.base().spec_bound(),
            self.wf() ==> r == if self.words().len() > 3 { self.words().len() } else { 3 },
    {
        self.base.bound()
    }

    fn saw_unk(&self) -> (r: bool)
        ensures
            r == self.base().spec_saw_unk(),
    {
        self.base.saw_unk()
    }

    fn add_word(&mut self, word: &str) -> (r: WordIndex)
        ensures
            final(self).wf(),
            probing_added(*old(self), *final(self), word@, r),
    {
        ProbingVocabulary::add_word(self, word)
    }
}

impl Default for ProbingVocabulary {
    fn default() -> (r: Self)
        ensures
            r.wf(),
            r.words() == Seq::<Seq<char>>::empty(),
    {
        Self::new()
    }
}

/// Vocabulary over a sorted array of word hashes: word `i` (in insertion order, or in hash
/// order once sorted) has index `i + 1`; index 0 is `<unk>`.
pub struct SortedVocabulary {
    base: BaseVocabulary,
    hashes: Vec<u64>,
    strings: Vec<String>,
    sorted: bool,
}

/// Whether `perm` lists each of `0..n` exactly once.
pub open spec fn is_permutation(perm: Seq<int>, n: int) -> bool {
    &&& perm.len() == n
    &&& forall|k: int| 0 <= k < n ==> 0 <= #[trigger] perm[k] < n
    &&& forall|k: int, l: int| 0 <= k < l < n ==> perm[k] != perm[l]
    &&& forall|i: int| 0 <= i < n ==> #[trigger] lists(perm, i)
}

/// Whether `i` occurs in `perm`.
pub open spec fn lists(perm: Seq<int>, i: int) -> bool {
    exists|k: int| 0 <= k < perm.len() && perm[k] == i
}

/// Whether `after` holds the hashes and words of `before`, each pair kept together, in some
/// order.
pub open spec fn reordered(before: SortedVocabulary, after: SortedVocabulary) -> bool {
    &&& after.hashes().len() == before.hashes().len()
    &&& after.words().len() == before.words().len()
    &&& exists|perm: Seq<int>|
        #[trigger] is_permutation(perm, before.hashes().len() as int) && forall|k: int|
            0 <= k < perm.len() ==> after.hashes()[k] == before.hashes()[#[trigger] perm[k]]
                && after.words()[k] == before.words()[perm[k]]
}

impl SortedVocabulary {
    /// The stored word hashes, in index order.
    pub closed spec fn hashes(&self) -> Seq<u64> {
        self.hashes@
    }

    /// The stored words, in index order.
    pub closed spec fn words(&self) -> Seq<Seq<char>> {
        self.strings@.map_values(|s: String| s@)
    }

    /// Whether the hashes are known to be in order.
    pub closed spec fn is_sorted(&self) -> bool {
        self.sorted
    }

    pub closed spec fn base(&self) -> BaseVocabulary {
        self.base
    }

    /// Invariant: one hash per word, the hash of that word and never an unknown-word hash;
    /// sorted hashes when so marked; bound 3 while empty and one past the last index after.
    pub closed spec fn wf(&self) -> bool {
        &&& self.hashes@.len() == self.strings@.len()
        &&& self.hashes@.len() + 1 < u32::MAX
        &&& forall|i: int| 0 <= i < self.hashes@.len() ==> #[trigger] self.hashes@[i] == word_hash(self.words()[i])
        &&& forall|i: int| 0 <= i < self.hashes@.len() ==> !is_unk_hash(#[trigger] self.hashes@[i])
        &&& self.sorted ==> forall|i: int, j: int| 0 <= i <= j < self.hashes@.len() ==> self.hashes@[i] <= self.hashes@[j]
        &&& self.base.bound == if self.hashes@.len() == 0 {
            3
        } else {
            self.hashes@.len() + 1
        }
    }

    /// In a well-formed vocabulary each stored hash is the hash of its word, and no stored word
    /// hashes like an unknown-word marker.
    pub proof fn lemma_hash_of_word(&self, i: int)
        requires
            self.wf(),
            0 <= i < self.words().len(),
        ensures
            self.hashes().len() == self.words().len(),
            self.hashes()[i] == word_hash(self.words()[i]),
            !is_unk_hash(self.hashes()[i]),
    {
    }

    /// An empty vocabulary with the standard special indices.
    pub fn new() -> (r: Self)
        ensures
            r.wf(),
            r.hashes() == Seq::<u64>::empty(),
            r.words() == Seq::<Seq<char>>::empty(),
            !r.is_sorted(),
            r.base().spec_begin_sentence() == BOS_WORD,
            r.base().spec_end_sentence() == EOS_WORD,
            r.base().spec_not_found() == UNK_WORD,
            r.base().spec_bound() == 3,
            !r.base().spec_saw_unk(),
    {
        let r = Self { base: BaseVocabulary::new(), hashes: Vec::new(), strings: Vec::new(), sorted: false };
        assert(r.words() =~= Seq::<Seq<char>>::empty());
        r
    }

    /// Inserts `word` while loading and returns its index (1-based; 0 for `<unk>`/`<UNK>`,
    /// which only records that the unknown word was seen).
    pub fn insert(&mut self, word: &str) -> (r: WordIndex)
        requires
            old(self).wf(),
            old(self).hashes().len() + 2 < u32::MAX,
        ensures
            final(self).wf(),
            final(self).base().spec_begin_sentence() == old(self).base().spec_begin_sentence(),
            final(self).base().spec_end_sentence() == old(self).base().spec_end_sentence(),
            final(self).base().spec_not_found() == old(self).base().spec_not_found(),
            is_unk_hash(word_hash(word@)) ==> r == 0 && final(self).base().spec_saw_unk()
                && final(self).hashes() == old(self).hashes() && final(self).words() == old(self).words()
                && final(self).is_sorted() == old(self).is_sorted(),
            is_unk_hash(word_hash(word@)) ==> final(self).base().spec_bound() == old(self).base().spec_bound(),
            !is_unk_hash(word_hash(word@)) ==> r == old(self).hashes().len() + 1
                && final(self).hashes() == old(self).hashes().push(word_hash(word@))
                && final(self).words() == old(self).words().push(word@)
                && !final(self).is_sorted()
                && final(self).base().spec_saw_unk() == old(self).base().spec_saw_unk()
                && final(self).base().spec_bound() == old(self).hashes().len() + 2,
    {
        let hash = hash_for_vocab(word);
        assert(hash == word_hash(word@)) by {
            reveal(word_hash);
        }
        if hash == UNKNOWN_HASH || hash == UNKNOWN_CAP_HASH {
            self.base.set_saw_unk(true);
            return 0;
        }
        let ghost old_words = self.words();
        self.hashes.push(hash);
        self.strings.push(word.to_owned());
        self.sorted = false;
        let index = self.hashes.len() as WordIndex;
        self.base.set_bound(index + 1);
        assert(self.words() =~= old_words.push(word@));
        index
    }

    /// Adds `word` unless it is already there: a word whose hash is stored keeps its index
    /// and leaves the vocabulary as it was; an unknown-word marker gives 0 and is recorded;
    /// any other word is inserted.
    pub fn add_word(&mut self, word: &str) -> (r: WordIndex)
        requires
            old(self).wf(),
            old(self).hashes().len() + 2 < u32::MAX,
        ensures
            final(self).wf(),
            is_unk_hash(word_hash(word@)) ==> r == 0 && final(self).base().spec_saw_unk()
                && final(self).hashes() == old(self).hashes() && final(self).words() == old(self).words()
                && final(self).base().spec_bound() == old(self).base().spec_bound(),
            !is_unk_hash(word_hash(word@)) && old(self).hashes().contains(word_hash(word@)) ==> *final(self)
                == *old(self) && 1 <= r <= old(self).hashes().len() && old(self).hashes()[r - 1] == word_hash(
                word@,
            ),
            !is_unk_hash(word_hash(word@)) && !old(self).hashes().contains(word_hash(word@)) ==> r
                == old(self).hashes().len() + 1 && final(self).hashes() == old(self).hashes().push(
                word_hash(word@),
            ) && final(self).words() == old(self).words().push(word@) && final(self).base().spec_bound()
                == old(self).hashes().len() + 2,
    {
        let hash = hash_for_vocab(word);
        assert(hash == word_hash(word@)) by {
            reveal(word_hash);
        }
        if hash == UNKNOWN_HASH || hash == UNKNOWN_CAP_HASH {
            return self.insert(word);
        }
        let found = self.lookup(word);
        if found >= 1 && (found as usize) <= self.hashes.len() && self.hashes[(found - 1) as usize] == hash {
            proof {
                assert(self.hashes()[found - 1] == word_hash(word@));
            }
            return found;
        }
        self.insert(word)
    }

    /// Index of a word: 0 for the unknown-word markers, `i + 1` for a word whose hash is
    /// `hashes[i]` (the first such `i` while unsorted), else `not_found`.
    fn lookup(&self, str: &str) -> (r: WordIndex)
        ensures
            is_unk_hash(word_hash(str@)) ==> r == 0,
            self.wf() && !is_unk_hash(word_hash(str@)) && !self.hashes().contains(word_hash(str@)) ==> r
                == self.base().spec_not_found(),
            self.wf() && !is_unk_hash(word_hash(str@)) && self.hashes().contains(word_hash(str@)) ==> 1 <= r <= self.hashes().len()
                && self.hashes()[r - 1] == word_hash(str@) && (!self.is_sorted() ==> forall|j: int|
                0 <= j < r - 1 ==> self.hashes()[j] != word_hash(str@)),
    {
        let hash = hash_for_vocab(str);
        assert(hash == word_hash(str@)) by {
            reveal(word_hash);
        }
        if hash == UNKNOWN_HASH || hash == UNKNOWN_CAP_HASH {
            return 0;
        }
        if !self.sorted {
            let mut i: usize = 0;
            while i < self.hashes.len()
                invariant
                    hash == word_hash(str@),
                    !is_unk_hash(hash),
                    i <= self.hashes@.len(),
                    forall|j: int| 0 <= j < i ==> self.hashes@[j] != hash,
                decreases self.hashes@.len() - i,
            {
                if self.hashes[i] == hash {
                    return (i + 1) as WordIndex;
                }
                i = i + 1;
            }
        } else {
            let mut lo: usize = 0;
            let mut hi: usize = self.hashes.len();
            while lo < hi
                invariant
                    self.sorted,
                    hash == word_hash(str@),
                    !is_unk_hash(hash),
                    lo <= hi <= self.hashes@.len(),
                    self.wf() ==> forall|j: int| 0 <= j < lo ==> self.hashes@[j] < hash,
                    self.wf() ==> forall|j: int| hi <= j < self.hashes@.len() ==> self.hashes@[j] > hash,
                decreases hi - lo,
            {
                let mid = lo + (hi - lo) / 2;
                let v = self.hashes[mid];
                if v < hash {
                    lo = mid + 1;
                } else if v > hash {
                    hi = mid;
                } else {
                    return (mid + 1) as WordIndex;
                }
            }
        }
        self.base.not_found()
    }

    /// Sorts the words by hash for binary search; does nothing when already sorted.
    pub fn finished_loading(&mut self)
        requires
            old(self).wf(),
        ensures
            final(self).wf(),
            final(self).is_sorted(),
            final(self).base() == old(self).base(),
            final(self).hashes().len() == old(self).hashes().len(),
            old(self).is_sorted() ==> final(self).hashes() == old(self).hashes() && final(self).words()
                == old(self).words(),
            reordered(*old(self), *final(self)),
    {
        let n = self.hashes.len();
        if self.sorted {
            let ghost id = Seq::new(n as nat, |i: int| i);
            assert forall|i: int| 0 <= i < n implies #[trigger] lists(id, i) by {
                assert(id[i] == i);
            }
            assert(is_permutation(id, n as int));
            return;
        }
        let mut pairs: Vec<(u64, u64)> = Vec::new();
        let mut i: usize = 0;
        while i < n
            invariant
                n == self.hashes@.len(),
                i <= n,
                pairs@.len() == i,
                forall|k: int| 0 <= k < i ==> #[trigger] pairs@[k] == (self.hashes@[k], k as u64),
            decreases n - i,
        {
            pairs.push((self.hashes[i], i as u64));
            i = i + 1;
        }
        let ghost before = pairs@;
        proof {
            assert(before.no_duplicates()) by {
                assert forall|a: int, b: int| 0 <= a < before.len() && 0 <= b < before.len() && a != b implies before[a] != before[b] by {
                    assert(before[a].1 == a as u64);
                    assert(before[b].1 == b as u64);
                }
            }
            before.lemma_multiset_has_no_duplicates();
        }
        sort_pairs(&mut pairs);
        let ghost after = pairs@;
        proof {
            before.to_multiset_ensures();
            after.to_multiset_ensures();
            assert forall|x: (u64, u64)| after.to_multiset().contains(x) implies after.to_multiset().count(x) == 1 by {
                assert(before.to_multiset().contains(x));
            }
            after.lemma_multiset_has_no_duplicates_conv();
            assert forall|k: int| 0 <= k < after.len() implies (#[trigger] after[k]).1 < n
                && after[k].0 == self.hashes@[after[k].1 as int] by {
                assert(after.to_multiset().count(after[k]) > 0);
                assert(before.contains(after[k]));
                let j = choose|j: int| 0 <= j < before.len() && before[j] == after[k];
                assert(before[j] == (self.hashes@[j], j as u64));
            }
        }
        let mut new_hashes: Vec<u64> = Vec::new();
        let mut new_strings: Vec<String> = Vec::new();
        let mut k: usize = 0;
        while k < n
            invariant
                n == self.hashes@.len(),
                n == self.strings@.len(),
                pairs@ == after,
                after.len() == n,
                forall|k: int| 0 <= k < after.len() ==> (#[trigger] after[k]).1 < n
                    && after[k].0 == self.hashes@[after[k].1 as int],
                k <= n,
                new_hashes@.len() == k,
                new_strings@.len() == k,
                forall|j: int| 0 <= j < k ==> #[trigger] new_hashes@[j] == self.hashes@[after[j].1 as int],
                forall|j: int| 0 <= j < k ==> (#[trigger] new_strings@[j])@ == self.strings@[after[j].1 as int]@,
            decreases n - k,
        {
            let (h, j) = pairs[k];
            new_hashes.push(h);
            new_strings.push(self.strings[j as usize].clone());
            k = k + 1;
        }
        let ghost old_self_words = self.words();
        let ghost old_hashes = self.hashes@;
        self.hashes = new_hashes;
        self.strings = new_strings;
        self.sorted = true;
        proof {
            let perm = Seq::new(n as nat, |k: int| after[k].1 as int);
            assert forall|k: int, l: int| 0 <= k < l < perm.len() implies perm[k] != perm[l] by {
                assert(after[k] != after[l]);
                if perm[k] == perm[l] {
                    assert(after[k].0 == old_hashes[perm[k]]);
                    assert(after[l].0 == old_hashes[perm[l]]);
                    assert(after[k] == after[l]);
                }
            }
            assert forall|k: int| 0 <= k < perm.len() implies self.hashes@[k] == old_hashes[#[trigger] perm[k]]
                && self.words()[k] == old_self_words[perm[k]] by {}
            assert forall|a: int, b: int| 0 <= a <= b < self.hashes@.len() implies self.hashes@[a] <= self.hashes@[b] by {
                if a < b {
                    assert(pair_le(after[a], after[b]));
                }
            }
            assert forall|a: int| 0 <= a < self.hashes@.len() implies #[trigger] self.hashes@[a] == word_hash(self.words()[a]) by {
                assert(old_hashes[perm[a]] == word_hash(old_self_words[perm[a]]));
            }
            assert forall|a: int| 0 <= a < self.hashes@.len() implies !is_unk_hash(#[trigger] self.hashes@[a]) by {
                assert(!is_unk_hash(old_hashes[perm[a]]));
            }
            assert forall|i: int| 0 <= i < n implies #[trigger] lists(perm, i) by {
                assert(before[i] == (old_hashes[i], i as u64));
                assert(before.to_multiset().count(before[i]) > 0);
                assert(after.contains(before[i]));
                let k = choose|k: int| 0 <= k < after.len() && after[k] == before[i];
                assert(perm[k] == i);
            }
            assert(is_permutation(perm, n as int));
            assert(old(self).hashes() == old_hashes);
            assert(old(self).words() == old_self_words);
            assert(reordered(*old(self), *self));
        }
    }

    /// Same as `finished_loading`.
    pub fn sort(&mut self)
        requires
            old(self).wf(),
        ensures
            final(self).wf(),
            final(self).is_sorted(),
            final(self).hashes().len() == old(self).hashes().len(),
    {
        self.finished_loading();
    }

    /// The word of an index: `<unk>` for 0, the stored word `index - 1` otherwise.
    pub fn word(&self, index: WordIndex) -> (r: Option<&str>)
        requires
            self.wf(),
        ensures
            index == 0 ==> (r matches Some(s) && s@ == "<unk>"@),
            index > 0 && index <= self.words().len() ==> (r matches Some(s) && s@ == self.words()[index - 1]),
            index > self.words().len() ==> r is None,
    {
        if index == 0 {
            Some("<unk>")
        } else if ((index - 1) as usize) < self.strings.len() {
            Some(self.strings[(index - 1) as usize].as_str())
        } else {
            None
        }
    }

    /// Number of words, counting `<unk>`.
    pub fn size(&self) -> (r: WordIndex)
        requires
            self.wf(),
        ensures
            r == self.hashes().len() + 1,
    {
        (self.hashes.len() + 1) as WordIndex
    }
}

/// Sorting the vocabulary loses no word: every word stored before `finished_loading` is still
/// stored after it, and its hash is among the sorted hashes that `index` searches.
pub proof fn law_sorted_finish_keeps_words(before: SortedVocabulary, after: SortedVocabulary, w: Seq<char>)
    requires
        before.wf(),
        after.wf(),
        reordered(before, after),
        before.words().contains(w),
    ensures
        after.words().contains(w),
        after.hashes().contains(word_hash(w)),
        !is_unk_hash(word_hash(w)),
{
    let perm = choose|perm: Seq<int>|
        #[trigger] is_permutation(perm, before.hashes().len() as int) && forall|k: int|
            0 <= k < perm.len() ==> after.hashes()[k] == before.hashes()[#[trigger] perm[k]]
                && after.words()[k] == before.words()[perm[k]];
    let i = choose|i: int| 0 <= i < before.words().len() && before.words()[i] == w;
    assert(before.hashes()[i] == word_hash(before.words()[i])) by {
        before.lemma_hash_of_word(i);
    }
    assert(lists(perm, i));
    let k = choose|k: int| 0 <= k < perm.len() && perm[k] == i;
    assert(after.words()[k] == w);
    assert(after.hashes()[k] == word_hash(w));
}

/// A word that `insert` appended is found again: its hash sits at the index that `insert`
/// returned, and while the hashes are unsorted no earlier entry shares it unless an earlier word
/// hashed the same.
pub proof fn law_sorted_index_after_insert(before: SortedVocabulary, after: SortedVocabulary, w: Seq<char>, r: WordIndex)
    requires
        !is_unk_hash(word_hash(w)),
        r == before.hashes().len() + 1,
        after.hashes() == before.hashes().push(word_hash(w)),
    ensures
        1 <= r <= after.hashes().len(),
        after.hashes()[r - 1] == word_hash(w),
        !before.hashes().contains(word_hash(w)) ==> forall|j: int|
            0 <= j < r - 1 ==> after.hashes()[j] != word_hash(w),
{
    if !before.hashes().contains(word_hash(w)) {
        assert forall|j: int| 0 <= j < r - 1 implies after.hashes()[j] != word_hash(w) by {
            assert(after.hashes()[j] == before.hashes()[j]);
        }
    }
}

impl Vocabulary for SortedVocabulary {
    open spec fn bos_index(&self) -> WordIndex {
        self.base().spec_begin_sentence()
    }

    open spec fn eos_index(&self) -> WordIndex {
        self.base().spec_end_sentence()
    }

    open spec fn not_found_index(&self) -> WordIndex {
        self.base().spec_not_found()
    }

    open spec fn accepts_words(&self) -> bool {
        self.wf() && self.hashes().len() + 2 < u32::MAX
    }

    fn begin_sentence(&self) -> (r: WordIndex)
        ensures
            r == self.base().spec_begin_sentence(),
    {
        self.base.begin_sentence()
    }

    fn end_sentence(&self) -> (r: WordIndex)
        ensures
            r == self.base().spec_end_sentence(),
    {
        self.base.end_sentence()
    }

    fn not_found(&self) -> (r: WordIndex)
        ensures
            r == self.base().spec_not_found(),
    {
        self.base.not_found()
    }

    /// Index of a word: 0 for the unknown-word markers, whose sighting is recorded, `i + 1`
    /// for a word whose hash is `hashes[i]` (the first such `i` while unsorted), else
    /// `not_found`.
    open spec fn index_outcome(&self, word: Seq<char>, r: WordIndex, after: Self) -> bool {
        &&& self.wf() ==> after.wf()
        &&& after.hashes() == self.hashes()
        &&& after.words() == self.words()
        &&& after.is_sorted() == self.is_sorted()
        &&& after.base().spec_not_found() == self.base().spec_not_found()
        &&& after.base().spec_saw_unk() == (self.base().spec_saw_unk() || is_unk_hash(word_hash(word)))
        &&& is_unk_hash(word_hash(word)) ==> r == 0
        &&& self.wf() && !is_unk_hash(word_hash(word)) && !self.hashes().contains(word_hash(word)) ==> r == self.base().spec_not_found()
        &&& self.wf() && !is_unk_hash(word_hash(word)) && self.hashes().contains(word_hash(word)) ==> 1 <= r <= self.hashes().len() && self.hashes()[r - 1] == word_hash(word) && ( !self.is_sorted() ==> forall|j: int| 0 <= j < r - 1 ==> self.hashes()[j] != word_hash(word))
    }

    fn index(&mut self, str: &str) -> (r: WordIndex)
        ensures
            old(self).wf() ==> final(self).wf(),
            final(self).hashes() == old(self).hashes(),
            final(self).words() == old(self).words(),
            final(self).is_sorted() == old(self).is_sorted(),
            final(self).base().spec_not_found() == old(self).base().spec_not_found(),
            final(self).base().spec_saw_unk() == (old(self).base().spec_saw_unk() || is_unk_hash(word_hash(str@))),
            is_unk_hash(word_hash(str@)) ==> r == 0,
            old(self).wf() && !is_unk_hash(word_hash(str@)) && !old(self).hashes().contains(word_hash(str@)) ==> r
                == old(self).base().spec_not_found(),
            old(self).wf() && !is_unk_hash(word_hash(str@)) && old(self).hashes().contains(word_hash(str@)) ==> 1 <= r
                <= old(self).hashes().len() && old(self).hashes()[r - 1] == word_hash(str@) && (
            !old(self).is_sorted() ==> forall|j: int|
                0 <= j < r - 1 ==> old(self).hashes()[j] != word_hash(str@)),
    {
        let r = self.lookup(str);
        let hash = hash_for_vocab(str);
        assert(hash == word_hash(str@)) by {
            reveal(word_hash);
        }
        if hash == UNKNOWN_HASH || hash == UNKNOWN_CAP_HASH {
            self.base.set_saw_unk(true);
        }
        r
    }

    fn set_special(&mut self, begin_sentence: WordIndex, end_sentence: WordIndex, not_found: WordIndex)
        ensures
            final(self).base().spec_begin_sentence() == begin_sentence,
            final(self).base().spec_end_sentence() == end_sentence,
            final(self).base().spec_not_found() == not_found,
            final(self).hashes() == old(self).hashes(),
            final(self).words() == old(self).words(),
            old(self).wf() ==> final(self).wf(),
    {
        self.base.set_special(begin_sentence, end_sentence, not_found);
    }

    fn bound(&self) -> (r: WordIndex)
        ensures
            r == self.base().spec_bound(),
    {
        self.base.bound()
    }

    fn saw_unk(&self) -> (r: bool)
        ensures
            r == self.base().spec_saw_unk(),
    {
        self.base.saw_unk()
    }

    fn add_word(&mut self, word: &str) -> (r: WordIndex)
        ensures
            final(self).wf(),
            is_unk_hash(word_hash(word@)) ==> r == 0 && final(self).words() == old(self).words(),
            !is_unk_hash(word_hash(word@)) && old(self).hashes().contains(word_hash(word@)) ==> *final(self)
                == *old(self) && 1 <= r <= old(self).hashes().len() && old(self).hashes()[r - 1] == word_hash(
                word@,
            ),
            !is_unk_hash(word_hash(word@)) && !old(self).hashes().contains(word_hash(word@)) ==> r
                == old(self).hashes().len() + 1 && final(self).words() == old(self).words().push(word@),
    {
        SortedVocabulary::add_word(self, word)
    }
}

impl Default for SortedVocabulary {
    fn default() -> (r: Self)
        ensures
            r.wf(),
            r.hashes() == Seq::<u64>::empty(),
    {
        Self::new()
    }
}

} // verus!
