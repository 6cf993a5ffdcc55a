//! What the models ask of their vocabularies, and the sign-bit encodings that the models
//! keep in the bit patterns of their stored weights.
use vstd::prelude::*;
use crate::vocabulary::{ProbingVocabulary, SortedVocabulary, Vocabulary};
use crate::search::{spec_combine_word_hash, HashedSearch, ProbBackoffBits};
use crate::types::{FullScoreReturn, State, WordIndex};

verus! {

/// Vocabularies that can report their size.
pub trait VocabularySize {
    /// Whether the size can be read in this state.
    spec fn size_ready(&self) -> bool;

    spec fn spec_vocab_size(&self) -> nat;

    fn vocab_size(&self) -> (r: usize)
        requires
            self.size_ready(),
        ensures
            r == self.spec_vocab_size(),
    ;
}

impl VocabularySize for ProbingVocabulary {
    open spec fn size_ready(&self) -> bool {
        true
    }

    /// The bound of the vocabulary.
    open spec fn spec_vocab_size(&self) -> nat {
        self.base().spec_bound() as nat
    }

    fn vocab_size(&self) -> (r: usize) {
        self.bound() as usize
    }
}

impl VocabularySize for SortedVocabulary {
    open spec fn size_ready(&self) -> bool {
        self.wf()
    }

    /// One more than the number of words (index 0 is the unknown word).
    open spec fn spec_vocab_size(&self) -> nat {
        (self.hashes().len() + 1) as nat
    }

    fn vocab_size(&self) -> (r: usize) {
        self.size() as usize
    }
}

/// Vocabularies that can be created empty.
pub trait VocabularyNew: Sized {
    spec fn is_fresh(&self) -> bool;

    fn new() -> (r: Self)
        ensures
            r.is_fresh(),
    ;
}

impl VocabularyNew for ProbingVocabulary {
    /// Well formed and without words.
    open spec fn is_fresh(&self) -> bool {
        self.wf() && self.words().len() == 0
    }

    fn new() -> (r: Self) {
        ProbingVocabulary::new()
    }
}

impl VocabularyNew for SortedVocabulary {
    /// Well formed and without words.
    open spec fn is_fresh(&self) -> bool {
        self.wf() && self.words().len() == 0 && self.hashes().len() == 0
    }

    fn new() -> (r: Self) {
        SortedVocabulary::new()
    }
}

} // verus!

verus! {

/// The sign bit of an IEEE 754 single.
pub open spec fn sign_bit() -> u32 {
    0x8000_0000u32
}

/// Whether the sign bit of the single with bits `bits` is set.
pub open spec fn sign_set(bits: u32) -> bool {
    bits >= sign_bit()
}

/// The bits of a single apart from its sign bit.
pub open spec fn magnitude(bits: u32) -> u32 {
    (bits % sign_bit()) as u32
}

/// The bits with the sign bit set.
pub open spec fn with_sign(bits: u32) -> u32 {
    (magnitude(bits) + sign_bit()) as u32
}

proof fn lemma_sign_bits(bits: u32)
    ensures
        bits | 0x8000_0000u32 == with_sign(bits),
        bits & 0x7fff_ffffu32 == magnitude(bits),
        (bits & 0x8000_0000u32 != 0) == sign_set(bits),
{
    assert(bits | 0x8000_0000u32 == (bits % 0x8000_0000u32) + 0x8000_0000u32) by (bit_vector);
    assert(bits & 0x7fff_ffffu32 == bits % 0x8000_0000u32) by (bit_vector);
    assert((bits & 0x8000_0000u32 != 0) == (bits >= 0x8000_0000u32)) by (bit_vector);
}

/// Whether a backoff, given by its bits, says that a longer n-gram extends its context:
/// every value but -0.0 (bits `0x80000000`) does, +0.0 included.
pub fn has_extension(backoff: u32) -> (r: bool)
    ensures
        r == (backoff != sign_bit()),
{
    backoff != 0x8000_0000u32
}

/// Records that a longer n-gram extends the context whose backoff has bits `backoff`:
/// -0.0 becomes +0.0; any other value stays.
pub fn set_extension(backoff: &mut u32)
    ensures
        *final(backoff) == if *old(backoff) == sign_bit() {
            0u32
        } else {
            *old(backoff)
        },
{
    if *backoff == 0x8000_0000u32 {
        *backoff = 0;
    }
}

/// Sets the sign bit of a stored probability: no longer n-gram extends this one to the
/// left.
pub fn mark_independent(prob: u32) -> (r: u32)
    ensures
        r == with_sign(prob),
        sign_set(r),
        magnitude(r) == magnitude(prob),
{
    proof {
        lemma_sign_bits(prob);
    }
    prob | 0x8000_0000u32
}

/// Clears the sign bit of a stored probability: some longer n-gram extends this one to the
/// left.
pub fn mark_extends_left(prob: u32) -> (r: u32)
    ensures
        r == magnitude(prob),
        !sign_set(r),
{
    proof {
        lemma_sign_bits(prob);
    }
    prob & 0x7fff_ffffu32
}

/// Whether the stored probability says that the search for a longer context may stop here.
pub fn is_independent_left(prob: u32) -> (r: bool)
    ensures
        r == sign_set(prob),
{
    proof {
        lemma_sign_bits(prob);
    }
    prob & 0x8000_0000u32 != 0
}

/// The probability to score with: the stored one with its sign bit set again, so that it is
/// the negative log probability that was read.
pub fn scoring_prob(stored_prob: u32) -> (r: u32)
    ensures
        r == with_sign(stored_prob),
        sign_set(r),
{
    proof {
        lemma_sign_bits(stored_prob);
    }
    stored_prob | 0x8000_0000u32
}

/// Marking a probability as extended and scoring it gives back the probability that was
/// stored as independent: the sign bit is all that the marks change.
pub proof fn law_marks_keep_score(prob: u32)
    ensures
        with_sign(magnitude(with_sign(prob))) == with_sign(prob),
        with_sign(magnitude(prob)) == with_sign(prob),
        sign_set(prob) ==> with_sign(prob) == prob,
{
}

} // verus!

verus! {

/// The scan of the context while a word is scored: the result so far, the node reached,
/// the length of context to keep, the state's backoffs, and whether the scan goes on (0),
/// stopped (1), or reached the highest order (2).
pub type Scan = (FullScoreReturn, u64, u8, Seq<u32>, int);

/// The weights that a unigram lookup of `w` gives: its own, or those of the unknown word.
pub open spec fn unigram_entry(unigrams: Seq<ProbBackoffBits>, unknown: ProbBackoffBits, w: WordIndex) -> ProbBackoffBits {
    if w < unigrams.len() {
        unigrams[w as int]
    } else {
        unknown
    }
}

/// One step of the scan, at context word `i`: stop when the last match is independent of
/// the left; reach the highest order when every middle table was matched; else look the
/// longer n-gram up in table `i`, stop when it is missing, and take its weights when found.
pub open spec fn scan_step(ms: Seq<Map<u64, ProbBackoffBits>>, ctx: Seq<WordIndex>, i: int, s: Scan) -> Scan {
    let (ret, node, len, bo, phase) = s;
    if phase != 0 {
        s
    } else if ret.independent_left {
        (ret, node, len, bo, 1)
    } else if i == ms.len() {
        (ret, node, len, bo, 2)
    } else {
        let key = spec_combine_word_hash(node, ctx[i]);
        if !ms[i].contains_key(key) {
            (FullScoreReturn { independent_left: false, extend_left: key, ..ret }, key, len, bo, 1)
        } else {
            let e = ms[i][key];
            (
                FullScoreReturn {
                    prob: with_sign(e.prob),
                    rest: e.prob,
                    ngram_length: (i + 2) as u8,
                    independent_left: sign_set(e.prob),
                    extend_left: key,
                },
                key,
                if e.backoff != sign_bit() {
                    (i + 2) as u8
                } else {
                    len
                },
                bo.update(i + 1, e.backoff),
                0,
            )
        }
    }
}

/// The scan after the first `k` context words.
pub open spec fn scan(ms: Seq<Map<u64, ProbBackoffBits>>, ctx: Seq<WordIndex>, k: int, s: Scan) -> Scan
    decreases k,
{
    if k <= 0 {
        s
    } else {
        scan_step(ms, ctx, k - 1, scan(ms, ctx, k - 1, s))
    }
}

/// The scan keeps a matched length of at least 1 and a context length of at most 5, and it
/// goes on only while there are middle tables left.
pub proof fn lemma_scan_bounds(ms: Seq<Map<u64, ProbBackoffBits>>, ctx: Seq<WordIndex>, k: int, s: Scan)
    requires
        ms.len() <= 4,
        s.4 == 0,
        1 <= s.0.ngram_length <= 5,
        s.2 <= 5,
        k >= 0,
    ensures
        1 <= scan(ms, ctx, k, s).0.ngram_length <= 5,
        scan(ms, ctx, k, s).2 <= 5,
        scan(ms, ctx, k, s).4 == 0 ==> k <= ms.len(),
    decreases k,
{
    if k > 0 {
        lemma_scan_bounds(ms, ctx, k - 1, s);
    }
}

/// The result once the scan is over: when it reached the highest order, the result is
/// independent of the left, and the n-gram of the highest order gives its probability when
/// it is there.
pub open spec fn finish_scan(longest: Map<u64, u32>, m: int, ctx: Seq<WordIndex>, s: Scan) -> FullScoreReturn {
    let (ret, node, len, bo, phase) = s;
    if phase == 2 {
        let key = spec_combine_word_hash(node, ctx[m]);
        if longest.contains_key(key) {
            FullScoreReturn {
                prob: longest[key],
                rest: longest[key],
                ngram_length: (m + 2) as u8,
                independent_left: true,
                ..ret
            }
        } else {
            FullScoreReturn { independent_left: true, ..ret }
        }
    } else {
        ret
    }
}

/// The words of the new state: the new word first, then the first `len - 1` context words
/// when the context has that many; the other slots stay as they were.
pub open spec fn copied_words(words: Seq<WordIndex>, ctx: Seq<WordIndex>, len: int) -> Seq<WordIndex> {
    if 0 < len - 1 <= ctx.len() {
        Seq::new(words.len(), |k: int| if 1 <= k <= len - 1 { ctx[k - 1] } else { words[k] })
    } else {
        words
    }
}

/// A probing model: its vocabulary and its hashed search.
pub struct GenericModel<V> {
    vocab: ProbingVocabulary,
    search: HashedSearch<V>,
}

impl<V> GenericModel<V> {
    /// The vocabulary.
    pub closed spec fn spec_vocab(&self) -> ProbingVocabulary {
        self.vocab
    }

    /// The search.
    pub closed spec fn spec_search(&self) -> HashedSearch<V> {
        self.search
    }

    /// At most four middle tables: orders up to six, whose contexts fit a state.
    pub open spec fn wf(&self) -> bool {
        self.spec_search().middles().len() <= 4
    }

    /// The scan of a new word `w` before any context word: the weights of its unigram, the
    /// length 1 or 0 as its backoff says a longer n-gram extends it or not.
    pub open spec fn start_scan(&self, w: WordIndex, backoff: Seq<u32>) -> Scan {
        let u = unigram_entry(self.spec_search().unigrams(), self.spec_search().unknown(), w);
        (
            FullScoreReturn {
                prob: with_sign(u.prob),
                ngram_length: 1,
                independent_left: sign_set(u.prob),
                extend_left: w as u64,
                rest: u.prob,
            },
            w as u64,
            if u.backoff != sign_bit() {
                1u8
            } else {
                0u8
            },
            backoff.update(0, u.backoff),
            0,
        )
    }

    /// The model of `vocab` and `search`, of order six at most.
    pub fn new(vocab: ProbingVocabulary, search: HashedSearch<V>) -> (r: Self)
        requires
            search.middles().len() <= 4,
        ensures
            r.wf(),
            r.spec_vocab() == vocab,
            r.spec_search() == search,
    {
        GenericModel { vocab, search }
    }

    /// The order of the model.
    pub fn order(&self) -> (r: u8)
        requires
            self.wf(),
        ensures
            r == self.spec_search().middles().len() + 2,
    {
        self.search.order()
    }

    /// The vocabulary.
    pub fn vocab(&self) -> (r: &ProbingVocabulary)
        ensures
            *r == self.spec_vocab(),
    {
        &self.vocab
    }

    /// Extends the match of a new word to the left through `context` (most recent first),
    /// one middle table at a time, recording each context word's backoff in `out`; when
    /// all middle tables matched, looks the n-gram of the highest order up.
    fn resume_score(&self, context: &[WordIndex], node: &mut u64, out: &mut State, ret: &mut FullScoreReturn)
        requires
            self.wf(),
            context@.len() <= 5,
            old(out).length <= 5,
            1 <= old(ret).ngram_length <= 5,
        ensures
            final(out).length <= 5,
            1 <= final(ret).ngram_length <= 6,
            ({
                let s = scan(
                    self.spec_search().middles(),
                    context@,
                    context@.len() as int,
                    (*old(ret), *old(node), old(out).length, old(out).backoff@, 0),
                );
                &&& *final(ret) == finish_scan(
                    self.spec_search().longest(),
                    self.spec_search().middles().len() as int,
                    context@,
                    s,
                )
                &&& final(out).length == s.2
                &&& final(out).backoff@ == s.3
                &&& final(out).words == old(out).words
            }),
    {
        let max_order = self.search.order();
        let m = max_order - 2;
        let ghost ms = self.spec_search().middles();
        let ghost s0: Scan = (*ret, *node, out.length, out.backoff@, 0);
        let mut order_minus_2: u8 = 0;
        let mut phase: u8 = 0;
        let mut i: usize = 0;
        proof {
            lemma_scan_bounds(ms, context@, 0, s0);
        }
        while i < context.len()
            invariant
                self.wf(),
                s0.4 == 0,
                1 <= s0.0.ngram_length <= 5,
                s0.2 <= 5,
                out.length <= 5,
                1 <= ret.ngram_length <= 5,
                m == ms.len(),
                ms == self.spec_search().middles(),
                context@.len() <= 5,
                i <= context@.len(),
                out.words == old(out).words,
                phase <= 2,
                phase == 0 ==> order_minus_2 == i && i <= m,
                phase == 2 ==> order_minus_2 == m && m < context@.len(),
                scan(ms, context@, i as int, s0) == (*ret, *node, out.length, out.backoff@, phase as int),
            decreases context@.len() - i,
        {
            let ghost before: Scan = (*ret, *node, out.length, out.backoff@, phase as int);
            if phase == 0 {
                if ret.independent_left {
                    phase = 1;
                } else if order_minus_2 == m {
                    phase = 2;
                } else {
                    let word = context[i];
                    let mut independent = ret.independent_left;
                    let mut extend = ret.extend_left;
                    let pointer = self.search.lookup_middle(order_minus_2, word, node, &mut independent, &mut extend);
                    ret.independent_left = independent;
                    ret.extend_left = extend;
                    if !pointer.found() {
                        phase = 1;
                    } else {
                        let b = pointer.backoff();
                        out.backoff[i + 1] = b;
                        ret.prob = pointer.prob();
                        ret.rest = pointer.rest();
                        ret.ngram_length = order_minus_2 + 2;
                        if has_extension(b) {
                            out.length = ret.ngram_length;
                        }
                        order_minus_2 = order_minus_2 + 1;
                    }
                }
            }
            proof {
                lemma_scan_bounds(ms, context@, i + 1, s0);
                assert(scan(ms, context@, i + 1, s0) == scan_step(ms, context@, i as int, before));
                if before.4 == 0 && !before.0.independent_left && i < m {
                    assert(out.backoff@ =~= before.3.update(i + 1, ms[i as int][*node].backoff) || !ms[i as int].contains_key(*node));
                }
            }
            i = i + 1;
        }
        if phase == 2 {
            ret.independent_left = true;
            let longest = self.search.lookup_longest(context[order_minus_2 as usize], node);
            if longest.found() {
                ret.prob = longest.prob();
                ret.rest = ret.prob;
                ret.ngram_length = max_order;
            }
        }
    }
}


/// What scoring a new word `w` after `ctx` (most recent first) gives, in a model whose
/// search has unigrams `u`, unknown weights `unk`, middle tables `ms` and highest-order
/// table `lo`, starting from the state backoffs `bo`: the result, the context length to
/// keep, and the new backoffs.
pub open spec fn scored<V>(model: GenericModel<V>, ctx: Seq<WordIndex>, w: WordIndex, bo: Seq<u32>) -> Scan {
    let s0 = model.start_scan(w, bo);
    if ctx.len() == 0 {
        s0
    } else {
        let s = scan(model.spec_search().middles(), ctx, ctx.len() as int, s0);
        (finish_scan(model.spec_search().longest(), model.spec_search().middles().len() as int, ctx, s), s.1, s.2, s.3, s.4)
    }
}

/// The key of the n-gram of `w` and the first `p` words of `ctx`.
#[verifier::opaque]
pub open spec fn ngram_key(w: WordIndex, ctx: Seq<WordIndex>, p: int) -> u64 {
    context_key(seq![w] + ctx, p)
}

/// The key of `w` alone is `w`; one more word of `ctx` is mixed into the key.
proof fn lemma_ngram_key(w: WordIndex, ctx: Seq<WordIndex>, p: int)
    requires
        0 <= p < ctx.len(),
    ensures
        ngram_key(w, ctx, 0) == w as u64,
        ngram_key(w, ctx, p + 1) == spec_combine_word_hash(ngram_key(w, ctx, p), ctx[p]),
{
    reveal(ngram_key);
    let wc = seq![w] + ctx;
    assert(wc.take(1) =~= seq![w]);
    lemma_context_key_step(wc, p + 1);
    assert(wc[p + 1] == ctx[p]);
}

/// Whether `ret` scores `w` after `ctx` by a stored n-gram of its matched length below the
/// highest order: the unigram of `w` (or the unknown word's) for length 1, else the n-gram of
/// `w` and the first `length - 1` words of `ctx`, from its middle table.
pub open spec fn scored_by_lower(
    u: Seq<ProbBackoffBits>,
    unk: ProbBackoffBits,
    ms: Seq<Map<u64, ProbBackoffBits>>,
    ctx: Seq<WordIndex>,
    w: WordIndex,
    ret: FullScoreReturn,
) -> bool {
    let n = ret.ngram_length as int;
    let key = ngram_key(w, ctx, n - 1);
    ||| n == 1 && ret.prob == with_sign(unigram_entry(u, unk, w).prob)
    ||| 2 <= n <= ms.len() + 1 && ms[n - 2].contains_key(key) && ret.prob == with_sign(ms[n - 2][key].prob)
}

/// Whether `ret` scores `w` after `ctx` by a stored n-gram of its matched length: one below
/// the highest order, or the n-gram of the highest order from its table.
pub open spec fn scored_by_stored(
    u: Seq<ProbBackoffBits>,
    unk: ProbBackoffBits,
    ms: Seq<Map<u64, ProbBackoffBits>>,
    longest: Map<u64, u32>,
    ctx: Seq<WordIndex>,
    w: WordIndex,
    ret: FullScoreReturn,
) -> bool {
    let n = ret.ngram_length as int;
    let key = ngram_key(w, ctx, n - 1);
    ||| scored_by_lower(u, unk, ms, ctx, w, ret)
    ||| n == ms.len() + 2 && longest.contains_key(key) && ret.prob == longest[key]
}

/// What the scan keeps after `k` words: the result comes from a stored n-gram of a length
/// at most `k + 1`; while the scan goes on, the node is the key of `w` and the first `k`
/// words; once it reached the highest order, the key of `w` and all middle orders' words.
pub open spec fn scan_kept(
    u: Seq<ProbBackoffBits>,
    unk: ProbBackoffBits,
    ms: Seq<Map<u64, ProbBackoffBits>>,
    ctx: Seq<WordIndex>,
    w: WordIndex,
    k: int,
    s: Scan,
) -> bool {
    &&& scored_by_lower(u, unk, ms, ctx, w, s.0)
    &&& s.0.ngram_length <= k + 1
    &&& s.4 == 0 ==> s.1 == ngram_key(w, ctx, k) && k <= ms.len()
    &&& s.4 == 2 ==> s.1 == ngram_key(w, ctx, ms.len() as int) && ms.len() < k
}

/// One step of the scan keeps what `scan_kept` says.
#[verifier::spinoff_prover]
proof fn lemma_scan_step_stored(
    u: Seq<ProbBackoffBits>,
    unk: ProbBackoffBits,
    ms: Seq<Map<u64, ProbBackoffBits>>,
    ctx: Seq<WordIndex>,
    w: WordIndex,
    i: int,
    prev: Scan,
)
    requires
        0 <= i < ctx.len(),
        ms.len() <= 4,
        scan_kept(u, unk, ms, ctx, w, i, prev),
    ensures
        scan_kept(u, unk, ms, ctx, w, i + 1, scan_step(ms, ctx, i, prev)),
{
    let next = scan_step(ms, ctx, i, prev);
    if prev.4 == 0 && !prev.0.independent_left && i != ms.len() {
        lemma_ngram_key(w, ctx, i);
        let key = spec_combine_word_hash(prev.1, ctx[i]);
        assert(key == ngram_key(w, ctx, i + 1));
        if ms[i].contains_key(key) {
            assert(next.0.ngram_length == i + 2);
            assert(next.0.prob == with_sign(ms[i][key].prob));
        } else {
            assert(next.0.ngram_length == prev.0.ngram_length && next.0.prob == prev.0.prob);
        }
    }
}

/// Along the scan, what `scan_kept` says holds.
proof fn lemma_scan_stored(
    u: Seq<ProbBackoffBits>,
    unk: ProbBackoffBits,
    ms: Seq<Map<u64, ProbBackoffBits>>,
    ctx: Seq<WordIndex>,
    w: WordIndex,
    k: int,
    s0: Scan,
)
    requires
        0 <= k <= ctx.len(),
        ms.len() <= 4,
        scan_kept(u, unk, ms, ctx, w, 0, s0),
    ensures
        scan_kept(u, unk, ms, ctx, w, k, scan(ms, ctx, k, s0)),
    decreases k,
{
    if k > 0 {
        lemma_scan_stored(u, unk, ms, ctx, w, k - 1, s0);
        lemma_scan_step_stored(u, unk, ms, ctx, w, k - 1, scan(ms, ctx, k - 1, s0));
    }
}

/// The stored probability bits of the n-gram of `w` and the first `n - 1` words of `ctx`
/// below the highest order: its unigram's (or the unknown word's) for `n == 1`, else its
/// middle table entry's.
pub open spec fn lower_entry_prob(
    u: Seq<ProbBackoffBits>,
    unk: ProbBackoffBits,
    ms: Seq<Map<u64, ProbBackoffBits>>,
    ctx: Seq<WordIndex>,
    w: WordIndex,
    n: int,
) -> u32 {
    if n == 1 {
        unigram_entry(u, unk, w).prob
    } else {
        ms[n - 2][ngram_key(w, ctx, n - 1)].prob
    }
}

/// Whether a match of `n` words is as long as a match can be: no context word is left, or
/// the matched n-gram is marked independent of the words to its left, or the n-gram one
/// word longer is not stored.
pub open spec fn match_is_longest(
    u: Seq<ProbBackoffBits>,
    unk: ProbBackoffBits,
    ms: Seq<Map<u64, ProbBackoffBits>>,
    lo: Map<u64, u32>,
    ctx: Seq<WordIndex>,
    w: WordIndex,
    n: int,
) -> bool {
    n <= ctx.len() ==> (n <= ms.len() + 1 && sign_set(lower_entry_prob(u, unk, ms, ctx, w, n))) || !ngram_stored(
        ms,
        lo,
        w,
        ctx,
        n - 1,
    )
}

/// Along the scan: while it goes on, it has matched one word more than the words scanned,
/// and the result says whether that n-gram is marked independent; once it stopped, the
/// match is as long as a match can be; once it reached the highest order, it matched every
/// middle order.
pub open spec fn scan_longest(
    u: Seq<ProbBackoffBits>,
    unk: ProbBackoffBits,
    ms: Seq<Map<u64, ProbBackoffBits>>,
    lo: Map<u64, u32>,
    ctx: Seq<WordIndex>,
    w: WordIndex,
    k: int,
    s: Scan,
) -> bool {
    &&& s.4 == 0 ==> s.0.ngram_length == k + 1 && s.0.independent_left == sign_set(
        lower_entry_prob(u, unk, ms, ctx, w, k + 1),
    )
    &&& s.4 == 1 ==> match_is_longest(u, unk, ms, lo, ctx, w, s.0.ngram_length as int)
    &&& s.4 == 2 ==> s.0.ngram_length == ms.len() + 1
    &&& s.4 == 0 || s.4 == 1 || s.4 == 2
}

/// One step of the scan keeps what `scan_longest` says.
#[verifier::spinoff_prover]
proof fn lemma_scan_step_longest(
    u: Seq<ProbBackoffBits>,
    unk: ProbBackoffBits,
    ms: Seq<Map<u64, ProbBackoffBits>>,
    lo: Map<u64, u32>,
    ctx: Seq<WordIndex>,
    w: WordIndex,
    i: int,
    prev: Scan,
)
    requires
        0 <= i < ctx.len(),
        ms.len() <= 4,
        scan_kept(u, unk, ms, ctx, w, i, prev),
        scan_longest(u, unk, ms, lo, ctx, w, i, prev),
    ensures
        scan_longest(u, unk, ms, lo, ctx, w, i + 1, scan_step(ms, ctx, i, prev)),
{
    let next = scan_step(ms, ctx, i, prev);
    if prev.4 == 0 && !prev.0.independent_left && i != ms.len() {
        lemma_ngram_key(w, ctx, i);
        let key = spec_combine_word_hash(prev.1, ctx[i]);
        assert(key == ngram_key(w, ctx, i + 1));
        if ms[i].contains_key(key) {
            assert(next.0.ngram_length == i + 2);
            assert(lower_entry_prob(u, unk, ms, ctx, w, i + 2) == ms[i][key].prob);
        } else {
            assert(!ngram_stored(ms, lo, w, ctx, i));
        }
    }
}

/// Along the scan, what `scan_longest` says holds.
proof fn lemma_scan_longest(
    u: Seq<ProbBackoffBits>,
    unk: ProbBackoffBits,
    ms: Seq<Map<u64, ProbBackoffBits>>,
    lo: Map<u64, u32>,
    ctx: Seq<WordIndex>,
    w: WordIndex,
    k: int,
    s0: Scan,
)
    requires
        0 <= k <= ctx.len(),
        ms.len() <= 4,
        scan_kept(u, unk, ms, ctx, w, 0, s0),
        scan_longest(u, unk, ms, lo, ctx, w, 0, s0),
    ensures
        scan_longest(u, unk, ms, lo, ctx, w, k, scan(ms, ctx, k, s0)),
    decreases k,
{
    if k > 0 {
        lemma_scan_longest(u, unk, ms, lo, ctx, w, k - 1, s0);
        lemma_scan_stored(u, unk, ms, ctx, w, k - 1, s0);
        lemma_scan_step_longest(u, unk, ms, lo, ctx, w, k - 1, scan(ms, ctx, k - 1, s0));
    }
}

/// The match that scoring reports is the longest one: no context word is left, or the
/// matched n-gram is marked independent of the words to its left, or the n-gram one word
/// longer is not stored. With `law_score_is_stored_ngram`, the matched length is the one
/// where the chain of stored n-grams of the word and its context first ends.
#[verifier::spinoff_prover]
pub proof fn law_score_is_longest_match<V>(model: GenericModel<V>, ctx: Seq<WordIndex>, w: WordIndex, bo: Seq<u32>)
    requires
        model.wf(),
    ensures
        match_is_longest(
            model.spec_search().unigrams(),
            model.spec_search().unknown(),
            model.spec_search().middles(),
            model.spec_search().longest(),
            ctx,
            w,
            scored(model, ctx, w, bo).0.ngram_length as int,
        ),
{
    let u = model.spec_search().unigrams();
    let unk = model.spec_search().unknown();
    let ms = model.spec_search().middles();
    let lo = model.spec_search().longest();
    let s0 = model.start_scan(w, bo);
    if ctx.len() > 0 {
        lemma_ngram_key(w, ctx, 0);
        assert(scan_kept(u, unk, ms, ctx, w, 0, s0));
        assert(scan_longest(u, unk, ms, lo, ctx, w, 0, s0));
        lemma_scan_longest(u, unk, ms, lo, ctx, w, ctx.len() as int, s0);
        lemma_scan_stored(u, unk, ms, ctx, w, ctx.len() as int, s0);
        let s = scan(ms, ctx, ctx.len() as int, s0);
        if s.4 == 2 {
            let m = ms.len() as int;
            lemma_ngram_key(w, ctx, m);
            assert(spec_combine_word_hash(s.1, ctx[m]) == ngram_key(w, ctx, m + 1));
        }
    }
}

/// The score of a word is that of a stored n-gram of the matched length: its unigram (or
/// the unknown word's) when the length is 1, else the n-gram of the word and the first
/// `length - 1` context words, from the middle table of that order or from the table of the
/// highest order.
#[verifier::spinoff_prover]
pub proof fn law_score_is_stored_ngram<V>(model: GenericModel<V>, ctx: Seq<WordIndex>, w: WordIndex, bo: Seq<u32>)
    requires
        model.wf(),
    ensures
        scored_by_stored(
            model.spec_search().unigrams(),
            model.spec_search().unknown(),
            model.spec_search().middles(),
            model.spec_search().longest(),
            ctx,
            w,
            scored(model, ctx, w, bo).0,
        ),
{
    let u = model.spec_search().unigrams();
    let unk = model.spec_search().unknown();
    let ms = model.spec_search().middles();
    let s0 = model.start_scan(w, bo);
    if ctx.len() > 0 {
        lemma_ngram_key(w, ctx, 0);
        assert(scan_kept(u, unk, ms, ctx, w, 0, s0));
        lemma_scan_stored(u, unk, ms, ctx, w, ctx.len() as int, s0);
        let s = scan(ms, ctx, ctx.len() as int, s0);
        if s.4 == 2 {
            lemma_ngram_key(w, ctx, ms.len() as int);
        }
    }
}

impl<V> GenericModel<V> {
    /// Copies the first `length - 1` context words behind the new word, when the context has
    /// that many.
    fn copy_remaining_history(&self, context: &[WordIndex], out: &mut State)
        requires
            old(out).length <= 5,
        ensures
            final(out).words@ == copied_words(old(out).words@, context@, old(out).length as int),
            final(out).length == old(out).length,
            final(out).backoff == old(out).backoff,
    {
        let copy_len: usize = if out.length > 0 { (out.length - 1) as usize } else { 0 };
        if copy_len > 0 && copy_len <= context.len() {
            let ghost w0 = out.words@;
            let mut k: usize = 1;
            while k <= copy_len
                invariant
                    1 <= k <= copy_len + 1,
                    copy_len <= 4,
                    copy_len <= context@.len(),
                    copy_len == old(out).length - 1,
                    out.length == old(out).length,
                    out.backoff == old(out).backoff,
                    w0 == old(out).words@,
                    forall|j: int| 0 <= j < 5 ==> #[trigger] out.words@[j] == if 1 <= j < k {
                        context@[j - 1]
                    } else {
                        w0[j]
                    },
                decreases copy_len + 1 - k,
            {
                out.words[k] = context[k - 1];
                k = k + 1;
            }
            assert(out.words@ =~= copied_words(w0, context@, old(out).length as int));
        } else {
            assert(out.words@ =~= copied_words(old(out).words@, context@, old(out).length as int));
        }
    }

    /// Scores `new_word` after `context_rbegin` (most recent first) apart from the backoffs
    /// of the context: looks its unigram up, then extends the match to the left; `out_state`
    /// gets the new word, the words and backoffs of the context that a longer n-gram may
    /// still extend, and their number.
    pub fn score_except_backoff(&self, context_rbegin: &[WordIndex], new_word: WordIndex, out_state: &mut State) -> (r: FullScoreReturn)
        requires
            self.wf(),
            context_rbegin@.len() <= 5,
        ensures
            ({
                let s = scored(*self, context_rbegin@, new_word, old(out_state).backoff@);
                &&& 1 <= r.ngram_length
                &&& r == s.0
                &&& final(out_state).length == s.2
                &&& final(out_state).backoff@ == s.3
                &&& final(out_state).words@ == if context_rbegin@.len() == 0 {
                    old(out_state).words@.update(0, new_word)
                } else {
                    copied_words(old(out_state).words@.update(0, new_word), context_rbegin@, s.2 as int)
                }
            }),
    {
        let mut ret = FullScoreReturn { prob: 0, ngram_length: 1, independent_left: false, extend_left: 0, rest: 0 };
        let mut node: u64 = 0;
        let mut independent = false;
        let mut extend: u64 = 0;
        let uni = self.search.lookup_unigram(new_word, &mut node, &mut independent, &mut extend);
        ret.independent_left = independent;
        ret.extend_left = extend;
        out_state.backoff[0] = uni.backoff();
        ret.prob = uni.prob();
        ret.rest = uni.rest();
        out_state.length = if has_extension(out_state.backoff[0]) { 1 } else { 0 };
        out_state.words[0] = new_word;
        proof {
            let s0 = self.start_scan(new_word, old(out_state).backoff@);
            assert(out_state.backoff@ =~= s0.3);
            assert(out_state.words@ =~= old(out_state).words@.update(0, new_word));
        }
        if context_rbegin.len() == 0 {
            return ret;
        }
        self.resume_score(context_rbegin, &mut node, out_state, &mut ret);
        self.copy_remaining_history(context_rbegin, out_state);
        ret
    }

    /// Scores `new_word` in the state `in_state`: the result apart from backoffs, and the
    /// bits of the backoffs to add to its probability, in order: those of the context
    /// positions from the matched n-gram's length less one up to the state's length.
    pub fn full_score(&self, in_state: &State, new_word: WordIndex, out_state: &mut State) -> (r: (FullScoreReturn, Vec<u32>))
        requires
            self.wf(),
            in_state.length <= 5,
        ensures
            ({
                let ctx = in_state.words@.take(in_state.length as int);
                let s = scored(*self, ctx, new_word, old(out_state).backoff@);
                let from = s.0.ngram_length - 1;
                &&& r.0 == s.0
                &&& final(out_state).length == s.2
                &&& final(out_state).backoff@ == s.3
                &&& r.1@ == if from < in_state.length {
                    in_state.backoff@.subrange(from, in_state.length as int)
                } else {
                    Seq::<u32>::empty()
                }
            }),
    {
        let ctx = slice_prefix(&in_state.words, in_state.length as usize);
        let ret = self.score_except_backoff(ctx, new_word, out_state);
        let mut backoffs: Vec<u32> = Vec::new();
        let from: usize = if ret.ngram_length >= 1 { (ret.ngram_length - 1) as usize } else { 0 };
        let mut i: usize = from;
        while i < in_state.length as usize
            invariant
                from <= in_state.length as usize ==> from <= i <= in_state.length,
                in_state.length <= 5,
                from <= in_state.length as usize ==> backoffs@ == in_state.backoff@.subrange(from as int, i as int),
                from > in_state.length as usize ==> i == from && backoffs@.len() == 0,
            decreases 5 - i,
        {
            backoffs.push(in_state.backoff[i]);
            i = i + 1;
            assert(backoffs@ =~= in_state.backoff@.subrange(from as int, i as int));
        }
        (ret, backoffs)
    }

    /// The state with no context.
    pub fn empty_context_state() -> (r: State)
        ensures
            r.length == 0,
            forall|i: int| 0 <= i < 5 ==> r.words[i] == 0 && r.backoff[i] == 0,
    {
        State::new()
    }

    /// The state at the start of a sentence: `<s>` as its one word, with the backoff of its
    /// unigram.
    pub fn begin_sentence_state(&self) -> (r: State)
        ensures
            r.length == 1,
            r.words[0] == self.spec_vocab().bos_index(),
            r.backoff[0] == unigram_entry(
                self.spec_search().unigrams(),
                self.spec_search().unknown(),
                self.spec_vocab().bos_index(),
            ).backoff,
            forall|i: int| 1 <= i < 5 ==> r.words[i] == 0 && r.backoff[i] == 0,
    {
        let bos = self.vocab.begin_sentence();
        let mut state = State::new();
        state.words[0] = bos;
        state.length = 1;
        let mut node: u64 = 0;
        let mut independent = false;
        let mut extend: u64 = 0;
        let uni = self.search.lookup_unigram(bos, &mut node, &mut independent, &mut extend);
        state.backoff[0] = uni.backoff();
        state
    }
}

/// The first `len` words of a state's word array.
fn slice_prefix(words: &[WordIndex; 5], len: usize) -> (r: &[WordIndex])
    requires
        len <= 5,
    ensures
        r@ == words@.take(len as int),
{
    vstd::slice::slice_subrange(words.as_slice(), 0, len)
}


/// A step of rebuilding a state from context word `i + 1`: stop at the first missing
/// n-gram; else record its backoff and, when a longer n-gram extends it, the new length.
/// The scan holds the node, the length, the backoffs, and whether it stopped.
pub open spec fn context_step(ms: Seq<Map<u64, ProbBackoffBits>>, ctx: Seq<WordIndex>, i: int, s: (u64, u8, Seq<u32>, bool)) -> (u64, u8, Seq<u32>, bool) {
    let (node, len, bo, stopped) = s;
    if stopped {
        s
    } else {
        let key = spec_combine_word_hash(node, ctx[i + 1]);
        if !ms[i].contains_key(key) {
            (key, len, bo, true)
        } else {
            let e = ms[i][key];
            (key, if e.backoff != sign_bit() {
                (i + 2) as u8
            } else {
                len
            }, bo.update(i + 1, e.backoff), false)
        }
    }
}

/// The rebuild after the first `k` steps.
pub open spec fn context_scan(ms: Seq<Map<u64, ProbBackoffBits>>, ctx: Seq<WordIndex>, k: int, s: (u64, u8, Seq<u32>, bool)) -> (u64, u8, Seq<u32>, bool)
    decreases k,
{
    if k <= 0 {
        s
    } else {
        context_step(ms, ctx, k - 1, context_scan(ms, ctx, k - 1, s))
    }
}

proof fn lemma_context_scan_length(ms: Seq<Map<u64, ProbBackoffBits>>, ctx: Seq<WordIndex>, k: int, s: (u64, u8, Seq<u32>, bool))
    requires
        0 <= k,
        s.1 <= 1,
    ensures
        context_scan(ms, ctx, k, s).1 <= k + 1,
    decreases k,
{
    if k > 0 {
        lemma_context_scan_length(ms, ctx, k - 1, s);
    }
}

/// The key of the context n-gram at position `p` of `ctx` (most recent word first): the
/// hash of its first `p + 1` words.
pub open spec fn context_key(ctx: Seq<WordIndex>, p: int) -> u64 {
    crate::search::spec_hash_key(ctx.take(p + 1))
}

/// Whether the context n-gram at position `p >= 1` is in its middle table, `p - 1`.
pub open spec fn context_present(ms: Seq<Map<u64, ProbBackoffBits>>, ctx: Seq<WordIndex>, p: int) -> bool {
    1 <= p <= ms.len() && ms[p - 1].contains_key(context_key(ctx, p))
}

/// The first position from `p` on (at least 1) whose context n-gram is missing, or the
/// length of `ctx` when all are there.
pub open spec fn first_missing(ms: Seq<Map<u64, ProbBackoffBits>>, ctx: Seq<WordIndex>, p: int) -> int
    decreases ctx.len() - p,
{
    if p >= ctx.len() || !context_present(ms, ctx, p) {
        p
    } else {
        first_missing(ms, ctx, p + 1)
    }
}

/// The backoff of the context n-gram at position `p`: the unigram's for the most recent
/// word, else the middle table's entry.
pub open spec fn context_backoff(
    u: Seq<ProbBackoffBits>,
    unk: ProbBackoffBits,
    ms: Seq<Map<u64, ProbBackoffBits>>,
    ctx: Seq<WordIndex>,
    p: int,
) -> u32 {
    if p == 0 {
        unigram_entry(u, unk, ctx[0]).backoff
    } else {
        ms[p - 1][context_key(ctx, p)].backoff
    }
}

/// `ctx` cut to the order less one.
pub open spec fn clamped_context(ctx: Seq<WordIndex>, m: int) -> Seq<WordIndex> {
    ctx.take(if ctx.len() < m + 1 { ctx.len() as int } else { m + 1 })
}

proof fn lemma_first_missing_bounds(ms: Seq<Map<u64, ProbBackoffBits>>, ctx: Seq<WordIndex>, p: int)
    requires
        p <= ctx.len(),
    ensures
        p <= first_missing(ms, ctx, p) <= ctx.len(),
        forall|q: int| p <= q < first_missing(ms, ctx, p) ==> context_present(ms, ctx, q),
        first_missing(ms, ctx, p) < ctx.len() ==> !context_present(ms, ctx, first_missing(ms, ctx, p)),
    decreases ctx.len() - p,
{
    if p < ctx.len() && context_present(ms, ctx, p) {
        lemma_first_missing_bounds(ms, ctx, p + 1);
    }
}

proof fn lemma_context_key_step(ctx: Seq<WordIndex>, p: int)
    requires
        1 <= p < ctx.len(),
    ensures
        context_key(ctx, p) == spec_combine_word_hash(context_key(ctx, p - 1), ctx[p]),
{
    assert(ctx.take(p + 1).drop_last() =~= ctx.take(p));
}

/// One past the last position before `k` whose backoff says that a longer n-gram extends
/// its context n-gram; 0 when there is none. This is the length of the state.
pub open spec fn last_extension(
    u: Seq<ProbBackoffBits>,
    unk: ProbBackoffBits,
    ms: Seq<Map<u64, ProbBackoffBits>>,
    c: Seq<WordIndex>,
    k: int,
) -> int
    decreases k,
{
    if k <= 0 {
        0
    } else if context_backoff(u, unk, ms, c, k - 1) != sign_bit() {
        k
    } else {
        last_extension(u, unk, ms, c, k - 1)
    }
}

/// The backoffs of a state whose context n-grams at positions below `k` are in the model:
/// theirs, and 0 for the other slots.
pub open spec fn state_backoffs(
    u: Seq<ProbBackoffBits>,
    unk: ProbBackoffBits,
    ms: Seq<Map<u64, ProbBackoffBits>>,
    c: Seq<WordIndex>,
    k: int,
) -> Seq<u32> {
    Seq::new(5, |p: int| if p < k { context_backoff(u, unk, ms, c, p) } else { 0u32 })
}

proof fn lemma_last_extension(u: Seq<ProbBackoffBits>, unk: ProbBackoffBits, ms: Seq<Map<u64, ProbBackoffBits>>, c: Seq<WordIndex>, k: int)
    requires
        0 <= k,
    ensures
        0 <= last_extension(u, unk, ms, c, k) <= k,
        forall|p: int| last_extension(u, unk, ms, c, k) <= p < k ==> context_backoff(u, unk, ms, c, p) == sign_bit(),
    decreases k,
{
    if k > 0 {
        lemma_last_extension(u, unk, ms, c, k - 1);
    }
}

/// The state that rebuilding starts from: the most recent word, its unigram's backoff,
/// and length 1 when that backoff says a longer n-gram extends it.
pub open spec fn scan_start(u: Seq<ProbBackoffBits>, unk: ProbBackoffBits, c: Seq<WordIndex>) -> (u64, u8, Seq<u32>, bool) {
    let u0 = unigram_entry(u, unk, c[0]);
    (c[0] as u64, if u0.backoff != sign_bit() {
        1u8
    } else {
        0u8
    }, Seq::new(5, |q: int| 0u32).update(0, u0.backoff), false)
}

/// What the rebuild has after the positions up to `j`, when the first missing context
/// n-gram is at `k`.
pub open spec fn scan_expected(
    u: Seq<ProbBackoffBits>,
    unk: ProbBackoffBits,
    ms: Seq<Map<u64, ProbBackoffBits>>,
    c: Seq<WordIndex>,
    j: int,
    k: int,
    t: (u64, u8, Seq<u32>, bool),
) -> bool {
    &&& j + 1 <= k ==> !t.3 && t.0 == context_key(c, j) && t.1 == last_extension(u, unk, ms, c, j + 1) && t.2
        == state_backoffs(u, unk, ms, c, j + 1)
    &&& j + 1 > k ==> t.3 && t.1 == last_extension(u, unk, ms, c, k) && t.2 == state_backoffs(u, unk, ms, c, k)
}

proof fn lemma_context_step_direct(
    u: Seq<ProbBackoffBits>,
    unk: ProbBackoffBits,
    ms: Seq<Map<u64, ProbBackoffBits>>,
    c: Seq<WordIndex>,
    j: int,
    k: int,
    prev: (u64, u8, Seq<u32>, bool),
)
    requires
        1 <= j <= c.len() - 1,
        c.len() <= 5,
        c.len() <= ms.len() + 1,
        1 <= k <= c.len(),
        forall|q: int| 1 <= q < k ==> context_present(ms, c, q),
        k < c.len() ==> !context_present(ms, c, k),
        scan_expected(u, unk, ms, c, j - 1, k, prev),
    ensures
        scan_expected(u, unk, ms, c, j, k, context_step(ms, c, j - 1, prev)),
{
    if j <= k {
        lemma_context_key_step(c, j);
        let key = context_key(c, j);
        if j == k {
            assert(!context_present(ms, c, j));
        } else {
            assert(context_present(ms, c, j));
            let e = ms[j - 1][key];
            assert(context_backoff(u, unk, ms, c, j) == e.backoff);
            assert(prev.2.update(j, e.backoff) =~= state_backoffs(u, unk, ms, c, j + 1));
        }
    }
}

/// The rebuild of a state, stated directly: after the positions up to `j`, it has the
/// backoffs and length of the context n-grams present below the first missing one.
proof fn lemma_context_scan_direct(
    u: Seq<ProbBackoffBits>,
    unk: ProbBackoffBits,
    ms: Seq<Map<u64, ProbBackoffBits>>,
    c: Seq<WordIndex>,
    j: int,
    k: int,
)
    requires
        1 <= c.len() <= 5,
        c.len() <= ms.len() + 1,
        0 <= j <= c.len() - 1,
        1 <= k <= c.len(),
        forall|q: int| 1 <= q < k ==> context_present(ms, c, q),
        k < c.len() ==> !context_present(ms, c, k),
    ensures
        scan_expected(u, unk, ms, c, j, k, context_scan(ms, c, j, scan_start(u, unk, c))),
    decreases j,
{
    let s0 = scan_start(u, unk, c);
    if j == 0 {
        assert(c.take(1) =~= seq![c[0]]);
        assert(crate::search::spec_hash_key(seq![c[0]]) == c[0] as u64);
        assert(context_key(c, 0) == c[0] as u64);
        assert(context_backoff(u, unk, ms, c, 0) == unigram_entry(u, unk, c[0]).backoff);
        assert(last_extension(u, unk, ms, c, 0) == 0);
        assert(last_extension(u, unk, ms, c, 1) == s0.1);
        assert(s0.2 =~= state_backoffs(u, unk, ms, c, 1));
        assert(context_scan(ms, c, 0, s0) == s0);
    } else {
        lemma_context_scan_direct(u, unk, ms, c, j - 1, k);
        let prev = context_scan(ms, c, j - 1, s0);
        assert(context_scan(ms, c, j, s0) == context_step(ms, c, j - 1, prev));
        lemma_context_step_direct(u, unk, ms, c, j, k, prev);
    }
}

impl<V> GenericModel<V> {
    /// The context that `context` (most recent first) leaves, cut to the order less one: the
    /// backoffs of its n-grams as far as they are in the model, and the words up to the
    /// longest of them that a longer n-gram extends.
    pub fn get_state(&self, context: &[WordIndex]) -> (r: State)
        requires
            self.wf(),
        ensures
            ({
                let ms = self.spec_search().middles();
                let u = self.spec_search().unigrams();
                let unk = self.spec_search().unknown();
                let c = clamped_context(context@, ms.len() as int);
                let k = first_missing(ms, c, 1);
                let len = last_extension(u, unk, ms, c, k);
                &&& c.len() == 0 ==> r.length == 0 && r.words@ == Seq::new(5, |q: int| 0u32) && r.backoff@
                    == Seq::new(5, |q: int| 0u32)
                &&& c.len() > 0 ==> r.length == len && r.backoff@ == state_backoffs(u, unk, ms, c, k) && r.words@
                    == Seq::new(5, |q: int| if q < len { c[q] } else { 0u32 })
            }),
    {
        let max_ctx: usize = (self.order() - 1) as usize;
        let n: usize = if context.len() < max_ctx { context.len() } else { max_ctx };
        let ghost ms = self.spec_search().middles();
        let ghost c = context@.take(n as int);
        let mut state = State::new();
        assert(c.len() == 0 ==> c =~= clamped_context(context@, ms.len() as int));
        assert(state.words@ =~= Seq::new(5, |k: int| 0u32));
        assert(state.backoff@ =~= Seq::new(5, |k: int| 0u32));
        if n == 0 {
            return state;
        }
        let first = context[0];
        let mut node: u64 = 0;
        let mut independent = false;
        let mut extend: u64 = 0;
        let uni = self.search.lookup_unigram(first, &mut node, &mut independent, &mut extend);
        state.backoff[0] = uni.backoff();
        if has_extension(state.backoff[0]) {
            state.length = 1;
        }
        let ghost s0 = (node, state.length, state.backoff@, false);
        assert(s0.2 =~= Seq::new(5, |k: int| 0u32).update(0, uni.backoff));
        let mut stopped = false;
        let mut i: usize = 0;
        while i + 1 < n
            invariant
                self.wf(),
                ms == self.spec_search().middles(),
                n <= ms.len() + 1,
                n <= context@.len(),
                c == context@.take(n as int),
                i + 1 <= n,
                state.length <= i + 1,
                context_scan(ms, c, i as int, s0) == (node, state.length, state.backoff@, stopped),
                forall|k: int| 0 <= k < 5 ==> state.words@[k] == 0u32,
            decreases n - i,
        {
            let ghost before = (node, state.length, state.backoff@, stopped);
            if !stopped {
                let word = context[i + 1];
                let ptr = self.search.lookup_middle(i as u8, word, &mut node, &mut independent, &mut extend);
                if !ptr.found() {
                    stopped = true;
                } else {
                    state.backoff[i + 1] = ptr.backoff();
                    if has_extension(state.backoff[i + 1]) {
                        state.length = (i + 2) as u8;
                    }
                }
            }
            proof {
                assert(c[i + 1] == context@[i + 1]);
                assert(context_scan(ms, c, i + 1, s0) == context_step(ms, c, i as int, before));
            }
            i = i + 1;
        }
        let len = state.length as usize;
        let ghost before_copy = (node, state.length, state.backoff@, stopped);
        assert(before_copy == context_scan(ms, c, n - 1, s0));
        let mut k: usize = 0;
        while k < len
            invariant
                k <= len,
                len == state.length,
                len <= n,
                state.length == before_copy.1,
                state.backoff@ == before_copy.2,
                n <= context@.len(),
                n <= 5,
                c == context@.take(n as int),
                forall|j: int| 0 <= j < 5 ==> #[trigger] state.words@[j] == if j < k { c[j] } else { 0u32 },
            decreases len - k,
        {
            state.words[k] = context[k];
            k = k + 1;
        }
        assert(state.words@ =~= Seq::new(5, |j: int| if j < state.length { c[j] } else { 0u32 }));
        proof {
            let u = self.spec_search().unigrams();
            let unk = self.spec_search().unknown();
            assert(c =~= clamped_context(context@, ms.len() as int));
            let s0l = scan_start(u, unk, c);
            assert(s0l.2 =~= s0.2);
            assert(s0l == s0);
            lemma_first_missing_bounds(ms, c, 1);
            lemma_context_scan_direct(u, unk, ms, c, n - 1, first_missing(ms, c, 1));
            assert(state.words@ =~= Seq::new(
                5,
                |q: int| if q < last_extension(u, unk, ms, c, first_missing(ms, c, 1)) { c[q] } else { 0u32 },
            ));
        }
        state
    }
}

impl<V> GenericModel<V> {
    /// Scores `new_word` after `context` (most recent first, cut to the order less one)
    /// without a state: the result apart from backoffs, and the bits of the backoffs to add,
    /// in order: those of the context n-grams at positions from the matched length less one
    /// up to the first one missing, which are the backoffs that a state rebuilt from the
    /// context records at those positions.
    pub fn full_score_forgot_state(&self, context: &[WordIndex], new_word: WordIndex, out_state: &mut State) -> (r: (FullScoreReturn, Vec<u32>))
        requires
            self.wf(),
        ensures
            ({
                let ms = self.spec_search().middles();
                let c = clamped_context(context@, ms.len() as int);
                let s = scored(*self, c, new_word, old(out_state).backoff@);
                let p0 = s.0.ngram_length - 1;
                let k = first_missing(ms, c, if p0 < 1 { 1 } else { p0 });
                &&& r.0 == s.0
                &&& final(out_state).length == s.2
                &&& final(out_state).backoff@ == s.3
                &&& c.len() <= p0 ==> r.1@ == Seq::<u32>::empty()
                &&& c.len() > p0 ==> r.1@ == Seq::new(
                    (k - p0) as nat,
                    |i: int| context_backoff(
                        self.spec_search().unigrams(),
                        self.spec_search().unknown(),
                        ms,
                        c,
                        p0 + i,
                    ),
                )
            }),
    {
        let max_ctx: usize = (self.order() - 1) as usize;
        let n: usize = if context.len() < max_ctx { context.len() } else { max_ctx };
        let ctx = vstd::slice::slice_subrange(context, 0, n);
        let ghost ms = self.spec_search().middles();
        let ghost u = self.spec_search().unigrams();
        let ghost unk = self.spec_search().unknown();
        assert(ctx@ =~= clamped_context(context@, ms.len() as int));
        let ret = self.score_except_backoff(ctx, new_word, out_state);
        let start = ret.ngram_length as usize;
        let mut backoffs: Vec<u32> = Vec::new();
        if ctx.len() < start {
            return (ret, backoffs);
        }
        let p0: usize = start - 1;
        let mut node: u64 = 0;
        let mut independent = false;
        let mut extend: u64 = 0;
        let mut p: usize;
        if p0 == 0 {
            let uni = self.search.lookup_unigram(ctx[0], &mut node, &mut independent, &mut extend);
            backoffs.push(uni.backoff());
            p = 1;
            proof {
                assert(ctx@.take(1) =~= seq![ctx@[0]]);
            }
        } else {
            let prefix = vstd::slice::slice_subrange(ctx, 0, p0);
            assert(prefix@ =~= ctx@.take(p0 as int));
            self.search.fast_make_node(prefix, &mut node);
            p = p0;
        }
        let p1: usize = p;
        proof {
            lemma_first_missing_bounds(ms, ctx@, p1 as int);
        }
        let ghost k = first_missing(ms, ctx@, p1 as int);
        while p < ctx.len()
            invariant_except_break
                p <= k,
                node == context_key(ctx@, p - 1),
            invariant
                self.wf(),
                ms == self.spec_search().middles(),
                u == self.spec_search().unigrams(),
                unk == self.spec_search().unknown(),
                ctx@.len() <= ms.len() + 1,
                1 <= p1 <= p <= ctx@.len(),
                p1 == if p0 == 0 { 1 } else { p0 },
                p0 < ctx@.len(),
                k == first_missing(ms, ctx@, p1 as int),
                p1 <= k <= ctx@.len(),
                forall|q: int| p1 <= q < k ==> context_present(ms, ctx@, q),
                k < ctx@.len() ==> !context_present(ms, ctx@, k),
                backoffs@ == Seq::new((p - p0) as nat, |i: int| context_backoff(u, unk, ms, ctx@, p0 + i)),
            ensures
                p == k,
            decreases ctx@.len() - p,
        {
            proof {
                lemma_context_key_step(ctx@, p as int);
            }
            let ptr = self.search.lookup_middle((p - 1) as u8, ctx[p], &mut node, &mut independent, &mut extend);
            if !ptr.found() {
                proof {
                    assert(node == context_key(ctx@, p as int));
                    assert(!context_present(ms, ctx@, p as int));
                    if p < k {
                        assert(context_present(ms, ctx@, p as int));
                    }
                }
                break;
            }
            let ghost before = backoffs@;
            backoffs.push(ptr.backoff());
            assert(backoffs@ =~= Seq::new((p + 1 - p0) as nat, |i: int| context_backoff(u, unk, ms, ctx@, p0 + i)));
            p = p + 1;
        }
        (ret, backoffs)
    }
}


proof fn lemma_first_missing_from(ms: Seq<Map<u64, ProbBackoffBits>>, c: Seq<WordIndex>, a: int, b: int)
    requires
        a <= b,
        b <= c.len(),
        forall|q: int| a <= q < b ==> context_present(ms, c, q),
    ensures
        first_missing(ms, c, a) == first_missing(ms, c, b),
    decreases b - a,
{
    if a < b {
        lemma_first_missing_from(ms, c, a + 1, b);
    }
}

/// The stateless score adds what a state rebuilt from the context holds: when the context
/// n-grams below the matched length less one are in the model, the backoffs it adds are
/// the state's backoffs from that position up to the first missing context n-gram, and
/// those at or past the state's length are all -0.0 (no longer n-gram extends them), which
/// add nothing to what scoring in the state adds (its backoffs from that position up to its
/// length).
pub proof fn law_stateless_adds_state_backoffs(
    u: Seq<ProbBackoffBits>,
    unk: ProbBackoffBits,
    ms: Seq<Map<u64, ProbBackoffBits>>,
    c: Seq<WordIndex>,
    matched: int,
)
    requires
        1 <= c.len() <= 5,
        c.len() <= ms.len() + 1,
        1 <= matched,
        matched - 1 < c.len(),
        forall|q: int| 1 <= q < matched - 1 ==> context_present(ms, c, q),
    ensures
        ({
            let p0 = matched - 1;
            let k = first_missing(ms, c, 1);
            let len = last_extension(u, unk, ms, c, k);
            &&& first_missing(ms, c, if p0 < 1 { 1 } else { p0 }) == k
            &&& p0 <= k
            &&& Seq::new((k - p0) as nat, |i: int| context_backoff(u, unk, ms, c, p0 + i)) == state_backoffs(
                u,
                unk,
                ms,
                c,
                k,
            ).subrange(p0, k)
            &&& len <= k
            &&& forall|p: int| len <= p < k ==> context_backoff(u, unk, ms, c, p) == sign_bit()
        }),
{
    let p0 = matched - 1;
    lemma_first_missing_bounds(ms, c, 1);
    let k = first_missing(ms, c, 1);
    if p0 > 1 {
        lemma_first_missing_from(ms, c, 1, p0);
    }
    lemma_last_extension(u, unk, ms, c, k);
    assert(Seq::new((k - p0) as nat, |i: int| context_backoff(u, unk, ms, c, p0 + i)) =~= state_backoffs(
        u,
        unk,
        ms,
        c,
        k,
    ).subrange(p0, k));
}

/// A rebuilt state keeps a prefix of its context: its length is at most the context's and
/// the order less one, its words are the context's first words, and words past the order
/// less one are ignored (cutting the context there first, or adding words past it, changes
/// nothing).
pub proof fn law_state_is_context_prefix(
    u: Seq<ProbBackoffBits>,
    unk: ProbBackoffBits,
    ms: Seq<Map<u64, ProbBackoffBits>>,
    ctx: Seq<WordIndex>,
    extra: Seq<WordIndex>,
)
    ensures
        ({
            let m = ms.len() as int;
            let c = clamped_context(ctx, m);
            let len = last_extension(u, unk, ms, c, first_missing(ms, c, 1));
            &&& clamped_context(c, m) == c
            &&& ctx.len() >= m + 1 ==> clamped_context(ctx + extra, m) == c
            &&& c.len() <= ctx.len()
            &&& c.len() <= m + 1
            &&& c.len() > 0 ==> 0 <= len <= c.len()
            &&& forall|q: int| 0 <= q < c.len() ==> c[q] == ctx[q]
        }),
{
    let m = ms.len() as int;
    let c = clamped_context(ctx, m);
    assert(clamped_context(c, m) =~= c);
    if ctx.len() >= m + 1 {
        assert(clamped_context(ctx + extra, m) =~= c);
    }
    if c.len() > 0 {
        lemma_first_missing_bounds(ms, c, 1);
        lemma_last_extension(u, unk, ms, c, first_missing(ms, c, 1));
    }
}
/// Whether the n-gram of `w` and the first `j + 1` words of `c` is stored: in middle table
/// `j` below the highest order, in the table of the highest order at it.
pub open spec fn ngram_stored(
    ms: Seq<Map<u64, ProbBackoffBits>>,
    longest: Map<u64, u32>,
    w: WordIndex,
    c: Seq<WordIndex>,
    j: int,
) -> bool {
    ||| 0 <= j < ms.len() && ms[j].contains_key(ngram_key(w, c, j + 1))
    ||| j == ms.len() && longest.contains_key(ngram_key(w, c, j + 1))
}

/// Whether every stored n-gram extends its context: the context n-gram is stored (unigrams
/// always are) and its backoff says that a longer n-gram extends it. Inserting an n-gram
/// marks its context's backoff so; that a whole loaded model has this property is assumed
/// by the law below, not proved.
pub open spec fn contexts_extended(
    u: Seq<ProbBackoffBits>,
    unk: ProbBackoffBits,
    ms: Seq<Map<u64, ProbBackoffBits>>,
    longest: Map<u64, u32>,
) -> bool {
    forall|w: WordIndex, c: Seq<WordIndex>, j: int|
        0 <= j < c.len() && #[trigger] ngram_stored(ms, longest, w, c, j) ==> {
            &&& context_backoff(u, unk, ms, c, j) != sign_bit()
            &&& j >= 1 ==> context_present(ms, c, j)
        }
}

/// Scans of two contexts that agree on their first `i` words agree after `i` words.
proof fn lemma_scan_same_prefix(ms: Seq<Map<u64, ProbBackoffBits>>, c: Seq<WordIndex>, d: Seq<WordIndex>, i: int, s: Scan)
    requires
        0 <= i <= c.len(),
        i <= d.len(),
        c.take(i) == d.take(i),
    ensures
        scan(ms, c, i, s) == scan(ms, d, i, s),
    decreases i,
{
    if i > 0 {
        assert(c.take(i - 1) =~= c.take(i).take(i - 1));
        assert(d.take(i - 1) =~= d.take(i).take(i - 1));
        lemma_scan_same_prefix(ms, c, d, i - 1, s);
        assert(c[i - 1] == c.take(i)[i - 1]);
        assert(d[i - 1] == d.take(i)[i - 1]);
    }
}

/// Once the scan has stopped, later words change nothing.
proof fn lemma_scan_stopped(ms: Seq<Map<u64, ProbBackoffBits>>, c: Seq<WordIndex>, from: int, k: int, s: Scan)
    requires
        0 <= from <= k,
        scan(ms, c, from, s).4 != 0,
    ensures
        scan(ms, c, k, s) == scan(ms, c, from, s),
    decreases k - from,
{
    if k > from {
        lemma_scan_stopped(ms, c, from, k - 1, s);
    }
}

/// Past the length of the state rebuilt from `c`, the n-gram of any word and the context
/// words up to there is not stored, in a model whose stored n-grams extend their contexts.
proof fn lemma_not_stored_past_state(
    u: Seq<ProbBackoffBits>,
    unk: ProbBackoffBits,
    ms: Seq<Map<u64, ProbBackoffBits>>,
    lo: Map<u64, u32>,
    c: Seq<WordIndex>,
    w: WordIndex,
)
    requires
        contexts_extended(u, unk, ms, lo),
        c.len() > 0,
    ensures
        ({
            let k = first_missing(ms, c, 1);
            let len = last_extension(u, unk, ms, c, k);
            &&& 0 <= len <= k <= c.len()
            &&& len < c.len() ==> !ngram_stored(ms, lo, w, c, len)
        }),
{
    let k = first_missing(ms, c, 1);
    lemma_first_missing_bounds(ms, c, 1);
    lemma_last_extension(u, unk, ms, c, k);
    let len = last_extension(u, unk, ms, c, k);
    if len < c.len() && ngram_stored(ms, lo, w, c, len) {
        if len < k {
            assert(context_backoff(u, unk, ms, c, len) == sign_bit());
        } else {
            assert(!context_present(ms, c, k));
        }
    }
}

/// When the n-gram of `w` and the first `len + 1` context words is not stored, scanning on
/// past `len` words leaves the matched length and the probability as they were.
proof fn lemma_scan_tail(
    u: Seq<ProbBackoffBits>,
    unk: ProbBackoffBits,
    ms: Seq<Map<u64, ProbBackoffBits>>,
    lo: Map<u64, u32>,
    c: Seq<WordIndex>,
    w: WordIndex,
    len: int,
    s: Scan,
)
    requires
        0 <= len < c.len(),
        ms.len() <= 4,
        scan_kept(u, unk, ms, c, w, len, scan(ms, c, len, s)),
        !ngram_stored(ms, lo, w, c, len),
    ensures
        finish_scan(lo, ms.len() as int, c, scan(ms, c, c.len() as int, s)).ngram_length == finish_scan(
            lo,
            ms.len() as int,
            c,
            scan(ms, c, len, s),
        ).ngram_length,
        finish_scan(lo, ms.len() as int, c, scan(ms, c, c.len() as int, s)).prob == finish_scan(
            lo,
            ms.len() as int,
            c,
            scan(ms, c, len, s),
        ).prob,
{
    let sl = scan(ms, c, len, s);
    let sn = scan(ms, c, len + 1, s);
    assert(sn == scan_step(ms, c, len, sl));
    if sl.4 == 0 && !sl.0.independent_left {
        lemma_ngram_key(w, c, len);
    }
    lemma_scan_stopped(ms, c, len + 1, c.len() as int, s);
}

/// Scans from two starts that differ only in the backoffs and the length to keep reach the
/// same result, node and phase.
proof fn lemma_scan_first_fields(ms: Seq<Map<u64, ProbBackoffBits>>, c: Seq<WordIndex>, i: int, s1: Scan, s2: Scan)
    requires
        0 <= i,
        s1.0 == s2.0,
        s1.1 == s2.1,
        s1.4 == s2.4,
    ensures
        scan(ms, c, i, s1).0 == scan(ms, c, i, s2).0,
        scan(ms, c, i, s1).1 == scan(ms, c, i, s2).1,
        scan(ms, c, i, s1).4 == scan(ms, c, i, s2).4,
    decreases i,
{
    if i > 0 {
        lemma_scan_first_fields(ms, c, i - 1, s1, s2);
    }
}

/// Scoring without a state matches as long an n-gram, with the same probability, as scoring
/// in the state rebuilt from the context, in a model whose stored n-grams extend their
/// contexts: past the state's length, no stored n-gram extends the context.
#[verifier::spinoff_prover]
pub proof fn law_stateless_matches_state_score<V>(
    model: GenericModel<V>,
    context: Seq<WordIndex>,
    w: WordIndex,
    bo1: Seq<u32>,
    bo2: Seq<u32>,
)
    requires
        model.wf(),
        contexts_extended(
            model.spec_search().unigrams(),
            model.spec_search().unknown(),
            model.spec_search().middles(),
            model.spec_search().longest(),
        ),
    ensures
        ({
            let u = model.spec_search().unigrams();
            let unk = model.spec_search().unknown();
            let ms = model.spec_search().middles();
            let c = clamped_context(context, ms.len() as int);
            let len = if c.len() == 0 {
                0
            } else {
                last_extension(u, unk, ms, c, first_missing(ms, c, 1))
            };
            let stateful = scored(model, c.take(len), w, bo1).0;
            let stateless = scored(model, c, w, bo2).0;
            &&& stateful.ngram_length == stateless.ngram_length
            &&& stateful.prob == stateless.prob
        }),
{
    let u = model.spec_search().unigrams();
    let unk = model.spec_search().unknown();
    let ms = model.spec_search().middles();
    let lo = model.spec_search().longest();
    let m = ms.len() as int;
    let c = clamped_context(context, m);
    if c.len() > 0 {
        lemma_not_stored_past_state(u, unk, ms, lo, c, w);
        let len = last_extension(u, unk, ms, c, first_missing(ms, c, 1));
        let d = c.take(len);
        let s1 = model.start_scan(w, bo1);
        let s2 = model.start_scan(w, bo2);
        lemma_ngram_key(w, c, 0);
        assert(scan_kept(u, unk, ms, c, w, 0, s2));
        lemma_scan_stored(u, unk, ms, c, w, len, s2);
        let sl = scan(ms, c, len, s2);
        if len < c.len() {
            lemma_scan_tail(u, unk, ms, lo, c, w, len, s2);
        } else {
            assert(d =~= c);
        }
        if len > 0 {
            assert(c.take(len) =~= d.take(len));
            lemma_scan_same_prefix(ms, c, d, len, s2);
            assert(scan(ms, d, len, s1).0 == sl.0 && scan(ms, d, len, s1).4 == sl.4 && scan(ms, d, len, s1).1
                == sl.1) by {
                lemma_scan_first_fields(ms, d, len, s1, s2);
            }
            if sl.4 == 2 {
                assert(d[m] == c[m]);
            }
        }
    }
}

} // verus!
