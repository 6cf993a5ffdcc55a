//! Estimation of language models from text: configuration, counting and the pieces of the
//! pipeline that work on integers.
pub mod config;
pub mod count;
pub mod interpolate;
pub mod pipeline;
pub mod proba;

use vstd::prelude::*;
use vstd::slice::slice_to_vec;
use crate::builder::count::{
    add_sentence, distinct_keys, law_sentence_counts, listed, listed_count, occurrences, wrap_add, NgramCounter,
    NgramCountsView,
};
use crate::filter::string_views;
use crate::text::{split_whitespace, white_split};
use crate::types::WordIndex;
use crate::vocabulary::{lemma_added_is_learned, vocab_id, vocab_learn, ProbingVocabulary, Vocabulary};

verus! {

/// What the header of an estimated model records: the input file, the number of tokens
/// read and the n-gram counts after pruning.
#[derive(Debug)]
pub struct HeaderInfo {
    pub input_file: String,
    pub token_count: u64,
    pub counts_pruned: Vec<u64>,
}

impl HeaderInfo {
    pub fn new(input_file_in: &str, token_count_in: u64, counts_pruned_in: &Vec<u64>) -> (r: Self)
        ensures
            r.input_file@ == input_file_in@,
            r.token_count == token_count_in,
            r.counts_pruned@ == counts_pruned_in@,
    {
        let mut counts: Vec<u64> = Vec::new();
        let mut i: usize = 0;
        while i < counts_pruned_in.len()
            invariant
                i <= counts_pruned_in@.len(),
                counts@ == counts_pruned_in@.take(i as int),
            decreases counts_pruned_in@.len() - i,
        {
            counts.push(counts_pruned_in[i]);
            proof {
                assert(counts_pruned_in@.take(i + 1) =~= counts_pruned_in@.take(i as int).push(
                    counts_pruned_in@[i as int],
                ));
            }
            i = i + 1;
        }
        assert(counts_pruned_in@.take(counts_pruned_in@.len() as int) =~= counts_pruned_in@);
        HeaderInfo { input_file: input_file_in.to_owned(), token_count: token_count_in, counts_pruned: counts }
    }
}

/// The indices that a vocabulary holding `words` gives `ws` when they are added in turn, and
/// its words after them.
pub open spec fn vocab_ids(words: Seq<Seq<char>>, ws: Seq<Seq<char>>) -> (Seq<u32>, Seq<Seq<char>>)
    decreases ws.len(),
{
    if ws.len() == 0 {
        (Seq::empty(), words)
    } else {
        let (ids, w2) = vocab_ids(words, ws.drop_last());
        (ids.push(vocab_id(w2, ws.last())), vocab_learn(w2, ws.last()))
    }
}

/// Adding words grows the vocabulary by at most one word each.
proof fn lemma_vocab_ids_len(words: Seq<Seq<char>>, ws: Seq<Seq<char>>)
    ensures
        vocab_ids(words, ws).0.len() == ws.len(),
        vocab_ids(words, ws).1.len() <= words.len() + ws.len(),
    decreases ws.len(),
{
    if ws.len() > 0 {
        lemma_vocab_ids_len(words, ws.drop_last());
    }
}

/// The number of words of the lines.
pub open spec fn word_total(lines: Seq<Seq<char>>) -> nat
    decreases lines.len(),
{
    if lines.len() == 0 {
        0
    } else {
        word_total(lines.drop_last()) + white_split(lines.last()).len()
    }
}

/// What counting a corpus has built: the vocabulary's words, the n-gram counts and the
/// number of tokens.
pub struct CorpusState {
    pub words: Seq<Seq<char>>,
    pub counts: NgramCountsView,
    pub tokens: u64,
}

/// The state after one more line: a line without words changes nothing; otherwise its
/// words, with `bos` before and `eos` after, give the n-grams of up to `order` words.
pub open spec fn corpus_line(st: CorpusState, bos: u32, eos: u32, line: Seq<char>, order: nat) -> CorpusState {
    let ws = white_split(line);
    if ws.len() == 0 {
        st
    } else {
        let (ids, w2) = vocab_ids(st.words, ws);
        let t = seq![bos] + ids + seq![eos];
        CorpusState {
            words: w2,
            counts: add_sentence(st.counts, t, order, t.len()),
            tokens: wrap_add(st.tokens, ws.len() as u64),
        }
    }
}

/// The state after `lines`, in order.
pub open spec fn corpus_lines(st: CorpusState, bos: u32, eos: u32, lines: Seq<Seq<char>>, order: nat) -> CorpusState
    decreases lines.len(),
{
    if lines.len() == 0 {
        st
    } else {
        corpus_line(corpus_lines(st, bos, eos, lines.drop_last(), order), bos, eos, lines.last(), order)
    }
}

/// The words of a vocabulary once the markers `<unk>`, `<s>` and `</s>` are added.
pub open spec fn with_markers(words: Seq<Seq<char>>) -> Seq<Seq<char>> {
    vocab_learn(vocab_learn(vocab_learn(words, "<unk>"@), "<s>"@), "</s>"@)
}

/// What counting `lines` with a vocabulary holding `words` gives.
pub open spec fn corpus_run(words: Seq<Seq<char>>, lines: Seq<Seq<char>>, order: nat) -> CorpusState {
    let w0 = with_markers(words);
    corpus_lines(
        CorpusState { words: w0, counts: Seq::empty(), tokens: 0 },
        vocab_id(w0, "<s>"@),
        vocab_id(w0, "</s>"@),
        lines,
        order,
    )
}

/// The number of times `g` occurs, as an n-gram of at most `order` words, over the
/// sentences of the lines of `lines` that have words, counted from state `st`.
pub open spec fn corpus_occurrences(
    st: CorpusState,
    bos: u32,
    eos: u32,
    lines: Seq<Seq<char>>,
    order: nat,
    g: Seq<u32>,
) -> nat
    decreases lines.len(),
{
    if lines.len() == 0 {
        0
    } else {
        let before = corpus_lines(st, bos, eos, lines.drop_last(), order);
        let ws = white_split(lines.last());
        corpus_occurrences(st, bos, eos, lines.drop_last(), order, g) + if ws.len() == 0 {
            0nat
        } else {
            let t = seq![bos] + vocab_ids(before.words, ws).0 + seq![eos];
            occurrences(t, order, t.len(), g)
        }
    }
}

/// Counting a corpus from counts that list each n-gram once keeps them so, lists exactly the
/// n-grams listed before or occurring in its sentences, and adds to each count its number of
/// occurrences (modulo 2^64).
pub proof fn law_corpus_counts(st: CorpusState, bos: u32, eos: u32, lines: Seq<Seq<char>>, order: nat, g: Seq<u32>)
    requires
        distinct_keys(st.counts),
    ensures
        ({
            let r = corpus_lines(st, bos, eos, lines, order).counts;
            let n = corpus_occurrences(st, bos, eos, lines, order, g);
            &&& distinct_keys(r)
            &&& listed(r, g) == (listed(st.counts, g) || n > 0)
            &&& listed_count(r, g) as int == (listed_count(st.counts, g) + n) % 0x1_0000_0000_0000_0000
        }),
    decreases lines.len(),
{
    vstd::arithmetic::div_mod::lemma_small_mod(listed_count(st.counts, g) as nat, 0x1_0000_0000_0000_0000);
    if lines.len() > 0 {
        let init = lines.drop_last();
        let before = corpus_lines(st, bos, eos, init, order);
        law_corpus_counts(st, bos, eos, init, order, g);
        let ws = white_split(lines.last());
        if ws.len() > 0 {
            let t = seq![bos] + vocab_ids(before.words, ws).0 + seq![eos];
            law_sentence_counts(before.counts, t, order, t.len(), g);
            let n0 = corpus_occurrences(st, bos, eos, init, order, g);
            vstd::arithmetic::div_mod::lemma_add_mod_noop_right(
                occurrences(t, order, t.len(), g) as int,
                listed_count(st.counts, g) + n0,
                0x1_0000_0000_0000_0000,
            );
        }
    }
}

/// Each counted n-gram with its count.
pub open spec fn count_pairs(v: Seq<(Vec<WordIndex>, u64)>) -> NgramCountsView {
    v.map_values(|e: (Vec<WordIndex>, u64)| (e.0@, e.1))
}

/// Counting of a text corpus.
#[derive(Debug, Clone)]
pub struct CorpusCount {
    pub token_count: u64,
    pub type_count: WordIndex,
}

impl CorpusCount {
    /// Estimated bytes for a probing vocabulary hash table of `vocab_estimate` entries.
    pub fn vocab_usage(vocab_estimate: WordIndex) -> (r: usize)
        requires
            vocab_estimate * 8 + 1024 <= usize::MAX,
        ensures
            r == vocab_estimate * 8 + 1024,
    {
        (vocab_estimate as usize) * 8 + 1024
    }

    /// A count of nothing yet.
    pub fn new() -> (r: Self)
        ensures
            r.token_count == 0,
            r.type_count == 0,
    {
        Self { token_count: 0, type_count: 0 }
    }

    /// Counts the n-grams of up to `order` words of the lines of a corpus: the markers
    /// `<unk>`, `<s>` and `</s>` are added to `vocab` first; each line with words is a
    /// sentence between `<s>` and `</s>`, its words added to `vocab`. Records the number of
    /// tokens and the vocabulary's bound, and gives each n-gram with its count, in the order
    /// in which the n-grams were first seen.
    pub fn run(&mut self, lines: &[String], order: usize, vocab: &mut ProbingVocabulary) -> (r: Vec<
        (Vec<WordIndex>, u64),
    >)
        requires
            old(vocab).wf(),
            old(vocab).words().len() + 4 + word_total(string_views(lines@)) < u32::MAX,
        ensures
            final(vocab).wf(),
            final(vocab).words() == corpus_run(old(vocab).words(), string_views(lines@), order as nat).words,
            count_pairs(r@) == corpus_run(old(vocab).words(), string_views(lines@), order as nat).counts,
            final(self).token_count == corpus_run(old(vocab).words(), string_views(lines@), order as nat).tokens,
            final(self).type_count == final(vocab).base().spec_bound(),
    {
        let ghost ls = string_views(lines@);
        let ghost v0 = *vocab;
        let r0 = vocab.add_word("<unk>");
        proof {
            lemma_added_is_learned(v0, *vocab, "<unk>"@, r0);
        }
        let ghost v1 = *vocab;
        let r1 = vocab.add_word("<s>");
        proof {
            lemma_added_is_learned(v1, *vocab, "<s>"@, r1);
        }
        let ghost v2 = *vocab;
        let r2 = vocab.add_word("</s>");
        proof {
            lemma_added_is_learned(v2, *vocab, "</s>"@, r2);
        }
        let bos = vocab.index("<s>");
        let eos = vocab.index("</s>");
        let ghost w0 = vocab.words();
        let ghost st0 = CorpusState { words: w0, counts: Seq::empty(), tokens: 0 };
        proof {
            let a = vocab_learn(v0.words(), "<unk>"@);
            lemma_learn_contains(a, "<s>"@, "<s>"@);
            lemma_learn_contains(vocab_learn(a, "<s>"@), "</s>"@, "<s>"@);
            lemma_learn_contains(vocab_learn(a, "<s>"@), "</s>"@, "</s>"@);
        }
        assert(w0 == with_markers(v0.words()));
        assert(w0.contains("<s>"@) && w0.contains("</s>"@));
        let mut counter = NgramCounter::new();
        let mut tokens: u64 = 0;
        let mut i: usize = 0;
        assert(ls.take(0) =~= Seq::<Seq<char>>::empty());
        while i < lines.len()
            invariant
                ls == string_views(lines@),
                i <= lines@.len(),
                v0.words().len() + 4 + word_total(ls) < u32::MAX,
                w0.len() <= v0.words().len() + 3,
                vocab.wf(),
                counter.wf(),
                vocab.words() == corpus_lines(st0, bos, eos, ls.take(i as int), order as nat).words,
                vocab.words().len() <= w0.len() + word_total(ls.take(i as int)),
                counter.view() == corpus_lines(st0, bos, eos, ls.take(i as int), order as nat).counts,
                tokens == corpus_lines(st0, bos, eos, ls.take(i as int), order as nat).tokens,
            decreases lines@.len() - i,
        {
            let line = lines[i].as_str();
            proof {
                assert(ls.take(i + 1).drop_last() =~= ls.take(i as int));
                assert(ls.take(i + 1).last() == line@);
                lemma_word_total_prefix(ls, i as int + 1);
            }
            let words = split_whitespace(line);
            let ghost ws = words@.map_values(|t: &str| t@);
            if words.len() != 0 {
                let ghost k0 = vocab.words();
                let mut ids: Vec<u32> = Vec::new();
                ids.push(bos);
                let mut j: usize = 0;
                assert(ws.take(0) =~= Seq::<Seq<char>>::empty());
                while j < words.len()
                    invariant
                        ws == words@.map_values(|t: &str| t@),
                        j <= words@.len(),
                        vocab.wf(),
                        k0.len() + ws.len() + 1 < u32::MAX,
                        ids@ == seq![bos] + vocab_ids(k0, ws.take(j as int)).0,
                        vocab.words() == vocab_ids(k0, ws.take(j as int)).1,
                    decreases words@.len() - j,
                {
                    proof {
                        lemma_vocab_ids_len(k0, ws.take(j as int));
                    }
                    let ghost vb = *vocab;
                    let id = vocab.add_word(words[j]);
                    proof {
                        lemma_added_is_learned(vb, *vocab, words@[j as int]@, id);
                        assert(ws.take(j + 1).drop_last() =~= ws.take(j as int));
                        assert(ws.take(j + 1).last() == words@[j as int]@);
                    }
                    ids.push(id);
                    proof {
                        assert(ids@ =~= seq![bos] + vocab_ids(k0, ws.take(j + 1)).0);
                    }
                    j = j + 1;
                }
                ids.push(eos);
                tokens = tokens.wrapping_add(words.len() as u64);
                proof {
                    assert(ws.take(ws.len() as int) =~= ws);
                    assert(ids@ =~= seq![bos] + vocab_ids(k0, ws).0 + seq![eos]);
                    lemma_vocab_ids_len(k0, ws);
                }
                counter.add_sentence(ids.as_slice(), order);
            }
            i = i + 1;
        }
        assert(ls.take(lines@.len() as int) =~= ls);
        let mut out: Vec<(Vec<WordIndex>, u64)> = Vec::new();
        let n = counter.len();
        let mut k: usize = 0;
        while k < n
            invariant
                counter.wf(),
                n == counter.view().len(),
                k <= n,
                count_pairs(out@) == counter.view().take(k as int),
            decreases n - k,
        {
            let (g, c) = counter.get(k);
            let copy = slice_to_vec(g.as_slice());
            let ghost before = out@;
            let ghost entry = (copy@, c);
            assert(entry == counter.view()[k as int]);
            out.push((copy, c));
            proof {
                assert(count_pairs(out@) =~= count_pairs(before).push(entry));
                assert(counter.view().take(k + 1) =~= counter.view().take(k as int).push(entry));
            }
            k = k + 1;
        }
        assert(counter.view().take(n as int) =~= counter.view());
        self.token_count = tokens;
        self.type_count = vocab.bound();
        out
    }
}

/// Adding `w` leaves `w` in the vocabulary, and every word that was in it.
proof fn lemma_learn_contains(words: Seq<Seq<char>>, w: Seq<char>, x: Seq<char>)
    requires
        words.contains(x) || x == w,
    ensures
        vocab_learn(words, w).contains(x),
{
    if !words.contains(w) {
        let l = words.push(w);
        if x == w {
            assert(l[words.len() as int] == w);
        } else {
            let k = choose|k: int| 0 <= k < words.len() && words[k] == x;
            assert(l[k] == x);
        }
    }
}

/// The words of a prefix of the lines are at most the words of all of them.
proof fn lemma_word_total_prefix(lines: Seq<Seq<char>>, k: int)
    requires
        0 <= k <= lines.len(),
    ensures
        word_total(lines.take(k)) <= word_total(lines),
        k > 0 ==> word_total(lines.take(k)) == word_total(lines.take(k - 1)) + white_split(lines[k - 1]).len(),
    decreases lines.len() - k,
{
    if k < lines.len() {
        lemma_word_total_prefix(lines, k + 1);
        assert(lines.take(k + 1).drop_last() =~= lines.take(k));
    } else {
        assert(lines.take(k) =~= lines);
    }
    if k > 0 {
        assert(lines.take(k).drop_last() =~= lines.take(k - 1));
    }
}

} // verus!

verus! {

/// The top bit of a count, set on an n-gram that was marked while the model is built.
pub open spec fn count_mark() -> u64 {
    0x8000_0000_0000_0000u64
}

/// What an n-gram carries through the build: first its count, whose top bit is a mark;
/// later its uninterpolated or its final probabilities, which the code that computes them
/// keeps beside this value.
#[derive(Debug, Clone, Copy, PartialEq, Eq)]
pub enum PayloadType {
    Count(u64),
    Uninterp,
    Complete,
}

/// The payload of an n-gram during the build.
#[derive(Debug, Clone, Copy, PartialEq, Eq)]
pub struct BuildingPayload {
    pub payload: PayloadType,
}

impl BuildingPayload {
    /// Whether the payload is a count with its mark set.
    pub open spec fn marked(self) -> bool {
        match self.payload {
            PayloadType::Count(c) => c >= count_mark(),
            _ => false,
        }
    }

    /// The count without its mark; 0 for a payload that is no count.
    pub open spec fn count_value(self) -> u64 {
        match self.payload {
            PayloadType::Count(c) => (c % count_mark()) as u64,
            _ => 0,
        }
    }

    /// A payload holding `count`.
    pub fn from_count(count: u64) -> (r: Self)
        ensures
            r.payload == PayloadType::Count(count),
    {
        BuildingPayload { payload: PayloadType::Count(count) }
    }

    /// Whether the payload is a count with its mark set.
    pub fn is_marked(&self) -> (r: bool)
        ensures
            r == self.marked(),
    {
        match self.payload {
            PayloadType::Count(count) => {
                assert((count >> 63u64) != 0 <==> count >= 0x8000_0000_0000_0000u64) by (bit_vector);
                (count >> 63u64) != 0
            },
            _ => false,
        }
    }

    /// Sets the mark of a count; other payloads are left as they are.
    pub fn mark(&mut self)
        ensures
            match old(self).payload {
                PayloadType::Count(c) => final(self).payload == PayloadType::Count(c | count_mark()),
                _ => *final(self) == *old(self),
            },
            old(self).payload is Count ==> final(self).marked(),
            final(self).count_value() == old(self).count_value(),
    {
        match self.payload {
            PayloadType::Count(count) => {
                let marked = count | 0x8000_0000_0000_0000u64;
                assert(marked >= 0x8000_0000_0000_0000u64 && marked % 0x8000_0000_0000_0000u64
                    == count % 0x8000_0000_0000_0000u64) by (bit_vector)
                    requires
                        marked == count | 0x8000_0000_0000_0000u64,
                ;
                self.payload = PayloadType::Count(marked);
            },
            _ => {},
        }
    }

    /// Clears the mark of a count; other payloads are left as they are.
    pub fn unmark(&mut self)
        ensures
            match old(self).payload {
                PayloadType::Count(c) => final(self).payload == PayloadType::Count(
                    (c % count_mark()) as u64,
                ),
                _ => *final(self) == *old(self),
            },
            !final(self).marked(),
            final(self).count_value() == old(self).count_value(),
    {
        match self.payload {
            PayloadType::Count(count) => {
                let cleared = count & !0x8000_0000_0000_0000u64;
                assert(cleared == count % 0x8000_0000_0000_0000u64) by (bit_vector)
                    requires
                        cleared == count & !0x8000_0000_0000_0000u64,
                ;
                self.payload = PayloadType::Count(cleared);
            },
            _ => {},
        }
    }

    /// The count without its mark; 0 for a payload that is no count.
    pub fn unmarked_count(&self) -> (r: u64)
        ensures
            r == self.count_value(),
    {
        match self.payload {
            PayloadType::Count(count) => {
                let cleared = count & !0x8000_0000_0000_0000u64;
                assert(cleared == count % 0x8000_0000_0000_0000u64) by (bit_vector)
                    requires
                        cleared == count & !0x8000_0000_0000_0000u64,
                ;
                cleared
            },
            _ => 0,
        }
    }

    /// The count that pruning compares with its threshold: 0 for a marked count, else the
    /// count.
    pub fn cutoff_count(&self) -> (r: u64)
        ensures
            r == if self.marked() {
                0
            } else {
                self.count_value()
            },
    {
        if self.is_marked() {
            0
        } else {
            self.unmarked_count()
        }
    }
}

/// The payload that holds count `c`.
pub open spec fn count_payload(c: u64) -> BuildingPayload {
    BuildingPayload { payload: PayloadType::Count(c) }
}

/// Setting the mark of a count makes it marked and clearing it makes it unmarked; neither
/// changes the count that the mark sits on.
pub proof fn law_mark_unmark_keep_count(c: u64)
    ensures
        count_payload(c | count_mark()).marked(),
        count_payload(c | count_mark()).count_value() == count_payload(c).count_value(),
        !count_payload((c % count_mark()) as u64).marked(),
        count_payload((c % count_mark()) as u64).count_value() == count_payload(c).count_value(),
{
    let m = c | 0x8000_0000_0000_0000u64;
    assert(m >= 0x8000_0000_0000_0000u64 && m % 0x8000_0000_0000_0000u64 == c
        % 0x8000_0000_0000_0000u64) by (bit_vector)
        requires
            m == c | 0x8000_0000_0000_0000u64,
    ;
    let u = c % 0x8000_0000_0000_0000u64;
    assert(u < 0x8000_0000_0000_0000u64);
}

} // verus!
