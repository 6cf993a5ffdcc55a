//! The vocabulary seen by the query tool before a model is attached: every word is the
//! unknown word.
use vstd::prelude::*;

verus! {

/// A vocabulary that knows no word.
#[derive(Debug)]
pub struct Vocabulary;

impl Vocabulary {
    /// The index of any word: 0, the unknown word.
    pub fn index(&self, _word: &str) -> (r: usize)
        ensures
            r == 0,
    {
        0
    }

    /// The index of words not found: 0.
    pub fn not_found(&self) -> (r: usize)
        ensures
            r == 0,
    {
        0
    }

    /// The index of the end of sentence: 0.
    pub fn end_sentence(&self) -> (r: usize)
        ensures
            r == 0,
    {
        0
    }
}

} // verus!

verus! {

/// How many entries of `words` equal `id`.
pub open spec fn occurrences(words: Seq<usize>, id: usize) -> nat
    decreases words.len(),
{
    if words.len() == 0 {
        0
    } else {
        occurrences(words.drop_last(), id) + if words.last() == id {
            1nat
        } else {
            0nat
        }
    }
}

/// The counts that the query tool keeps while it scores a corpus: unknown words on the
/// current line, and unknown words and tokens over the whole corpus.
#[derive(Debug, Clone, Copy, PartialEq, Eq)]
pub struct QueryTally {
    pub line_oov: u64,
    pub corpus_oov: u64,
    pub corpus_tokens: u64,
}

impl QueryTally {
    /// A tally before any word is scored.
    pub fn new() -> (r: QueryTally)
        ensures
            r.line_oov == 0,
            r.corpus_oov == 0,
            r.corpus_tokens == 0,
    {
        QueryTally { line_oov: 0, corpus_oov: 0, corpus_tokens: 0 }
    }

    /// Counts one scored word, whose vocabulary index is `vocab`; it is unknown when that
    /// index is `not_found`. Returns whether it was unknown.
    pub fn record_word(&mut self, vocab: usize, not_found: usize) -> (unknown: bool)
        requires
            old(self).line_oov < u64::MAX,
            old(self).corpus_tokens < u64::MAX,
        ensures
            unknown == (vocab == not_found),
            final(self).line_oov == old(self).line_oov + if unknown {
                1int
            } else {
                0int
            },
            final(self).corpus_tokens == old(self).corpus_tokens + 1,
            final(self).corpus_oov == old(self).corpus_oov,
    {
        let unknown = vocab == not_found;
        if unknown {
            self.line_oov = self.line_oov + 1;
        }
        self.corpus_tokens = self.corpus_tokens + 1;
        unknown
    }

    /// Counts the end-of-sentence token scored after a line in sentence context.
    pub fn record_end_sentence(&mut self)
        requires
            old(self).corpus_tokens < u64::MAX,
        ensures
            final(self).corpus_tokens == old(self).corpus_tokens + 1,
            final(self).line_oov == old(self).line_oov,
            final(self).corpus_oov == old(self).corpus_oov,
    {
        self.corpus_tokens = self.corpus_tokens + 1;
    }

    /// Closes a line: adds its unknown words to the corpus count and starts the next line
    /// at zero. Returns the line's count of unknown words.
    pub fn finish_line(&mut self) -> (oov: u64)
        requires
            old(self).corpus_oov + old(self).line_oov <= u64::MAX,
        ensures
            oov == old(self).line_oov,
            final(self).corpus_oov == old(self).corpus_oov + old(self).line_oov,
            final(self).line_oov == 0,
            final(self).corpus_tokens == old(self).corpus_tokens,
    {
        let oov = self.line_oov;
        self.corpus_oov = self.corpus_oov + oov;
        self.line_oov = 0;
        oov
    }

    /// Counts a whole line of vocabulary indices, with the end-of-sentence token when
    /// `sentence_context` holds, and closes it. Returns the line's count of unknown words.
    pub fn tally_line(&mut self, words: &[usize], not_found: usize, sentence_context: bool) -> (oov: u64)
        requires
            old(self).line_oov == 0,
            old(self).corpus_tokens + words@.len() + 1 <= u64::MAX,
            old(self).corpus_oov + words@.len() <= u64::MAX,
        ensures
            oov == occurrences(words@, not_found),
            final(self).line_oov == 0,
            final(self).corpus_oov == old(self).corpus_oov + occurrences(words@, not_found),
            final(self).corpus_tokens == old(self).corpus_tokens + words@.len() + if sentence_context {
                1int
            } else {
                0int
            },
    {
        let ghost start = *self;
        let mut i: usize = 0;
        while i < words.len()
            invariant
                i <= words@.len(),
                self.line_oov == occurrences(words@.take(i as int), not_found),
                self.line_oov <= i,
                self.corpus_tokens == start.corpus_tokens + i,
                self.corpus_oov == start.corpus_oov,
                start.corpus_tokens + words@.len() + 1 <= u64::MAX,
                start.corpus_oov + words@.len() <= u64::MAX,
            decreases words@.len() - i,
        {
            proof {
                assert(words@.take(i + 1).drop_last() =~= words@.take(i as int));
            }
            self.record_word(words[i], not_found);
            i = i + 1;
        }
        proof {
            assert(words@.take(i as int) =~= words@);
        }
        if sentence_context {
            self.record_end_sentence();
        }
        self.finish_line()
    }
}

} // verus!
