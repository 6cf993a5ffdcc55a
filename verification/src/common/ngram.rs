//! N-grams: a sequence of word indices with a payload.
use vstd::prelude::*;
use vstd::layout::size_of;
use crate::types::WordIndex;

verus! {

/// Bytes that an n-gram of `order` words and a payload of type `P` occupies.
pub open spec fn spec_total_size<P>(order: int) -> int {
    order * 4 + size_of::<P>()
}

/// An n-gram borrowed from storage: its words and its payload.
#[derive(Debug)]
pub struct NGram<'a, Payload> {
    words: &'a [WordIndex],
    payload: &'a Payload,
}

impl<'a, Payload> NGram<'a, Payload> {
    pub closed spec fn spec_words(&self) -> Seq<WordIndex> {
        self.words@
    }

    pub closed spec fn spec_payload(&self) -> &'a Payload {
        self.payload
    }

    /// An n-gram of `words` with `payload`.
    pub fn new(words: &'a [WordIndex], payload: &'a Payload) -> (r: Self)
        ensures
            r.spec_words() == words@,
            r.spec_payload() == payload,
    {
        Self { words, payload }
    }

    /// Number of words.
    pub fn order(&self) -> (r: usize)
        ensures
            r == self.spec_words().len(),
    {
        self.words.len()
    }

    /// The words.
    pub fn words(&self) -> (r: &[WordIndex])
        ensures
            r@ == self.spec_words(),
    {
        self.words
    }

    /// Word `index` (0 is the first word).
    pub fn word(&self, index: usize) -> (r: WordIndex)
        requires
            index < self.spec_words().len(),
        ensures
            r == self.spec_words()[index as int],
    {
        self.words[index]
    }

    /// The first word.
    pub fn begin(&self) -> (r: WordIndex)
        requires
            self.spec_words().len() > 0,
        ensures
            r == self.spec_words()[0],
    {
        self.words[0]
    }

    /// The last word.
    pub fn last(&self) -> (r: WordIndex)
        requires
            self.spec_words().len() > 0,
        ensures
            r == self.spec_words().last(),
    {
        self.words[self.words.len() - 1]
    }

    /// The payload.
    pub fn value(&self) -> (r: &Payload)
        ensures
            r == self.spec_payload(),
    {
        self.payload
    }

    /// Bytes that an n-gram of `order` words occupies: the words plus the payload.
    pub fn total_size(order: usize) -> (r: usize)
        requires
            spec_total_size::<Payload>(order as int) <= usize::MAX,
        ensures
            r == spec_total_size::<Payload>(order as int),
    {
        order * 4 + std::mem::size_of::<Payload>()
    }

    /// Bytes that this n-gram occupies.
    pub fn total_size_instance(&self) -> (r: usize)
        requires
            spec_total_size::<Payload>(self.spec_words().len() as int) <= usize::MAX,
        ensures
            r == spec_total_size::<Payload>(self.spec_words().len() as int),
    {
        Self::total_size(self.order())
    }

    /// The order of an n-gram that occupies `size` bytes.
    pub fn order_from_size(size: usize) -> (r: usize)
        requires
            size >= size_of::<Payload>(),
        ensures
            r == (size - size_of::<Payload>()) / 4,
    {
        (size - std::mem::size_of::<Payload>()) / 4
    }
}

/// The size computation inverts: the order of the size of an n-gram of `order` words is `order`.
pub proof fn lemma_order_from_total_size<P>(order: int)
    requires
        order >= 0,
    ensures
        (spec_total_size::<P>(order) - size_of::<P>()) / 4 == order,
{
}

/// An n-gram that owns its words and payload.
#[derive(Debug, Clone)]
pub struct OwnedNGram<Payload> {
    pub words: Vec<WordIndex>,
    pub payload: Payload,
}

/// Hands out owned n-grams one at a time, in the order they were given.
pub struct NGramIterator<Payload> {
    rest_reversed: Vec<OwnedNGram<Payload>>,
    total: usize,
}

impl<Payload> NGramIterator<Payload> {
    /// The entries still to come, in order.
    pub closed spec fn remaining(&self) -> Seq<OwnedNGram<Payload>> {
        self.rest_reversed@.reverse()
    }

    pub closed spec fn spec_total(&self) -> usize {
        self.total
    }

    /// Iterates over `entries`.
    pub fn new(entries: Vec<OwnedNGram<Payload>>) -> (r: Self)
        ensures
            r.remaining() == entries@,
            r.spec_total() == entries@.len(),
    {
        let total = entries.len();
        let mut entries = entries;
        let ghost orig = entries@;
        let mut rest_reversed: Vec<OwnedNGram<Payload>> = Vec::new();
        while entries.len() > 0
            invariant
                entries@.len() <= orig.len(),
                entries@ == orig.subrange(0, entries@.len() as int),
                rest_reversed@ == orig.subrange(entries@.len() as int, orig.len() as int).reverse(),
            decreases entries@.len(),
        {
            let ghost before = entries@;
            let ghost before_rr = rest_reversed@;
            let e = entries.pop().unwrap();
            rest_reversed.push(e);
            proof {
                let k = entries@.len() as int;
                assert(entries@ =~= before.drop_last());
                assert(e == before.last());
                assert(entries@ =~= orig.subrange(0, k));
                assert(orig.subrange(k, orig.len() as int).reverse() =~= orig.subrange(
                    k + 1,
                    orig.len() as int,
                ).reverse().push(orig[k]));
                assert(rest_reversed@ =~= before_rr.push(e));
            }
        }
        assert(orig.subrange(0, orig.len() as int) =~= orig);
        assert(rest_reversed@.reverse() =~= orig) by {
            assert(orig.subrange(0, orig.len() as int) =~= orig);
        }
        Self { rest_reversed, total }
    }

    /// Number of entries given at construction, consumed ones included.
    pub fn count_total(&self) -> (r: usize)
        ensures
            r == self.spec_total(),
    {
        self.total
    }

    /// Number of entries still to come.
    pub fn len(&self) -> (r: usize)
        ensures
            r == self.remaining().len(),
    {
        self.rest_reversed.len()
    }

    /// The next entry, if any.
    pub fn next(&mut self) -> (r: Option<OwnedNGram<Payload>>)
        ensures
            final(self).spec_total() == old(self).spec_total(),
            old(self).remaining().len() == 0 ==> r is None && final(self).remaining() == old(self).remaining(),
            old(self).remaining().len() > 0 ==> r == Some(old(self).remaining()[0])
                && final(self).remaining() == old(self).remaining().drop_first(),
    {
        let r = self.rest_reversed.pop();
        proof {
            if old(self).remaining().len() > 0 {
                assert(self.remaining() =~= old(self).remaining().drop_first());
            }
        }
        r
    }
}

} // verus!
