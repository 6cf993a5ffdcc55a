//! Bit-packed sorted arrays of the suffix trie: each entry holds a word index in its low
//! bits, followed by the entry's remaining fields.
use vstd::prelude::*;
use crate::bit_packing::{bit_len, mask_of, spec_read_int57, spec_write_int57, window_in_range, abs_bit, u64_bit,
    required_bits, low_mask, write_int57, read_int57, BitAddress, lemma_write_int57_bits, lemma_read_int57_depends,
    lemma_read_int57_bits, lemma_read_after_write_int57};
use crate::types::WordIndex;
use crate::quantize::QuantConfig;
use crate::common::ordering::{lex_less, lemma_lex_skip, lemma_lex_transitive};

verus! {

/// A half-open range `[begin, end)` of entry indices in a trie layer.
#[derive(Debug, Default, Clone, Copy)]
pub struct NodeRange {
    pub begin: u64,
    pub end: u64,
}

/// Number of bytes that `entries` entries of `bit_len(max_vocab) + remaining_bits` bits need:
/// one entry more than asked (for the end pointer), rounded up to bytes, plus 8 bytes so that
/// the 8-byte reads of the last entries stay inside the buffer.
pub open spec fn spec_base_size(entries: u64, max_vocab: u64, remaining_bits: u8) -> int {
    let total_bits = bit_len(max_vocab as nat) + remaining_bits;
    let bits = (entries + 1) * total_bits;
    bits / 8 + (if bits % 8 != 0 {
        1int
    } else {
        0
    }) + 8
}

/// Whether `base_size` can compute its result without overflow.
pub open spec fn base_size_fits(entries: u64, max_vocab: u64, remaining_bits: u8) -> bool {
    &&& bit_len(max_vocab as nat) + remaining_bits <= u8::MAX
    &&& entries + 1 <= u64::MAX
    &&& (entries + 1) * (bit_len(max_vocab as nat) + remaining_bits) <= u64::MAX - 16
}

/// The word-index column of a bit-packed array.
#[derive(Debug, Default)]
pub struct BitPacked {
    pub word_bits: u8,
    pub total_bits: u8,
    pub word_mask: u64,
    pub base: Vec<u8>,
    pub insert_index: u64,
    pub max_vocab: u64,
}

impl BitPacked {
    /// The bit offset of entry `i`.
    pub open spec fn entry_offset(self, i: int) -> int {
        i * self.total_bits
    }

    /// The word index that entry `i` holds, as read with the word mask.
    pub open spec fn entry(self, i: int) -> u64 {
        spec_read_int57(self.base@, self.entry_offset(i) as u64, self.word_mask)
    }

    /// The words of the entries inserted so far.
    pub open spec fn words(self) -> Seq<u64> {
        Seq::new(self.insert_index as nat, |i: int| self.entry(i))
    }

    /// The layout: the word column fits the 57-bit reader and the word mask matches the word
    /// width.
    pub open spec fn layout(self) -> bool {
        &&& self.word_bits <= 57
        &&& self.word_bits <= self.total_bits
        &&& self.word_mask == mask_of(self.word_bits)
        &&& self.insert_index * self.total_bits <= u64::MAX
    }

    /// Layout invariant, and room for the next entry: the word bits of the next free entry
    /// and every bit of the entries after it are still zero (the other fields of the next
    /// free entry may already be written).
    pub open spec fn wf(self) -> bool {
        &&& self.layout()
        &&& forall|p: int|
            self.entry_offset(self.insert_index as int) <= p < 8 * self.base@.len() && !(
            self.entry_offset(self.insert_index as int) + self.word_bits <= p < self.entry_offset(
                self.insert_index + 1,
            )) ==> !abs_bit(self.base@, p)
    }

    /// An empty array with no buffer.
    pub fn new() -> (r: Self)
        ensures
            r.word_bits == 0,
            r.total_bits == 0,
            r.word_mask == 0,
            r.base@.len() == 0,
            r.insert_index == 0,
            r.max_vocab == 0,
            r.wf(),
    {
        BitPacked {
            word_bits: 0,
            total_bits: 0,
            word_mask: 0,
            base: Vec::new(),
            insert_index: 0,
            max_vocab: 0,
        }
    }

    /// Number of entries inserted so far.
    pub fn insert_index(&self) -> (r: u64)
        ensures
            r == self.insert_index,
    {
        self.insert_index
    }

    /// Memory size in bytes for `entries` entries with words up to `max_vocab` and
    /// `remaining_bits` further bits per entry.
    pub fn base_size(entries: u64, max_vocab: u64, remaining_bits: u8) -> (r: u64)
        requires
            base_size_fits(entries, max_vocab, remaining_bits),
        ensures
            r == spec_base_size(entries, max_vocab, remaining_bits),
    {
        let word_bits = required_bits(max_vocab);
        let total_bits = word_bits + remaining_bits;
        let bits = (entries + 1) * (total_bits as u64);
        assert((entries + 1) * total_bits <= u64::MAX - 16);
        let bytes = bits / 8 + if bits % 8 != 0 { 1 } else { 0 };
        bytes + 8
    }

    /// Sets the array up over `base` for words up to `max_vocab` and `remaining_bits`
    /// further bits per entry. `base` must be zero-filled.
    pub fn base_init(&mut self, base: Vec<u8>, max_vocab: u64, remaining_bits: u8)
        requires
            bit_len(max_vocab as nat) + remaining_bits <= u8::MAX,
            bit_len(max_vocab as nat) < 64,
        ensures
            final(self).word_bits == bit_len(max_vocab as nat),
            final(self).word_mask == mask_of(final(self).word_bits),
            final(self).total_bits == final(self).word_bits + remaining_bits,
            final(self).base@ == base@,
            final(self).insert_index == 0,
            final(self).max_vocab == max_vocab,
            (bit_len(max_vocab as nat) <= 57 && forall|i: int|
                0 <= i < base@.len() ==> base@[i] == 0u8) ==> final(self).wf(),
    {
        self.word_bits = required_bits(max_vocab);
        self.word_mask = low_mask(self.word_bits);
        self.total_bits = self.word_bits + remaining_bits;
        self.base = base;
        self.insert_index = 0;
        self.max_vocab = max_vocab;
        proof {
            if self.word_bits <= 57 && forall|i: int| 0 <= i < base@.len() ==> base@[i] == 0u8 {
                assert forall|p: int| 0 <= p < 8 * self.base@.len() implies !abs_bit(
                    self.base@,
                    p,
                ) by {
                    let byte = self.base@[p / 8];
                    assert(byte == 0u8);
                    let sh = (p % 8) as u8;
                    assert((byte >> sh) & 1u8 == 0u8) by (bit_vector)
                        requires
                            byte == 0u8,
                    ;
                }
            }
        }
    }

    /// Writes `word` as the next entry; returns the address of the entry's remaining bits
    /// (over a copy of the buffer).
    fn insert_word(&mut self, word: WordIndex) -> (r: BitAddress)
        requires
            old(self).wf(),
            word as u64 <= old(self).word_mask,
            old(self).insert_index < u64::MAX,
            (old(self).insert_index + 1) * old(self).total_bits <= u64::MAX,
        ensures
            final(self).wf(),
            final(self).word_bits == old(self).word_bits,
            final(self).total_bits == old(self).total_bits,
            final(self).word_mask == old(self).word_mask,
            final(self).max_vocab == old(self).max_vocab,
            final(self).insert_index == old(self).insert_index + 1,
            final(self).base@.len() == old(self).base@.len(),
            final(self).words() == old(self).words().push(
                if window_in_range(old(self).base@.len(), old(self).entry_offset(old(self).insert_index as int) as u64) {
                    word as u64
                } else {
                    0u64
                },
            ),
            r.base@ == final(self).base@,
            r.offset == old(self).entry_offset(old(self).insert_index as int) + old(self).word_bits,
            forall|p: int|
                0 <= p < 8 * final(self).base@.len() && !(old(self).entry_offset(old(self).insert_index as int) <= p
                    < old(self).entry_offset(old(self).insert_index as int) + old(self).word_bits)
                    ==> abs_bit(final(self).base@, p) == abs_bit(old(self).base@, p),
    {
        let ghost old_self = *self;
        let n = self.insert_index;
        let at_pointer = n * (self.total_bits as u64);
        assert(at_pointer + self.total_bits <= u64::MAX) by (nonlinear_arith)
            requires
                (n + 1) * self.total_bits <= u64::MAX,
                at_pointer == n * self.total_bits,
        ;
        write_int57(self.base.as_mut_slice(), at_pointer, self.word_bits, word as u64);
        let prob_offset = at_pointer + (self.word_bits as u64);
        self.insert_index = n + 1;
        proof {
            let ob = old_self.base@;
            let nb = self.base@;
            let wb = self.word_bits;
            let tb = self.total_bits;
            let in_range = window_in_range(ob.len(), at_pointer);
            // Every bit below the new entry, and every bit from the following entry on,
            // is unchanged.
            assert forall|p: int| 0 <= p < 8 * nb.len() && !(at_pointer <= p < at_pointer + wb)
                implies abs_bit(nb, p) == abs_bit(ob, p) by {
                if in_range {
                    lemma_write_int57_bits(ob, at_pointer, wb, word as u64, p);
                }
            }
            // Zero bits from the following entry on.
            assert forall|p: int| self.entry_offset(self.insert_index as int) <= p < 8 * nb.len()
                implies !abs_bit(nb, p) by {
                assert((n + 1) * tb == n * tb + tb) by (nonlinear_arith);
                assert(self.entry_offset(self.insert_index as int) == at_pointer + tb);
            }
            // Earlier entries read alike.
            assert forall|i: int| 0 <= i < n implies #[trigger] self.entry(i) == old_self.entry(
                i,
            ) by {
                let off = (i * tb) as u64;
                assert(i * tb + tb <= n * tb) by (nonlinear_arith)
                    requires
                        i < n,
                        tb >= 0,
                ;
                assert(0 <= i * tb) by (nonlinear_arith)
                    requires
                        0 <= i,
                        tb >= 0,
                ;
                if window_in_range(ob.len(), off) {
                    assert forall|p: int| off <= p < off + wb implies abs_bit(ob, p) == abs_bit(
                        nb,
                        p,
                    ) by {
                        assert(p < 8 * ob.len()) by {
                            assert(off / 8 + 8 <= ob.len());
                        }
                    }
                    lemma_read_int57_depends(ob, nb, off, wb, self.word_mask);
                }
            }
            // The new entry reads back as the word.
            if in_range {
                assert forall|p: int| at_pointer <= p < at_pointer + wb implies !abs_bit(ob, p) by {
                    assert(p < 8 * ob.len()) by {
                        assert(at_pointer / 8 + 8 <= ob.len());
                    }
                }
                lemma_read_after_write_int57(ob, at_pointer, wb, word as u64);
            }
            assert(self.entry(n as int) == (if in_range {
                word as u64
            } else {
                0u64
            }));
            assert(self.words() =~= old_self.words().push(self.entry(n as int)));
        }
        BitAddress::new(self.base.clone(), prob_offset)
    }

    /// Binary search for `word` among the entries `[begin, end)`; on success returns the
    /// address of the entry's remaining bits (over a copy of the buffer), else an empty address.
    fn find_word(&self, word: WordIndex, begin: u64, end: u64) -> (r: BitAddress)
        requires
            self.wf(),
            end <= u64::MAX / 2,
            end * self.total_bits <= u64::MAX - 64,
        ensures
            r.base@.len() == 0 && r.offset == 0 || (exists|m: int|
                begin <= m < end && self.entry(m) as u32 == word && r.base@ == self.base@
                    && r.offset == self.entry_offset(m) + self.word_bits),
            strictly_sorted_u32(*self, begin as int, end as int) ==> ((exists|m: int|
                begin <= m < end && #[trigger] self.entry(m) as u32 == word) ==> (exists|m: int|
                begin <= m < end && self.entry(m) as u32 == word && r.base@ == self.base@
                    && r.offset == self.entry_offset(m) + self.word_bits)),
            strictly_sorted_u32(*self, begin as int, end as int) ==> (!(exists|m: int|
                begin <= m < end && #[trigger] self.entry(m) as u32 == word) ==> r.base@.len() == 0
                && r.offset == 0),
    {
        let mut left = begin;
        let mut right = end;
        while left < right
            invariant
                self.wf(),
                end <= u64::MAX / 2,
                end * self.total_bits <= u64::MAX - 64,
                begin <= left || left >= right,
                right <= end,
                strictly_sorted_u32(*self, begin as int, end as int) ==> forall|m: int|
                    begin <= m < end && #[trigger] self.entry(m) as u32 == word ==> left <= m < right,
            decreases right - left,
        {
            let mid = (left + right) / 2;
            assert(mid * self.total_bits <= end * self.total_bits) by (nonlinear_arith)
                requires
                    mid < end,
            ;
            let mid_offset = mid * (self.total_bits as u64);
            let mid_word = read_int57(self.base.as_slice(), mid_offset, self.word_bits, self.word_mask)
                as WordIndex;
            assert(mid_word == self.entry(mid as int) as u32);
            if mid_word < word {
                proof {
                    if strictly_sorted_u32(*self, begin as int, end as int) {
                        assert forall|m: int|
                            begin <= m < end && #[trigger] self.entry(m) as u32 == word implies left
                            <= m < right && mid < m by {
                            if m <= mid {
                                if m < mid {
                                    assert((self.entry(m) as u32) < (self.entry(mid as int) as u32));
                                }
                            }
                        }
                    }
                }
                left = mid + 1;
            } else if mid_word > word {
                proof {
                    if strictly_sorted_u32(*self, begin as int, end as int) {
                        assert forall|m: int|
                            begin <= m < end && #[trigger] self.entry(m) as u32 == word implies left
                            <= m < mid by {
                            if m >= mid {
                                if m > mid {
                                    assert((self.entry(mid as int) as u32) < (self.entry(m) as u32));
                                }
                            }
                        }
                    }
                }
                right = mid;
            } else {
                let prob_offset = mid_offset + (self.word_bits as u64);
                return BitAddress::new(self.base.clone(), prob_offset);
            }
        }
        BitAddress::new(Vec::new(), 0)
    }
}

/// Whether the words of entries `[begin, end)`, as 32-bit indices, strictly increase.
pub open spec fn strictly_sorted_u32(bp: BitPacked, begin: int, end: int) -> bool {
    forall|i: int, j: int|
        begin <= i < j < end ==> (#[trigger] bp.entry(i) as u32) < (#[trigger] bp.entry(j) as u32)
}

/// Whether the context of `entry` (its words after the first), read last word first, comes
/// strictly before `key` read last word first.
pub open spec fn context_before(entry: Seq<u32>, key: Seq<u32>) -> bool {
    lex_less(entry.drop_first().reverse(), key.reverse())
}

/// Whether the entries whose context comes before `key` all precede the others.
pub open spec fn partitioned_by(next: Seq<Seq<u32>>, key: Seq<u32>) -> bool {
    forall|i: int, j: int|
        0 <= i < j < next.len() && #[trigger] context_before(next[j], key) ==> #[trigger] context_before(next[i], key)
}

/// Whether the context of `entry` (its words after the first), read last word first, comes
/// strictly before `key` read last word first.
pub fn context_less(entry: &[u32], key: &[u32]) -> (r: bool)
    requires
        entry@.len() >= 1,
    ensures
        r == context_before(entry@, key@),
{
    let ghost ka = entry@.drop_first().reverse();
    let ghost kb = key@.reverse();
    let la = entry.len() - 1;
    let lb = key.len();
    let mut i: usize = 0;
    while i < la && i < lb
        invariant
            la == entry@.len() - 1,
            lb == key@.len(),
            ka == entry@.drop_first().reverse(),
            kb == key@.reverse(),
            i <= la,
            i <= lb,
            forall|k: int| 0 <= k < i ==> ka[k] == kb[k],
        decreases la - i,
    {
        let x = entry[entry.len() - 1 - i];
        let y = key[lb - 1 - i];
        assert(ka[i as int] == x && kb[i as int] == y);
        if x != y {
            proof {
                lemma_lex_skip(ka, kb, i as int);
                assert(ka.skip(i as int)[0] == x);
                assert(kb.skip(i as int)[0] == y);
            }
            return x < y;
        }
        i = i + 1;
    }
    proof {
        lemma_lex_skip(ka, kb, i as int);
        assert(ka.skip(i as int).len() == la - i);
        assert(kb.skip(i as int).len() == lb - i);
    }
    la < lb
}

/// For each entry of `cur`, where the entries of `next` whose context is that entry begin:
/// the number of `next` entries whose context comes before it (found by binary search); then
/// `next.len()` as the end of the last range.
pub fn next_starts(cur: &Vec<Vec<u32>>, next: &Vec<Vec<u32>>) -> (r: Vec<u64>)
    requires
        forall|j: int| 0 <= j < next@.len() ==> (#[trigger] next@[j])@.len() >= 1,
    ensures
        r@.len() == cur@.len() + 1,
        r@[cur@.len() as int] == next@.len(),
        forall|c: int| 0 <= c < cur@.len() ==> #[trigger] r@[c] <= next@.len(),
        forall|c: int|
            0 <= c < cur@.len() && partitioned_by(next@.map_values(|e: Vec<u32>| e@), #[trigger] cur@[c]@) ==> {
                &&& forall|j: int| 0 <= j < r@[c] ==> context_before(next@[j]@, cur@[c]@)
                &&& forall|j: int| r@[c] <= j < next@.len() ==> !context_before(next@[j]@, cur@[c]@)
            },
{
    let ghost nv = next@.map_values(|e: Vec<u32>| e@);
    let mut starts: Vec<u64> = Vec::new();
    let mut ci: usize = 0;
    while ci < cur.len()
        invariant
            nv == next@.map_values(|e: Vec<u32>| e@),
            forall|j: int| 0 <= j < next@.len() ==> (#[trigger] next@[j])@.len() >= 1,
            ci <= cur@.len(),
            starts@.len() == ci,
            forall|c: int| 0 <= c < ci ==> #[trigger] starts@[c] <= next@.len(),
            forall|c: int|
                0 <= c < ci && partitioned_by(nv, #[trigger] cur@[c]@) ==> {
                    &&& forall|j: int| 0 <= j < starts@[c] ==> context_before(next@[j]@, cur@[c]@)
                    &&& forall|j: int| starts@[c] <= j < next@.len() ==> !context_before(next@[j]@, cur@[c]@)
                },
        decreases cur@.len() - ci,
    {
        let key = cur[ci].as_slice();
        let mut lo: usize = 0;
        let mut hi: usize = next.len();
        while lo < hi
            invariant
                nv == next@.map_values(|e: Vec<u32>| e@),
                forall|j: int| 0 <= j < next@.len() ==> (#[trigger] next@[j])@.len() >= 1,
                lo <= hi <= next@.len(),
                key@ == cur@[ci as int]@,
                partitioned_by(nv, key@) ==> forall|j: int| 0 <= j < lo ==> context_before(next@[j]@, key@),
                partitioned_by(nv, key@) ==> forall|j: int| hi <= j < next@.len() ==> !context_before(next@[j]@, key@),
            decreases hi - lo,
        {
            let mid = lo + (hi - lo) / 2;
            if context_less(next[mid].as_slice(), key) {
                proof {
                    if partitioned_by(nv, key@) {
                        assert forall|j: int| 0 <= j < mid + 1 implies context_before(next@[j]@, key@) by {
                            if j < mid {
                                assert(nv[j] == next@[j]@ && nv[mid as int] == next@[mid as int]@);
                                assert(context_before(nv[mid as int], key@));
                            }
                        }
                    }
                }
                lo = mid + 1;
            } else {
                proof {
                    if partitioned_by(nv, key@) {
                        assert forall|j: int| mid <= j < next@.len() implies !context_before(next@[j]@, key@) by {
                            if j > mid {
                                assert(nv[j] == next@[j]@ && nv[mid as int] == next@[mid as int]@);
                                if context_before(nv[j], key@) {
                                    assert(context_before(nv[mid as int], key@));
                                }
                            }
                        }
                    }
                }
                hi = mid;
            }
        }
        starts.push(lo as u64);
        ci = ci + 1;
    }
    starts.push(next.len() as u64);
    starts
}

/// Two different word sequences are ordered one way or the other.
proof fn lemma_lex_total(a: Seq<u32>, b: Seq<u32>)
    ensures
        a == b || lex_less(a, b) || lex_less(b, a),
    decreases a.len(),
{
    if a.len() > 0 && b.len() > 0 && a[0] == b[0] {
        lemma_lex_total(a.drop_first(), b.drop_first());
        if a.drop_first() == b.drop_first() {
            assert(a =~= seq![a[0]] + a.drop_first());
            assert(b =~= seq![b[0]] + b.drop_first());
        }
    } else if a.len() == 0 && b.len() == 0 {
        assert(a =~= b);
    }
}

/// Of two sequences of one length in order, dropping the last word keeps them in order.
proof fn lemma_lex_drop_last(a: Seq<u32>, b: Seq<u32>)
    requires
        a.len() == b.len(),
        a.len() >= 1,
        !lex_less(b, a),
    ensures
        !lex_less(b.drop_last(), a.drop_last()),
    decreases a.len(),
{
    if a.len() > 1 && a[0] == b[0] {
        lemma_lex_drop_last(a.drop_first(), b.drop_first());
        assert(a.drop_first().drop_last() =~= a.drop_last().drop_first());
        assert(b.drop_first().drop_last() =~= b.drop_last().drop_first());
    }
}

/// In a layer of entries of one length sorted by their words read last word first, the
/// entries whose context comes before any key precede the others, as `next_starts` needs.
pub proof fn law_sorted_layer_partitioned(next: Seq<Seq<u32>>, len: nat, key: Seq<u32>)
    requires
        len >= 1,
        forall|j: int| 0 <= j < next.len() ==> (#[trigger] next[j]).len() == len,
        forall|i: int, j: int| 0 <= i < j < next.len() ==> !lex_less(next[j].reverse(), next[i].reverse()),
    ensures
        partitioned_by(next, key),
{
    assert forall|i: int, j: int|
        0 <= i < j < next.len() && #[trigger] context_before(next[j], key) implies #[trigger] context_before(
        next[i],
        key,
    ) by {
        let ri = next[i].reverse();
        let rj = next[j].reverse();
        lemma_lex_drop_last(ri, rj);
        assert(next[i].drop_first().reverse() =~= ri.drop_last());
        assert(next[j].drop_first().reverse() =~= rj.drop_last());
        lemma_lex_total(ri.drop_last(), rj.drop_last());
        if ri.drop_last() != rj.drop_last() {
            lemma_lex_transitive(ri.drop_last(), rj.drop_last(), key.reverse());
        }
    }
}

/// The position reached from `p` by skipping the entries equal to `w`.
pub open spec fn skip_equal(ws: Seq<u32>, p: int, w: int) -> int
    decreases ws.len() - p,
{
    if 0 <= p < ws.len() && ws[p] == w {
        skip_equal(ws, p + 1, w)
    } else {
        p
    }
}

/// Where the run of entries with word `w` begins when the runs of words `0..w` are skipped
/// in turn from the start.
pub open spec fn word_run_start(ws: Seq<u32>, w: nat) -> int
    decreases w,
{
    if w == 0 {
        0
    } else {
        skip_equal(ws, word_run_start(ws, (w - 1) as nat), w - 1)
    }
}

/// Skipping stays within the entries.
proof fn lemma_skip_equal_bounds(ws: Seq<u32>, p: int, w: int)
    requires
        0 <= p <= ws.len(),
    ensures
        p <= skip_equal(ws, p, w) <= ws.len(),
    decreases ws.len() - p,
{
    if p < ws.len() && ws[p] == w {
        lemma_skip_equal_bounds(ws, p + 1, w);
    }
}

/// For each of `n` words, where the entries with that word begin in `words` (the words that
/// complete the bigrams, in the order of the layer): the runs of words `0, 1, ...` are skipped
/// in turn.
pub fn word_starts(words: &Vec<u32>, n: usize) -> (r: Vec<u64>)
    ensures
        r@.len() == n,
        forall|w: int| 0 <= w < n ==> #[trigger] r@[w] == word_run_start(words@, w as nat),
{
    let mut r: Vec<u64> = Vec::new();
    let mut bi: usize = 0;
    let mut w: usize = 0;
    while w < n
        invariant
            w <= n,
            r@.len() == w,
            bi == word_run_start(words@, w as nat),
            bi <= words@.len(),
            forall|k: int| 0 <= k < w ==> #[trigger] r@[k] == word_run_start(words@, k as nat),
        decreases n - w,
    {
        r.push(bi as u64);
        let ghost start = bi as int;
        while bi < words.len() && words[bi] as usize == w
            invariant
                start <= bi <= words@.len(),
                skip_equal(words@, start, w as int) == skip_equal(words@, bi as int, w as int),
            decreases words@.len() - bi,
        {
            bi = bi + 1;
        }
        proof {
            lemma_skip_equal_bounds(words@, start, w as int);
        }
        w = w + 1;
    }
    r
}

/// In a layer whose completing words ascend, the entries with word `w` begin after exactly
/// the entries with smaller words.
pub proof fn law_word_starts_count_smaller(ws: Seq<u32>, w: nat)
    requires
        forall|i: int, j: int| 0 <= i <= j < ws.len() ==> ws[i] <= ws[j],
    ensures
        0 <= word_run_start(ws, w) <= ws.len(),
        forall|i: int| 0 <= i < word_run_start(ws, w) ==> ws[i] < w,
        forall|i: int| word_run_start(ws, w) <= i < ws.len() ==> ws[i] >= w,
    decreases w,
{
    if w > 0 {
        law_word_starts_count_smaller(ws, (w - 1) as nat);
        let p = word_run_start(ws, (w - 1) as nat);
        lemma_skip_equal_run(ws, p, w - 1);
    }
}

/// From `p`, where every later entry is at least `w`, skipping the entries equal to `w`
/// reaches the first entry above `w`.
proof fn lemma_skip_equal_run(ws: Seq<u32>, p: int, w: int)
    requires
        forall|i: int, j: int| 0 <= i <= j < ws.len() ==> ws[i] <= ws[j],
        0 <= p <= ws.len(),
        forall|i: int| p <= i < ws.len() ==> ws[i] >= w,
    ensures
        p <= skip_equal(ws, p, w) <= ws.len(),
        forall|i: int| p <= i < skip_equal(ws, p, w) ==> ws[i] == w,
        forall|i: int| skip_equal(ws, p, w) <= i < ws.len() ==> ws[i] > w,
    decreases ws.len() - p,
{
    if p < ws.len() && ws[p] == w {
        lemma_skip_equal_run(ws, p + 1, w);
    } else if p < ws.len() {
        assert forall|i: int| p <= i < ws.len() implies ws[i] > w by {
            assert(ws[p] <= ws[i]);
        }
    }
}

/// Appending entries in increasing word order keeps a layer strictly sorted, so `find` over
/// the whole layer finds each appended word.
pub proof fn law_increasing_insert_keeps_sorted(before: BitPacked, after: BitPacked, word: WordIndex)
    requires
        strictly_sorted_u32(before, 0, before.insert_index as int),
        forall|i: int| 0 <= i < before.insert_index ==> (before.entry(i) as u32) < word,
        after.insert_index == before.insert_index + 1,
        after.words() == before.words().push(word as u64),
    ensures
        strictly_sorted_u32(after, 0, after.insert_index as int),
        after.entry(before.insert_index as int) as u32 == word,
{
    let n = before.insert_index as int;
    assert forall|i: int| 0 <= i < n implies after.entry(i) == before.entry(i) by {
        assert(after.words()[i] == before.words()[i]);
    }
    assert(after.words()[n] == word as u64);
    assert(after.entry(n) == word as u64);
    assert forall|i: int, j: int| 0 <= i < j < after.insert_index implies (#[trigger] after.entry(i) as u32) < (
    #[trigger] after.entry(j) as u32) by {
        if j < n {
            assert((before.entry(i) as u32) < (before.entry(j) as u32));
        } else {
            assert((before.entry(i) as u32) < word);
        }
    }
}

/// A middle layer of the trie: per entry a word index, `quant_bits` bits of weights and the
/// index in the next layer where the entry's children begin.
#[derive(Debug)]
pub struct BitPackedMiddle {
    pub bit_packed: BitPacked,
    pub quant_bits: u8,
    pub next_bits: u8,
    pub next_mask: u64,
}

impl BitPackedMiddle {
    /// The bit offset of the next pointer of entry `i`.
    pub open spec fn next_offset(self, i: int) -> int {
        self.bit_packed.entry_offset(i) + self.bit_packed.word_bits + self.quant_bits
    }

    /// The next pointer of entry `i`, as read with the pointer mask.
    pub open spec fn next_at(self, i: int) -> u64 {
        spec_read_int57(self.bit_packed.base@, self.next_offset(i) as u64, self.next_mask)
    }

    /// Layout invariant: an entry is a word, the weights and a pointer, the pointer fits
    /// the 57-bit reader, and the array has room for its next entry.
    pub open spec fn wf(self) -> bool {
        &&& self.bit_packed.wf()
        &&& self.bit_packed.total_bits == self.bit_packed.word_bits + self.quant_bits + self.next_bits
        &&& self.next_bits <= 57
        &&& self.next_mask == mask_of(self.next_bits)
    }

    /// Number of entries inserted so far.
    pub fn insert_index(&self) -> (r: u64)
        ensures
            r == self.bit_packed.insert_index,
    {
        self.bit_packed.insert_index
    }

    /// A layer over the zero-filled buffer `base` for words up to `max_vocab`, `quant_bits`
    /// bits of weights and pointers up to `max_next`.
    pub fn new(base: Vec<u8>, quant_bits: u8, entries: u64, max_vocab: u64, max_next: u64) -> (r: Self)
        requires
            bit_len(max_next as nat) < 64,
            bit_len(max_vocab as nat) < 64,
            bit_len(max_vocab as nat) + quant_bits + bit_len(max_next as nat) <= u8::MAX,
        ensures
            r.bit_packed.word_bits == bit_len(max_vocab as nat),
            r.next_bits == bit_len(max_next as nat),
            r.quant_bits == quant_bits,
            r.bit_packed.base@ == base@,
            r.bit_packed.insert_index == 0,
            r.bit_packed.words() == Seq::<u64>::empty(),
            (bit_len(max_vocab as nat) <= 57 && bit_len(max_next as nat) <= 57 && forall|i: int|
                0 <= i < base@.len() ==> base@[i] == 0u8) ==> r.wf(),
    {
        let next_bits = required_bits(max_next);
        let next_mask = low_mask(next_bits);
        let remaining_bits = quant_bits + next_bits;
        let mut bit_packed = BitPacked::new();
        bit_packed.base_init(base, max_vocab, remaining_bits);
        let r = BitPackedMiddle { bit_packed, quant_bits, next_bits, next_mask };
        assert(r.bit_packed.words() =~= Seq::<u64>::empty());
        r
    }

    /// Memory size in bytes of a layer of `entries` entries.
    pub fn size(quant_bits: u8, entries: u64, max_vocab: u64, max_next: u64) -> (r: u64)
        requires
            quant_bits + bit_len(max_next as nat) <= u8::MAX,
            base_size_fits(entries, max_vocab, (quant_bits + bit_len(max_next as nat)) as u8),
        ensures
            r == spec_base_size(entries, max_vocab, (quant_bits + bit_len(max_next as nat)) as u8),
    {
        let next_bits = required_bits(max_next);
        BitPacked::base_size(entries, max_vocab, quant_bits + next_bits)
    }

    /// Appends an entry for `word`; returns the address of its weight bits. The pointer
    /// fields keep what they held.
    pub fn insert(&mut self, word: WordIndex) -> (r: BitAddress)
        requires
            old(self).wf(),
            word as u64 <= old(self).bit_packed.word_mask,
            old(self).bit_packed.insert_index < u64::MAX,
            (old(self).bit_packed.insert_index + 1) * old(self).bit_packed.total_bits <= u64::MAX,
        ensures
            final(self).wf(),
            final(self).quant_bits == old(self).quant_bits,
            final(self).next_bits == old(self).next_bits,
            final(self).next_mask == old(self).next_mask,
            final(self).bit_packed.word_bits == old(self).bit_packed.word_bits,
            final(self).bit_packed.total_bits == old(self).bit_packed.total_bits,
            final(self).bit_packed.word_mask == old(self).bit_packed.word_mask,
            final(self).bit_packed.insert_index == old(self).bit_packed.insert_index + 1,
            final(self).bit_packed.base@.len() == old(self).bit_packed.base@.len(),
            final(self).bit_packed.words() == old(self).bit_packed.words().push(
                if window_in_range(
                    old(self).bit_packed.base@.len(),
                    old(self).bit_packed.entry_offset(old(self).bit_packed.insert_index as int) as u64,
                ) {
                    word as u64
                } else {
                    0u64
                },
            ),
            forall|j: int| 0 <= j <= old(self).bit_packed.insert_index ==> #[trigger] final(self).next_at(j) == old(self).next_at(j),
            r.base@ == final(self).bit_packed.base@,
            r.offset == old(self).bit_packed.entry_offset(old(self).bit_packed.insert_index as int)
                + old(self).bit_packed.word_bits,
    {
        let ghost old_self = *self;
        let r = self.bit_packed.insert_word(word);
        proof {
            let n = old_self.bit_packed.insert_index as int;
            let tb = old_self.bit_packed.total_bits as int;
            let wb = old_self.bit_packed.word_bits as int;
            assert forall|j: int| 0 <= j <= n implies #[trigger] self.next_at(j) == old_self.next_at(j) by {
                let off = old_self.next_offset(j);
                assert(j * tb + tb <= (n + 1) * tb) by (nonlinear_arith)
                    requires
                        j <= n,
                        tb >= 0,
                ;
                assert(0 <= j * tb) by (nonlinear_arith)
                    requires
                        0 <= j,
                        tb >= 0,
                ;
                assert((n + 1) * tb == n * tb + tb) by (nonlinear_arith);
                assert(off + self.next_bits <= j * tb + tb);
                let ob = old_self.bit_packed.base@;
                let nb = self.bit_packed.base@;
                if window_in_range(ob.len(), off as u64) {
                    assert forall|p: int| off <= p < off + self.next_bits implies abs_bit(ob, p) == abs_bit(nb, p) by {
                        assert(p < 8 * ob.len()) by {
                            assert(off / 8 + 8 <= ob.len());
                        }
                        if j < n {
                            assert(j * tb + tb <= n * tb) by (nonlinear_arith)
                                requires
                                    j < n,
                                    tb >= 0,
                            ;
                        }
                    }
                    lemma_read_int57_depends(ob, nb, off as u64, self.next_bits, self.next_mask);
                }
            }
        }
        r
    }

    /// Writes `next_value` as the next pointer of entry `entry_index` (over zero bits, the
    /// pointer reads back as the value). Writes past the end of the buffer are dropped.
    pub fn write_next(&mut self, entry_index: u64, next_value: u64)
        requires
            old(self).wf(),
            entry_index <= old(self).bit_packed.insert_index,
            (old(self).bit_packed.insert_index + 1) * old(self).bit_packed.total_bits <= u64::MAX,
            next_value <= old(self).next_mask,
        ensures
            final(self).wf(),
            final(self).bit_packed.base@ == spec_write_int57(
                old(self).bit_packed.base@,
                old(self).next_offset(entry_index as int) as u64,
                next_value,
            ),
            final(self).quant_bits == old(self).quant_bits,
            final(self).next_bits == old(self).next_bits,
            final(self).next_mask == old(self).next_mask,
            final(self).bit_packed.word_bits == old(self).bit_packed.word_bits,
            final(self).bit_packed.total_bits == old(self).bit_packed.total_bits,
            final(self).bit_packed.word_mask == old(self).bit_packed.word_mask,
            final(self).bit_packed.insert_index == old(self).bit_packed.insert_index,
            final(self).bit_packed.words() == old(self).bit_packed.words(),
            forall|j: int|
                0 <= j <= old(self).bit_packed.insert_index && j != entry_index ==> #[trigger] final(self).next_at(j)
                    == old(self).next_at(j),
            old(self).next_at(entry_index as int) == 0 && window_in_range(
                old(self).bit_packed.base@.len(),
                old(self).next_offset(entry_index as int) as u64,
            ) ==> final(self).next_at(entry_index as int) == next_value,
    {
        let ghost old_self = *self;
        let tb = self.bit_packed.total_bits as u64;
        proof {
            lemma_entry_before(entry_index as int, entry_index as int + 1, tb as int);
            if (entry_index as int) < self.bit_packed.insert_index {
                lemma_entry_before(entry_index as int + 1, self.bit_packed.insert_index + 1, tb as int);
            }
        }
        let at_pointer = entry_index * tb;
        let next_offset = at_pointer + (self.bit_packed.word_bits as u64) + (self.quant_bits as u64);
        write_int57(self.bit_packed.base.as_mut_slice(), next_offset, self.next_bits, next_value);
        proof {
            let ob = old_self.bit_packed.base@;
            let nb = self.bit_packed.base@;
            let n = old_self.bit_packed.insert_index as int;
            let i = entry_index as int;
            let wb = old_self.bit_packed.word_bits as int;
            let qb = old_self.quant_bits as int;
            let len = self.next_bits;
            let off = next_offset as int;
            assert(off + len == i * tb + tb);
            let in_range = window_in_range(ob.len(), next_offset);
            // Only the bits of the pointer field change.
            assert forall|p: int| 0 <= p < 8 * nb.len() && !(off <= p < off + len) implies abs_bit(nb, p)
                == abs_bit(ob, p) by {
                if in_range {
                    lemma_write_int57_bits(ob, next_offset, len, next_value, p);
                }
            }
            // Room for the next entry.
            assert forall|p: int|
                self.bit_packed.entry_offset(n) <= p < 8 * nb.len() && !(self.bit_packed.entry_offset(n) + wb <= p
                    < self.bit_packed.entry_offset(n + 1)) implies !abs_bit(nb, p) by {
                lemma_entry_before(n, n + 1, tb as int);
                if i < n {
                    lemma_entry_before(i, n, tb as int);
                }
            }
            // Words read alike.
            assert forall|j: int| 0 <= j < n implies #[trigger] self.bit_packed.entry(j) == old_self.bit_packed.entry(j) by {
                let eo = j * tb;
                lemma_entry_before(j, j + 1, tb as int);
                lemma_entry_before(j + 1, n + 1, tb as int);
                assert(eo <= u64::MAX);
                if j < i {
                    lemma_entry_before(j, i, tb as int);
                } else if j > i {
                    lemma_entry_before(i, j, tb as int);
                }
                if window_in_range(ob.len(), eo as u64) {
                    assert forall|p: int| eo <= p < eo + wb implies abs_bit(ob, p) == abs_bit(nb, p) by {
                        assert(p < 8 * ob.len()) by {
                            assert(eo / 8 + 8 <= ob.len());
                        }
                    }
                    lemma_read_int57_depends(ob, nb, eo as u64, self.bit_packed.word_bits, self.bit_packed.word_mask);
                }
            }
            assert(self.bit_packed.words() =~= old_self.bit_packed.words());
            // Other pointers read alike.
            assert forall|j: int| 0 <= j <= n && j != i implies #[trigger] self.next_at(j) == old_self.next_at(j) by {
                let jo = old_self.next_offset(j);
                lemma_entry_before(j, j + 1, tb as int);
                if j < n {
                    lemma_entry_before(j + 1, n + 1, tb as int);
                }
                assert(jo <= u64::MAX);
                if j < i {
                    lemma_entry_before(j, i, tb as int);
                } else {
                    lemma_entry_before(i, j, tb as int);
                }
                if window_in_range(ob.len(), jo as u64) {
                    assert forall|p: int| jo <= p < jo + len implies abs_bit(ob, p) == abs_bit(nb, p) by {
                        assert(p < 8 * ob.len()) by {
                            assert(jo / 8 + 8 <= ob.len());
                        }
                    }
                    lemma_read_int57_depends(ob, nb, jo as u64, len, self.next_mask);
                }
            }
            // The pointer reads back.
            if old_self.next_at(i) == 0 && in_range {
                assert forall|p: int| off <= p < off + len implies !abs_bit(ob, p) by {
                    lemma_read_int57_bits(ob, next_offset, len, self.next_mask, p - off);
                    lemma_u64_bit_zero(p - off);
                }
                lemma_read_after_write_int57(ob, next_offset, len, next_value);
            }
        }
    }

    /// Writes the pointer after the last entry (the end of the last entry's children), when
    /// there is an entry.
    pub fn finished_loading(&mut self, next_end: u64)
        requires
            old(self).wf(),
            (old(self).bit_packed.insert_index + 1) * old(self).bit_packed.total_bits <= u64::MAX,
            next_end <= old(self).next_mask,
        ensures
            final(self).wf(),
            old(self).bit_packed.insert_index == 0 ==> *final(self) == *old(self),
            old(self).bit_packed.insert_index > 0 ==> final(self).bit_packed.base@ == spec_write_int57(
                old(self).bit_packed.base@,
                old(self).next_offset(old(self).bit_packed.insert_index as int) as u64,
                next_end,
            ),
            final(self).quant_bits == old(self).quant_bits,
            final(self).next_bits == old(self).next_bits,
            final(self).next_mask == old(self).next_mask,
            final(self).bit_packed.word_bits == old(self).bit_packed.word_bits,
            final(self).bit_packed.total_bits == old(self).bit_packed.total_bits,
            final(self).bit_packed.word_mask == old(self).bit_packed.word_mask,
            final(self).bit_packed.insert_index == old(self).bit_packed.insert_index,
            final(self).bit_packed.words() == old(self).bit_packed.words(),
            forall|j: int|
                0 <= j < old(self).bit_packed.insert_index ==> #[trigger] final(self).next_at(j) == old(self).next_at(j),
            old(self).bit_packed.insert_index > 0 && old(self).next_at(old(self).bit_packed.insert_index as int) == 0
                && window_in_range(
                old(self).bit_packed.base@.len(),
                old(self).next_offset(old(self).bit_packed.insert_index as int) as u64,
            ) ==> final(self).next_at(old(self).bit_packed.insert_index as int) == next_end,
    {
        if self.bit_packed.insert_index > 0 {
            let n = self.bit_packed.insert_index;
            self.write_next(n, next_end);
        }
    }
}

impl BitPackedMiddle {
    /// Reads the children range of entry `pointer`: its next pointer and the next entry's;
    /// returns the address of its weight bits.
    pub fn read_entry(&self, pointer: u64, range: &mut NodeRange) -> (r: BitAddress)
        requires
            self.wf(),
            pointer + 2 <= u64::MAX,
            (pointer + 2) * self.bit_packed.total_bits <= u64::MAX,
        ensures
            final(range).begin == self.next_at(pointer as int),
            final(range).end == self.next_at(pointer + 1),
            r.base@ == self.bit_packed.base@,
            r.offset == self.bit_packed.entry_offset(pointer as int) + self.bit_packed.word_bits,
    {
        let tb = self.bit_packed.total_bits as u64;
        proof {
            lemma_entry_before(pointer as int, pointer + 2, tb as int);
            lemma_entry_before(pointer + 1, pointer + 2, tb as int);
        }
        let at_pointer = pointer * tb;
        let prob_offset = at_pointer + (self.bit_packed.word_bits as u64);
        let next_offset = prob_offset + (self.quant_bits as u64);
        let next_entry_next_offset = (pointer + 1) * tb + (self.bit_packed.word_bits as u64)
            + (self.quant_bits as u64);
        range.begin = read_int57(self.bit_packed.base.as_slice(), next_offset, self.next_bits, self.next_mask);
        range.end = read_int57(self.bit_packed.base.as_slice(), next_entry_next_offset, self.next_bits, self.next_mask);
        BitAddress::new(self.bit_packed.base.clone(), prob_offset)
    }

    /// Binary search for `word` among the entries of `range`; when found, sets `pointer` to
    /// its index and `range` to its children range and returns the address of its weight
    /// bits, else returns an empty address and leaves both alone.
    pub fn find(&self, word: WordIndex, range: &mut NodeRange, pointer: &mut u64) -> (r: BitAddress)
        requires
            self.wf(),
            old(range).end <= u64::MAX / 2,
            (old(range).end + 1) * self.bit_packed.total_bits <= u64::MAX - 64,
        ensures
            (r.base@.len() == 0 && r.offset == 0 && final(range).begin == old(range).begin && final(range).end
                == old(range).end && *final(pointer) == *old(pointer)) || (old(range).begin <= *final(pointer)
                < old(range).end && self.bit_packed.entry(*final(pointer) as int) as u32 == word && r.base@
                == self.bit_packed.base@ && r.offset == self.bit_packed.entry_offset(*final(pointer) as int)
                + self.bit_packed.word_bits && final(range).begin == self.next_at(*final(pointer) as int)
                && final(range).end == self.next_at(*final(pointer) + 1)),
            strictly_sorted_u32(self.bit_packed, old(range).begin as int, old(range).end as int) ==> ((exists|m: int|
                old(range).begin <= m < old(range).end && #[trigger] self.bit_packed.entry(m) as u32 == word) ==> (
            old(range).begin <= *final(pointer) < old(range).end && self.bit_packed.entry(*final(pointer) as int) as u32
                == word && r.base@ == self.bit_packed.base@ && r.offset == self.bit_packed.entry_offset(
                *final(pointer) as int,
            ) + self.bit_packed.word_bits && final(range).begin == self.next_at(*final(pointer) as int)
                && final(range).end == self.next_at(*final(pointer) + 1))),
            strictly_sorted_u32(self.bit_packed, old(range).begin as int, old(range).end as int) ==> (!(exists|m: int|
                old(range).begin <= m < old(range).end && #[trigger] self.bit_packed.entry(m) as u32 == word) ==> (
            r.base@.len() == 0 && r.offset == 0 && final(range).begin == old(range).begin && final(range).end
                == old(range).end && *final(pointer) == *old(pointer))),
    {
        proof {
            lemma_entry_before(old(range).end as int, old(range).end + 1, self.bit_packed.total_bits as int);
        }
        match self.bit_packed.locate(word, range.begin, range.end) {
            Some(m) => {
                *pointer = m;
                proof {
                    lemma_entry_before(m as int + 1, old(range).end + 1, self.bit_packed.total_bits as int);
                    lemma_entry_before(m as int, m + 1, self.bit_packed.total_bits as int);
                }
                self.read_entry(m, range)
            },
            None => BitAddress::new(Vec::new(), 0),
        }
    }
}

impl BitPacked {
    /// Binary search for `word` among the entries `[begin, end)`: the index of an entry that
    /// holds it, if the search meets one.
    fn locate(&self, word: WordIndex, begin: u64, end: u64) -> (r: Option<u64>)
        requires
            self.wf(),
            end <= u64::MAX / 2,
            end * self.total_bits <= u64::MAX - 64,
        ensures
            r matches Some(m) ==> begin <= m < end && self.entry(m as int) as u32 == word,
            strictly_sorted_u32(*self, begin as int, end as int) ==> ((exists|m: int|
                begin <= m < end && #[trigger] self.entry(m) as u32 == word) ==> r is Some),
    {
        let mut left = begin;
        let mut right = end;
        while left < right
            invariant
                self.wf(),
                end <= u64::MAX / 2,
                end * self.total_bits <= u64::MAX - 64,
                begin <= left || left >= right,
                right <= end,
                strictly_sorted_u32(*self, begin as int, end as int) ==> forall|m: int|
                    begin <= m < end && #[trigger] self.entry(m) as u32 == word ==> left <= m < right,
            decreases right - left,
        {
            let mid = (left + right) / 2;
            assert(mid * self.total_bits <= end * self.total_bits) by (nonlinear_arith)
                requires
                    mid < end,
            ;
            let mid_offset = mid * (self.total_bits as u64);
            let mid_word = read_int57(self.base.as_slice(), mid_offset, self.word_bits, self.word_mask)
                as WordIndex;
            assert(mid_word == self.entry(mid as int) as u32);
            if mid_word < word {
                proof {
                    if strictly_sorted_u32(*self, begin as int, end as int) {
                        assert forall|m: int|
                            begin <= m < end && #[trigger] self.entry(m) as u32 == word implies left
                            <= m < right && mid < m by {
                            if m < mid {
                                assert((self.entry(m) as u32) < (self.entry(mid as int) as u32));
                            }
                        }
                    }
                }
                left = mid + 1;
            } else if mid_word > word {
                proof {
                    if strictly_sorted_u32(*self, begin as int, end as int) {
                        assert forall|m: int|
                            begin <= m < end && #[trigger] self.entry(m) as u32 == word implies left
                            <= m < mid by {
                            if m > mid {
                                assert((self.entry(mid as int) as u32) < (self.entry(m) as u32));
                            }
                        }
                    }
                }
                right = mid;
            } else {
                return Some(mid);
            }
        }
        None
    }
}

/// Entry `j` ends where entry `k` begins, or before, for `j < k`.
proof fn lemma_entry_before(j: int, k: int, tb: int)
    requires
        0 <= j < k,
        tb >= 0,
    ensures
        0 <= j * tb,
        j * tb + tb <= k * tb,
        (j + 1) * tb == j * tb + tb,
{
    assert(0 <= j * tb) by (nonlinear_arith)
        requires
            0 <= j,
            tb >= 0,
    ;
    assert(j * tb + tb <= k * tb) by (nonlinear_arith)
        requires
            j < k,
            tb >= 0,
    ;
    assert((j + 1) * tb == j * tb + tb) by (nonlinear_arith);
}

/// No bit of zero is set.
proof fn lemma_u64_bit_zero(j: int)
    requires
        0 <= j < 64,
    ensures
        !u64_bit(0u64, j),
{
    let k = j as u64;
    assert((0u64 >> k) & 1u64 != 1u64) by (bit_vector);
}

/// The layer of the longest n-grams: word index and probability bits per entry.
pub struct BitPackedLongest {
    pub bit_packed: BitPacked,
}

impl BitPackedLongest {
    /// An empty layer with no buffer.
    pub fn new() -> (r: Self)
        ensures
            r.bit_packed.base@.len() == 0,
            r.bit_packed.insert_index == 0,
            r.bit_packed.wf(),
    {
        BitPackedLongest { bit_packed: BitPacked::new() }
    }

    /// Memory size in bytes of a layer of `entries` entries.
    pub fn size(quant_bits: u8, entries: u64, max_vocab: u64) -> (r: u64)
        requires
            base_size_fits(entries, max_vocab, quant_bits),
        ensures
            r == spec_base_size(entries, max_vocab, quant_bits),
    {
        BitPacked::base_size(entries, max_vocab, quant_bits)
    }

    /// Sets the layer up over the zero-filled buffer `base`.
    pub fn init(&mut self, base: Vec<u8>, quant_bits: u8, max_vocab: u64)
        requires
            bit_len(max_vocab as nat) + quant_bits <= u8::MAX,
            bit_len(max_vocab as nat) < 64,
        ensures
            final(self).bit_packed.word_bits == bit_len(max_vocab as nat),
            final(self).bit_packed.total_bits == final(self).bit_packed.word_bits + quant_bits,
            final(self).bit_packed.base@ == base@,
            final(self).bit_packed.insert_index == 0,
            final(self).bit_packed.words() == Seq::<u64>::empty(),
            (bit_len(max_vocab as nat) <= 57 && forall|i: int|
                0 <= i < base@.len() ==> base@[i] == 0u8) ==> final(self).bit_packed.wf(),
    {
        self.bit_packed.base_init(base, max_vocab, quant_bits);
        assert(self.bit_packed.words() =~= Seq::<u64>::empty());
    }

    /// Appends an entry for `word`; returns the address of its probability bits.
    pub fn insert(&mut self, word: WordIndex) -> (r: BitAddress)
        requires
            old(self).bit_packed.wf(),
            word as u64 <= old(self).bit_packed.word_mask,
            old(self).bit_packed.insert_index < u64::MAX,
            (old(self).bit_packed.insert_index + 1) * old(self).bit_packed.total_bits <= u64::MAX,
        ensures
            final(self).bit_packed.wf(),
            final(self).bit_packed.word_bits == old(self).bit_packed.word_bits,
            final(self).bit_packed.total_bits == old(self).bit_packed.total_bits,
            final(self).bit_packed.word_mask == old(self).bit_packed.word_mask,
            final(self).bit_packed.insert_index == old(self).bit_packed.insert_index + 1,
            final(self).bit_packed.base@.len() == old(self).bit_packed.base@.len(),
            final(self).bit_packed.words() == old(self).bit_packed.words().push(
                if window_in_range(
                    old(self).bit_packed.base@.len(),
                    old(self).bit_packed.entry_offset(old(self).bit_packed.insert_index as int) as u64,
                ) {
                    word as u64
                } else {
                    0u64
                },
            ),
            r.base@ == final(self).bit_packed.base@,
            r.offset == old(self).bit_packed.entry_offset(old(self).bit_packed.insert_index as int)
                + old(self).bit_packed.word_bits,
    {
        self.bit_packed.insert_word(word)
    }

    /// Binary search for `word` in `node`; returns the address of its probability bits when
    /// found, else an address with an empty buffer.
    pub fn find(&self, word: WordIndex, node: &NodeRange) -> (r: BitAddress)
        requires
            self.bit_packed.wf(),
            node.end <= u64::MAX / 2,
            node.end * self.bit_packed.total_bits <= u64::MAX - 64,
        ensures
            r.base@.len() == 0 && r.offset == 0 || (exists|m: int|
                node.begin <= m < node.end && self.bit_packed.entry(m) as u32 == word && r.base@
                    == self.bit_packed.base@ && r.offset == self.bit_packed.entry_offset(m)
                    + self.bit_packed.word_bits),
            strictly_sorted_u32(self.bit_packed, node.begin as int, node.end as int) ==> ((
            exists|m: int|
                node.begin <= m < node.end && #[trigger] self.bit_packed.entry(m) as u32 == word)
                ==> (exists|m: int|
                node.begin <= m < node.end && self.bit_packed.entry(m) as u32 == word && r.base@
                    == self.bit_packed.base@ && r.offset == self.bit_packed.entry_offset(m)
                    + self.bit_packed.word_bits)),
            strictly_sorted_u32(self.bit_packed, node.begin as int, node.end as int) ==> (!(
            exists|m: int|
                node.begin <= m < node.end && #[trigger] self.bit_packed.entry(m) as u32 == word)
                ==> r.base@.len() == 0 && r.offset == 0),
    {
        self.bit_packed.find_word(word, node.begin, node.end)
    }
}

/// A middle-order layer of the trie.
pub struct Middle {
    pub inner: BitPackedMiddle,
}

impl Middle {
    /// A layer for `count` entries with words up to `max_vocab`, `quant_bits` bits of
    /// weights and pointers up to `next_count`, over a fresh zero-filled buffer.
    pub fn new(quant_bits: u8, count: u64, max_vocab: u64, next_count: u64) -> (r: Self)
        requires
            bit_len(next_count as nat) < 64,
            bit_len(max_vocab as nat) < 64,
            bit_len(max_vocab as nat) + quant_bits + bit_len(next_count as nat) <= u8::MAX,
            base_size_fits(count, max_vocab, (quant_bits + bit_len(next_count as nat)) as u8),
        ensures
            r.inner.bit_packed.word_bits == bit_len(max_vocab as nat),
            r.inner.next_bits == bit_len(next_count as nat),
            r.inner.quant_bits == quant_bits,
            r.inner.bit_packed.base@.len() == spec_base_size(
                count,
                max_vocab,
                (quant_bits + bit_len(next_count as nat)) as u8,
            ) as usize,
            r.inner.bit_packed.insert_index == 0,
            bit_len(max_vocab as nat) <= 57 && bit_len(next_count as nat) <= 57 ==> r.inner.wf(),
    {
        let size = BitPackedMiddle::size(quant_bits, count, max_vocab, next_count) as usize;
        let buffer = vec![0u8; size];
        Middle { inner: BitPackedMiddle::new(buffer, quant_bits, count, max_vocab, next_count) }
    }

    /// Memory size in bytes of a layer of `count` entries.
    pub fn size(middle_bits: u8, count: u64, base_count: u64, next_count: u64, _config: &QuantConfig) -> (r: u64)
        requires
            middle_bits + bit_len(next_count as nat) <= u8::MAX,
            base_size_fits(count, base_count, (middle_bits + bit_len(next_count as nat)) as u8),
        ensures
            r == spec_base_size(count, base_count, (middle_bits + bit_len(next_count as nat)) as u8),
    {
        BitPackedMiddle::size(middle_bits, count, base_count, next_count)
    }

    /// Same as `BitPackedMiddle::insert`.
    pub fn insert(&mut self, word: WordIndex) -> (r: BitAddress)
        requires
            old(self).inner.wf(),
            word as u64 <= old(self).inner.bit_packed.word_mask,
            old(self).inner.bit_packed.insert_index < u64::MAX,
            (old(self).inner.bit_packed.insert_index + 1) * old(self).inner.bit_packed.total_bits <= u64::MAX,
        ensures
            final(self).inner.wf(),
            final(self).inner.bit_packed.insert_index == old(self).inner.bit_packed.insert_index + 1,
            final(self).inner.bit_packed.words() == old(self).inner.bit_packed.words().push(
                if window_in_range(
                    old(self).inner.bit_packed.base@.len(),
                    old(self).inner.bit_packed.entry_offset(old(self).inner.bit_packed.insert_index as int) as u64,
                ) {
                    word as u64
                } else {
                    0u64
                },
            ),
            forall|j: int|
                0 <= j <= old(self).inner.bit_packed.insert_index ==> #[trigger] final(self).inner.next_at(j)
                    == old(self).inner.next_at(j),
            r.base@ == final(self).inner.bit_packed.base@,
            r.offset == old(self).inner.bit_packed.entry_offset(old(self).inner.bit_packed.insert_index as int)
                + old(self).inner.bit_packed.word_bits,
    {
        self.inner.insert(word)
    }

    /// Same as `BitPackedMiddle::write_next`.
    pub fn write_next(&mut self, entry_index: u64, next_value: u64)
        requires
            old(self).inner.wf(),
            entry_index <= old(self).inner.bit_packed.insert_index,
            (old(self).inner.bit_packed.insert_index + 1) * old(self).inner.bit_packed.total_bits <= u64::MAX,
            next_value <= old(self).inner.next_mask,
        ensures
            final(self).inner.wf(),
            final(self).inner.bit_packed.insert_index == old(self).inner.bit_packed.insert_index,
            final(self).inner.bit_packed.words() == old(self).inner.bit_packed.words(),
            forall|j: int|
                0 <= j <= old(self).inner.bit_packed.insert_index && j != entry_index
                    ==> #[trigger] final(self).inner.next_at(j) == old(self).inner.next_at(j),
            old(self).inner.next_at(entry_index as int) == 0 && window_in_range(
                old(self).inner.bit_packed.base@.len(),
                old(self).inner.next_offset(entry_index as int) as u64,
            ) ==> final(self).inner.next_at(entry_index as int) == next_value,
    {
        self.inner.write_next(entry_index, next_value)
    }

    /// Same as `BitPackedMiddle::finished_loading`.
    pub fn finished_loading(&mut self, next_end: u64)
        requires
            old(self).inner.wf(),
            (old(self).inner.bit_packed.insert_index + 1) * old(self).inner.bit_packed.total_bits <= u64::MAX,
            next_end <= old(self).inner.next_mask,
        ensures
            final(self).inner.wf(),
            final(self).inner.bit_packed.insert_index == old(self).inner.bit_packed.insert_index,
            final(self).inner.bit_packed.words() == old(self).inner.bit_packed.words(),
            forall|j: int|
                0 <= j < old(self).inner.bit_packed.insert_index ==> #[trigger] final(self).inner.next_at(j)
                    == old(self).inner.next_at(j),
            old(self).inner.bit_packed.insert_index > 0 && old(self).inner.next_at(
                old(self).inner.bit_packed.insert_index as int,
            ) == 0 && window_in_range(
                old(self).inner.bit_packed.base@.len(),
                old(self).inner.next_offset(old(self).inner.bit_packed.insert_index as int) as u64,
            ) ==> final(self).inner.next_at(old(self).inner.bit_packed.insert_index as int) == next_end,
    {
        self.inner.finished_loading(next_end)
    }

    /// Number of entries inserted so far.
    pub fn insert_index(&self) -> (r: u64)
        ensures
            r == self.inner.bit_packed.insert_index,
    {
        self.inner.insert_index()
    }

    /// Same as `BitPackedMiddle::read_entry`.
    pub fn read_entry(&self, extend_pointer: u64, node: &mut NodeRange) -> (r: BitAddress)
        requires
            self.inner.wf(),
            extend_pointer + 2 <= u64::MAX,
            (extend_pointer + 2) * self.inner.bit_packed.total_bits <= u64::MAX,
        ensures
            final(node).begin == self.inner.next_at(extend_pointer as int),
            final(node).end == self.inner.next_at(extend_pointer + 1),
            r.base@ == self.inner.bit_packed.base@,
            r.offset == self.inner.bit_packed.entry_offset(extend_pointer as int) + self.inner.bit_packed.word_bits,
    {
        self.inner.read_entry(extend_pointer, node)
    }

    /// Same as `BitPackedMiddle::find`.
    pub fn find(&self, word: WordIndex, node: &mut NodeRange, extend_left: &mut u64) -> (r: BitAddress)
        requires
            self.inner.wf(),
            old(node).end <= u64::MAX / 2,
            (old(node).end + 1) * self.inner.bit_packed.total_bits <= u64::MAX - 64,
        ensures
            (r.base@.len() == 0 && r.offset == 0 && final(node).begin == old(node).begin && final(node).end
                == old(node).end && *final(extend_left) == *old(extend_left)) || (old(node).begin
                <= *final(extend_left) < old(node).end && self.inner.bit_packed.entry(*final(extend_left) as int)
                as u32 == word && r.base@ == self.inner.bit_packed.base@ && r.offset
                == self.inner.bit_packed.entry_offset(*final(extend_left) as int) + self.inner.bit_packed.word_bits
                && final(node).begin == self.inner.next_at(*final(extend_left) as int) && final(node).end
                == self.inner.next_at(*final(extend_left) + 1)),
            strictly_sorted_u32(self.inner.bit_packed, old(node).begin as int, old(node).end as int) ==> ((exists|m: int|
                old(node).begin <= m < old(node).end && #[trigger] self.inner.bit_packed.entry(m) as u32 == word)
                ==> (old(node).begin <= *final(extend_left) < old(node).end && self.inner.bit_packed.entry(
                *final(extend_left) as int,
            ) as u32 == word && final(node).begin == self.inner.next_at(*final(extend_left) as int)
                && final(node).end == self.inner.next_at(*final(extend_left) + 1))),
            strictly_sorted_u32(self.inner.bit_packed, old(node).begin as int, old(node).end as int) ==> (!(exists|m: int|
                old(node).begin <= m < old(node).end && #[trigger] self.inner.bit_packed.entry(m) as u32 == word)
                ==> (r.base@.len() == 0 && r.offset == 0 && final(node).begin == old(node).begin && final(node).end
                == old(node).end)),
    {
        self.inner.find(word, node, extend_left)
    }
}

/// The longest-order layer of the trie.
pub struct Longest {
    pub inner: BitPackedLongest,
}

impl Longest {
    /// An empty layer with no buffer.
    pub fn new() -> (r: Self)
        ensures
            r.inner.bit_packed.base@.len() == 0,
            r.inner.bit_packed.insert_index == 0,
            r.inner.bit_packed.wf(),
    {
        Longest { inner: BitPackedLongest::new() }
    }

    /// A layer for `count` entries with words up to `max_vocab`, over a fresh zero-filled
    /// buffer of the size that `BitPackedLongest::size` gives.
    pub fn init_storage(quant_bits: u8, count: u64, max_vocab: u64) -> (r: Self)
        requires
            base_size_fits(count, max_vocab, quant_bits),
            bit_len(max_vocab as nat) < 64,
        ensures
            r.inner.bit_packed.word_bits == bit_len(max_vocab as nat),
            r.inner.bit_packed.total_bits == bit_len(max_vocab as nat) + quant_bits,
            r.inner.bit_packed.base@.len() == spec_base_size(count, max_vocab, quant_bits) as usize,
            r.inner.bit_packed.insert_index == 0,
            bit_len(max_vocab as nat) <= 57 ==> r.inner.bit_packed.wf(),
    {
        let size = BitPackedLongest::size(quant_bits, count, max_vocab) as usize;
        let buffer = vec![0u8; size];
        let mut inner = BitPackedLongest::new();
        inner.init(buffer, quant_bits, max_vocab);
        Longest { inner }
    }

    /// Memory size in bytes of a layer of `count` entries.
    pub fn size(longest_bits: u8, count: u64, base_count: u64) -> (r: u64)
        requires
            base_size_fits(count, base_count, longest_bits),
        ensures
            r == spec_base_size(count, base_count, longest_bits),
    {
        BitPackedLongest::size(longest_bits, count, base_count)
    }

    /// Appends an entry for `word`; returns the address of its probability bits.
    pub fn insert(&mut self, word: WordIndex) -> (r: BitAddress)
        requires
            old(self).inner.bit_packed.wf(),
            word as u64 <= old(self).inner.bit_packed.word_mask,
            old(self).inner.bit_packed.insert_index < u64::MAX,
            (old(self).inner.bit_packed.insert_index + 1) * old(self).inner.bit_packed.total_bits
                <= u64::MAX,
        ensures
            final(self).inner.bit_packed.wf(),
            final(self).inner.bit_packed.insert_index == old(self).inner.bit_packed.insert_index
                + 1,
            final(self).inner.bit_packed.words() == old(self).inner.bit_packed.words().push(
                if window_in_range(
                    old(self).inner.bit_packed.base@.len(),
                    old(self).inner.bit_packed.entry_offset(
                        old(self).inner.bit_packed.insert_index as int,
                    ) as u64,
                ) {
                    word as u64
                } else {
                    0u64
                },
            ),
            r.base@ == final(self).inner.bit_packed.base@,
    {
        self.inner.insert(word)
    }

    /// Number of entries inserted so far.
    pub fn insert_index(&self) -> (r: u64)
        ensures
            r == self.inner.bit_packed.insert_index,
    {
        self.inner.bit_packed.insert_index
    }

    /// Binary search for `word` in `node`; returns the address of its probability bits when
    /// found, else an address with an empty buffer.
    pub fn find(&self, word: WordIndex, node: &NodeRange) -> (r: BitAddress)
        requires
            self.inner.bit_packed.wf(),
            node.end <= u64::MAX / 2,
            node.end * self.inner.bit_packed.total_bits <= u64::MAX - 64,
        ensures
            r.base@.len() == 0 && r.offset == 0 || (exists|m: int|
                node.begin <= m < node.end && self.inner.bit_packed.entry(m) as u32 == word
                    && r.base@ == self.inner.bit_packed.base@ && r.offset
                    == self.inner.bit_packed.entry_offset(m) + self.inner.bit_packed.word_bits),
            strictly_sorted_u32(self.inner.bit_packed, node.begin as int, node.end as int) ==> ((
            exists|m: int|
                node.begin <= m < node.end && #[trigger] self.inner.bit_packed.entry(m) as u32
                    == word) ==> (exists|m: int|
                node.begin <= m < node.end && self.inner.bit_packed.entry(m) as u32 == word
                    && r.base@ == self.inner.bit_packed.base@ && r.offset
                    == self.inner.bit_packed.entry_offset(m) + self.inner.bit_packed.word_bits)),
            strictly_sorted_u32(self.inner.bit_packed, node.begin as int, node.end as int) ==> (!(
            exists|m: int|
                node.begin <= m < node.end && #[trigger] self.inner.bit_packed.entry(m) as u32
                    == word) ==> r.base@.len() == 0 && r.offset == 0),
    {
        self.inner.find(word, node)
    }
}

} // verus!
