//! Compression of the trie's next pointers after Bhiksha Raj and Ed Whittaker, "Lossless
//! Compression of Language Model Structure and Word Identifiers" (ICASSP 2003).
use vstd::prelude::*;
use crate::bit_packing::{bit_len, mask_of, required_bits, read_int57, write_int57, spec_read_int57,
    spec_write_int57, BitsMask};
use crate::hash::le_bytes;

verus! {

/// Configuration of the pointer compression.
#[derive(Debug, Clone)]
pub struct BhikshaConfig {
    pub pointer_bhiksha_bits: u8,
}

impl Default for BhikshaConfig {
    fn default() -> (r: Self)
        ensures
            r.pointer_bhiksha_bits == 0,
    {
        Self { pointer_bhiksha_bits: 0 }
    }
}

/// A half-open range of entry indices in the next layer.
#[derive(Debug)]
pub struct NodeRange {
    pub begin: u64,
    pub end: u64,
}

/// No compression: next pointers are stored whole.
#[derive(Debug)]
pub struct DontBhiksha {
    pub next: BitsMask,
}

impl DontBhiksha {
    pub const K_MODEL_TYPE_ADD: u8 = 0;

    /// Pointers up to `max_next`.
    pub fn new(max_next: u64) -> (r: Self)
        requires
            bit_len(max_next as nat) < 64,
        ensures
            r.next.bits == bit_len(max_next as nat),
            r.next.mask == mask_of(r.next.bits),
    {
        DontBhiksha { next: BitsMask::by_max(max_next) }
    }

    /// Extra memory needed: none.
    pub fn size(_max_offset: u64, _max_next: u64, _config: &BhikshaConfig) -> (r: u64)
        ensures
            r == 0,
    {
        0
    }

    /// Bits stored per pointer in the entries.
    pub fn inline_bits(_max_offset: u64, max_next: u64, _config: &BhikshaConfig) -> (r: u8)
        ensures
            r == bit_len(max_next as nat),
    {
        required_bits(max_next)
    }

    /// Reads the pointer range: this entry's pointer and the next entry's.
    pub fn read_next(&self, base: &[u8], bit_offset: u64, total_bits: u8, out: &mut NodeRange)
        requires
            bit_offset + total_bits <= u64::MAX,
        ensures
            final(out).begin == spec_read_int57(base@, bit_offset, self.next.mask),
            final(out).end == spec_read_int57(base@, (bit_offset + total_bits) as u64, self.next.mask),
    {
        out.begin = read_int57(base, bit_offset, self.next.bits, self.next.mask);
        out.end = read_int57(base, bit_offset + total_bits as u64, self.next.bits, self.next.mask);
    }

    /// Writes a pointer.
    pub fn write_next(&self, base: &mut [u8], bit_offset: u64, value: u64)
        ensures
            final(base)@ == spec_write_int57(old(base)@, bit_offset, value),
    {
        write_int57(base, bit_offset, self.next.bits, value);
    }

    /// Nothing to finish.
    pub fn finished_loading(&self, _config: &BhikshaConfig) {
    }

    /// Bits stored per pointer.
    pub fn get_inline_bits(&self) -> (r: u8)
        ensures
            r == self.next.bits,
    {
        self.next.bits
    }
}

/// The cost that `chop_bits` minimizes for `chop` chopped bits, in `i64` arithmetic:
/// `(max_next >> (required - chop)) * 64 - max_offset * chop`.
pub open spec fn chop_change(max_offset: u64, max_next: u64, chop: int) -> int {
    ((max_next >> ((bit_len(max_next as nat) - chop) as u64)) as i64) * 64 - (max_offset as i64)
        * chop
}

/// Whether every cost that `chop_bits` evaluates fits its `i64` arithmetic.
pub open spec fn chop_fits(max_offset: u64, max_next: u64, config_bits: u8) -> bool {
    let required = bit_len(max_next as nat);
    forall|chop: int|
        0 <= chop <= required && chop <= config_bits ==> {
            &&& required - chop < 64
            &&& i64::MIN <= ((max_next >> ((required - chop) as u64)) as i64) * 64 <= i64::MAX
            &&& i64::MIN <= (max_offset as i64) * chop <= i64::MAX
            &&& i64::MIN <= #[trigger] chop_change(max_offset, max_next, chop) <= i64::MAX
        }
}

/// The number of chopped bits, among `0..=min(required, config bits)`, with the least cost
/// (the first of them on ties).
pub open spec fn spec_chop_bits(max_offset: u64, max_next: u64, config_bits: u8) -> int {
    let required = bit_len(max_next as nat);
    let top = if required < config_bits {
        required as int
    } else {
        config_bits as int
    };
    best_chop(max_offset, max_next, top)
}

/// The first chop in `0..=top` of least cost.
pub open spec fn best_chop(max_offset: u64, max_next: u64, top: int) -> int
    decreases top,
{
    if top <= 0 {
        0
    } else {
        let b = best_chop(max_offset, max_next, top - 1);
        if chop_change(max_offset, max_next, top) < chop_change(max_offset, max_next, b) {
            top
        } else {
            b
        }
    }
}

proof fn lemma_best_chop_range(max_offset: u64, max_next: u64, top: int)
    requires
        top >= 0,
    ensures
        0 <= best_chop(max_offset, max_next, top) <= top,
    decreases top,
{
    if top > 0 {
        lemma_best_chop_range(max_offset, max_next, top - 1);
    }
}

/// Number of high pointer bits moved out of the entries into the offset array.
pub fn chop_bits(max_offset: u64, max_next: u64, config: &BhikshaConfig) -> (r: u8)
    requires
        chop_fits(max_offset, max_next, config.pointer_bhiksha_bits),
    ensures
        r == spec_chop_bits(max_offset, max_next, config.pointer_bhiksha_bits),
        r <= bit_len(max_next as nat),
        r <= config.pointer_bhiksha_bits,
{
    let required = required_bits(max_next);
    let top = if required < config.pointer_bhiksha_bits { required } else { config.pointer_bhiksha_bits };
    let mut best: u8 = 0;
    assert(i64::MIN <= chop_change(max_offset, max_next, 0) <= i64::MAX);
    let mut lowest_change: i64 = ((max_next >> ((required - 0u8) as u64)) as i64) * 64 - (max_offset as i64) * 0i64;
    let mut chop: u8 = 1;
    while chop <= top
        invariant
            1 <= chop <= top + 1,
            top <= required,
            top <= config.pointer_bhiksha_bits,
            required == bit_len(max_next as nat),
            required <= 64,
            chop_fits(max_offset, max_next, config.pointer_bhiksha_bits),
            best == best_chop(max_offset, max_next, chop - 1),
            lowest_change == chop_change(max_offset, max_next, best as int),
        decreases top + 1 - chop,
    {
        proof {
            lemma_best_chop_range(max_offset, max_next, chop - 1);
            assert(i64::MIN <= chop_change(max_offset, max_next, chop as int) <= i64::MAX);
        }
        let change: i64 = ((max_next >> ((required - chop) as u64)) as i64) * 64 - (max_offset as i64)
            * (chop as i64);
        if change < lowest_change {
            lowest_change = change;
            best = chop;
        }
        chop = chop + 1;
    }
    proof {
        lemma_best_chop_range(max_offset, max_next, top as int);
    }
    best
}

/// Number of entries of the offset array: one per value of the chopped high bits.
pub open spec fn spec_array_count(max_offset: u64, max_next: u64, config_bits: u8) -> int {
    (max_next >> ((bit_len(max_next as nat) - spec_chop_bits(max_offset, max_next, config_bits)) as u64))
        + 1
}

/// Whether `array_count` can compute its result.
pub open spec fn array_count_fits(max_offset: u64, max_next: u64, config_bits: u8) -> bool {
    &&& chop_fits(max_offset, max_next, config_bits)
    &&& spec_array_count(max_offset, max_next, config_bits) <= usize::MAX
}

/// Number of entries of the offset array.
pub fn array_count(max_offset: u64, max_next: u64, config: &BhikshaConfig) -> (r: usize)
    requires
        array_count_fits(max_offset, max_next, config.pointer_bhiksha_bits),
    ensures
        r == spec_array_count(max_offset, max_next, config.pointer_bhiksha_bits),
{
    let required = required_bits(max_next);
    let chopping = chop_bits(max_offset, max_next, config);
    assert(required - chopping < 64);
    ((max_next >> ((required - chopping) as u64)) as usize) + 1
}

/// The address of the first byte of `from`. Where a buffer lies in memory is up to the
/// allocator, so nothing is stated of the result.
#[verifier::external_body]
fn slice_address(from: &[u8]) -> (r: usize) {
    from.as_ptr() as usize
}

/// The words that the offset array is initialized from: the little-endian `u64`s at
/// `start`, `start + 8`, ..., as many of the first `count` as fit in the buffer.
pub open spec fn aligned_words(base: Seq<u8>, start: int, count: int) -> Seq<u64> {
    let avail = if base.len() >= start {
        (base.len() - start) / 8
    } else {
        0
    };
    let n = if count < avail {
        count
    } else {
        avail
    };
    Seq::new(n as nat, |i: int| le_bytes(base, start + 8 * i, 8))
}

/// The position after which `read_next` looks for the range's first block: one before the
/// first offset larger than `index` (0 when that is the first).
pub open spec fn first_greater(s: Seq<u64>, index: u64, p: int) -> int
    decreases s.len() - p,
{
    if p >= s.len() {
        s.len() as int
    } else if s[p] > index {
        p
    } else {
        first_greater(s, index, p + 1)
    }
}

/// The first position from `e` on whose offset exceeds `index + 1` (or the end).
pub open spec fn end_scan(s: Seq<u64>, index: u64, e: int) -> int
    decreases s.len() - e,
{
    if e < 0 || e >= s.len() {
        e
    } else if s[e] <= index + 1 {
        end_scan(s, index, e + 1)
    } else {
        e
    }
}

/// `x - 1`, or 0 for 0.
pub open spec fn sat_dec(x: int) -> int {
    if x > 0 {
        x - 1
    } else {
        0
    }
}

/// Next pointers split in two: the low bits inline in the entries, the high bits recovered
/// from a sorted array of the entry indices where each high-bit value starts.
#[derive(Debug)]
pub struct ArrayBhiksha {
    next_inline: BitsMask,
    offset_begin: Vec<u64>,
    offset_end: Vec<u64>,
    write_to: Vec<u64>,
    base_copy: Vec<u8>,
}

impl ArrayBhiksha {
    pub const K_MODEL_TYPE_ADD: u8 = 1;

    pub closed spec fn inline(&self) -> BitsMask {
        self.next_inline
    }

    pub closed spec fn offset_begin(&self) -> Seq<u64> {
        self.offset_begin@
    }

    pub closed spec fn offset_end(&self) -> Seq<u64> {
        self.offset_end@
    }

    pub closed spec fn write_to(&self) -> Seq<u64> {
        self.write_to@
    }

    /// The range that `read_next` yields for entry `index` at `bit_offset`.
    pub open spec fn spec_read_next(&self, base: Seq<u8>, bit_offset: u64, index: u64, total_bits: u8) -> (u64, u64) {
        let b = sat_dec(first_greater(self.offset_begin(), index, 0));
        let e = sat_dec(end_scan(self.offset_end(), index, b + 1));
        (((b as u64) << self.inline().bits) | spec_read_int57(base, bit_offset, self.inline().mask),
        ((e as u64) << self.inline().bits) | spec_read_int57(
            base,
            (bit_offset + total_bits) as u64,
            self.inline().mask,
        ))
    }

    /// Reads the offset array from `base` (from its first 8-byte aligned position on) for
    /// pointers up to `max_value` into a layer of `max_offset` entries. A buffer too short to
    /// reach an aligned position gives no words.
    pub fn new(base: &[u8], max_offset: u64, max_value: u64, config: &BhikshaConfig) -> (r: Self)
        requires
            array_count_fits(max_offset, max_value, config.pointer_bhiksha_bits),
            bit_len(max_value as nat) - spec_chop_bits(max_offset, max_value, config.pointer_bhiksha_bits) < 64,
        ensures
            r.inline().bits == bit_len(max_value as nat) - spec_chop_bits(max_offset, max_value, config.pointer_bhiksha_bits),
            r.inline().mask == mask_of(r.inline().bits),
            r.offset_begin() == r.offset_end(),
            exists|start: int| 0 <= start < 8 && r.offset_begin() == aligned_words(base@, start,
                spec_array_count(max_offset, max_value, config.pointer_bhiksha_bits)),
            r.write_to() == seq![0u64],
    {
        let next_inline_bits = ArrayBhiksha::inline_bits(max_offset, max_value, config);
        let remainder = slice_address(base) % 8;
        let start: usize = if remainder == 0 { 0 } else { 8 - remainder };
        let count = array_count(max_offset, max_value, config);
        let usable: usize = if start <= base.len() { base.len() - start } else { 0 };
        let avail = usable / 8;
        let mut offset_begin: Vec<u64> = Vec::new();
        let mut offset_end: Vec<u64> = Vec::new();
        let mut i: usize = 0;
        while i < count
            invariant
                start < 8,
                usable == if start <= base@.len() { base@.len() - start } else { 0 },
                avail == usable / 8,
                i <= count,
                offset_begin@ == offset_end@,
                offset_begin@.len() == if i < avail { i } else { avail },
                forall|k: int| 0 <= k < offset_begin@.len() ==> #[trigger] offset_begin@[k] == le_bytes(base@, start + 8 * k, 8),
            decreases count - i,
        {
            if i < avail {
                assert(i * 8 + 8 <= usable) by (nonlinear_arith)
                    requires
                        i < avail,
                        avail == usable / 8,
                ;
                assert(start <= base@.len());
                let off: usize = start + i * 8;
                let value = crate::bit_packing::read_le_word(base, off);
                offset_begin.push(value);
                offset_end.push(value);
            }
            i = i + 1;
        }
        proof {
            let w = aligned_words(base@, start as int, count as int);
            assert(offset_begin@ =~= w);
        }
        ArrayBhiksha {
            next_inline: BitsMask::by_bits(next_inline_bits),
            offset_begin,
            offset_end,
            write_to: vec![0],
            base_copy: vstd::slice::slice_to_vec(base),
        }
    }

    /// Memory size: the offset array plus its header word, plus 7 bytes of alignment slack.
    pub fn size(max_offset: u64, max_next: u64, config: &BhikshaConfig) -> (r: u64)
        requires
            array_count_fits(max_offset, max_next, config.pointer_bhiksha_bits),
            8 * (1 + spec_array_count(max_offset, max_next, config.pointer_bhiksha_bits)) + 7 <= u64::MAX,
        ensures
            r == 8 * (1 + spec_array_count(max_offset, max_next, config.pointer_bhiksha_bits)) + 7,
    {
        let count = array_count(max_offset, max_next, config);
        8 * (1 + count as u64) + 7
    }

    /// Bits of each pointer stored inline.
    pub fn inline_bits(max_offset: u64, max_next: u64, config: &BhikshaConfig) -> (r: u8)
        requires
            chop_fits(max_offset, max_next, config.pointer_bhiksha_bits),
        ensures
            r == bit_len(max_next as nat) - spec_chop_bits(max_offset, max_next, config.pointer_bhiksha_bits),
    {
        required_bits(max_next) - chop_bits(max_offset, max_next, config)
    }

    /// Reads the pointer range of entry `index`: the high bits come from the offset array,
    /// the low bits from this entry and the next one.
    pub fn read_next(&self, base: &[u8], bit_offset: u64, index: u64, total_bits: u8, out: &mut NodeRange)
        requires
            index < u64::MAX,
            bit_offset + total_bits <= u64::MAX,
            self.inline().bits < 64,
            self.spec_read_next(base@, bit_offset, index, total_bits).1 >= self.spec_read_next(
                base@,
                bit_offset,
                index,
                total_bits,
            ).0,
        ensures
            final(out).begin == self.spec_read_next(base@, bit_offset, index, total_bits).0,
            final(out).end == self.spec_read_next(base@, bit_offset, index, total_bits).1,
    {
        let n = self.offset_begin.len();
        let mut p: usize = 0;
        while p < n && self.offset_begin[p] <= index
            invariant
                n == self.offset_begin@.len(),
                p <= n,
                first_greater(self.offset_begin@, index, 0) == first_greater(self.offset_begin@, index, p as int),
            decreases n - p,
        {
            p = p + 1;
        }
        let begin_it: usize = if p > 0 { p - 1 } else { 0 };
        let m = self.offset_end.len();
        let mut end_it: usize = begin_it + 1;
        if begin_it + 1 > m {
            end_it = begin_it + 1;
        } else {
            while end_it < m && self.offset_end[end_it] <= index + 1
                invariant
                    m == self.offset_end@.len(),
                    begin_it + 1 <= end_it <= m,
                    index < u64::MAX,
                    end_scan(self.offset_end@, index, begin_it + 1) == end_scan(self.offset_end@, index, end_it as int),
                decreases m - end_it,
            {
                end_it = end_it + 1;
            }
        }
        let end_it: usize = if end_it > 0 { end_it - 1 } else { 0 };
        out.begin = ((begin_it as u64) << (self.next_inline.bits as u64))
            | read_int57(base, bit_offset, self.next_inline.bits, self.next_inline.mask);
        out.end = ((end_it as u64) << (self.next_inline.bits as u64))
            | read_int57(base, bit_offset + total_bits as u64, self.next_inline.bits, self.next_inline.mask);
    }

    /// Writes the pointer `value` of entry `index`: its high bits go to the offset array
    /// (which is extended with `index` up to them), its low bits inline.
    pub fn write_next(&mut self, base: &mut [u8], bit_offset: u64, index: u64, value: u64)
        requires
            old(self).inline().bits < 64,
            (value >> old(self).inline().bits) < usize::MAX,
        ensures
            final(base)@ == spec_write_int57(old(base)@, bit_offset, value & old(self).inline().mask),
            final(self).inline() == old(self).inline(),
            final(self).offset_begin() == old(self).offset_begin(),
            final(self).offset_end() == old(self).offset_end(),
            final(self).write_to() == if old(self).write_to().len() > (value >> old(self).inline().bits) {
                old(self).write_to()
            } else {
                old(self).write_to() + Seq::new(
                    ((value >> old(self).inline().bits) + 1 - old(self).write_to().len()) as nat,
                    |i: int| index,
                )
            },
    {
        let encode = value >> (self.next_inline.bits as u64);
        let ghost orig = self.write_to@;
        while (self.write_to.len() as u64) <= encode
            invariant
                encode == value >> old(self).inline().bits,
                encode < usize::MAX,
                orig == old(self).write_to(),
                self.next_inline == old(self).inline(),
                self.offset_begin@ == old(self).offset_begin(),
                self.offset_end@ == old(self).offset_end(),
                self.write_to@.len() >= orig.len(),
                self.write_to@.len() <= orig.len() || self.write_to@.len() <= encode + 1,
                self.write_to@ == orig + Seq::new((self.write_to@.len() - orig.len()) as nat, |i: int| index),
            decreases encode + 1 - self.write_to@.len(),
        {
            self.write_to.push(index);
            assert(self.write_to@ =~= orig + Seq::new((self.write_to@.len() - orig.len()) as nat, |i: int| index));
        }
        proof {
            if orig.len() > encode {
                assert(self.write_to@ =~= orig);
            }
        }
        write_int57(base, bit_offset, self.next_inline.bits, value & self.next_inline.mask);
    }

    /// Closes the offset array; every expected array entry must have been written.
    pub fn finished_loading(&mut self, _config: &BhikshaConfig)
        requires
            old(self).write_to().len() > 0,
            old(self).write_to().update(0, 0u64) == old(self).offset_end(),
        ensures
            final(self).write_to() == old(self).write_to().update(0, 0u64),
            final(self).inline() == old(self).inline(),
            final(self).offset_begin() == old(self).offset_begin(),
            final(self).offset_end() == old(self).offset_end(),
    {
        self.write_to.set(0, 0);
    }
}

} // verus!
