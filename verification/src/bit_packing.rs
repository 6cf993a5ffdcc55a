//! Bit-level packing of integers into byte buffers (little-endian layout).
//!
//! The write functions OR the value into place and so assume that the target
//! bits are zero beforehand, which is the case for freshly allocated buffers.
use vstd::prelude::*;
use vstd::arithmetic::power2::{pow2, lemma_pow2_unfold, lemma_pow2_pos};
use vstd::bits::{lemma_u64_shl_is_mul, lemma_u64_pow2_no_overflow};
use crate::hash::le_bytes;

verus! {

// ---------------------------------------------------------------------------
// Specifications
// ---------------------------------------------------------------------------

/// Number of bits needed to write the integer `n` (0 for 0).
pub open spec fn bit_len(n: nat) -> nat
    decreases n,
{
    if n == 0 {
        0
    } else {
        1 + bit_len(n / 2)
    }
}

/// The mask of the `bits` low bits (for `bits < 64`).
pub open spec fn mask_of(bits: u8) -> u64 {
    if bits == 0 {
        0
    } else {
        ((1u64 << bits) - 1) as u64
    }
}

/// Whether the 8-byte window that holds bit `bit_off` lies inside a buffer of `len` bytes.
pub open spec fn window_in_range(len: nat, bit_off: u64) -> bool {
    bit_off / 8 + 8 <= len
}

/// The little-endian 64-bit word that starts at the byte holding bit `bit_off`.
pub open spec fn spec_window(base: Seq<u8>, bit_off: u64) -> u64 {
    le_bytes(base, (bit_off / 8) as int, 8)
}

/// What `read_int57` returns.
pub open spec fn spec_read_int57(base: Seq<u8>, bit_off: u64, mask: u64) -> u64 {
    if window_in_range(base.len(), bit_off) {
        (spec_window(base, bit_off) >> (bit_off % 8)) & mask
    } else {
        0
    }
}

/// Byte `i` of the little-endian encoding of `x`.
pub open spec fn le_byte(x: u64, i: int) -> u8 {
    ((x >> (8 * i) as u64) & 0xff) as u8
}

/// The 8-byte little-endian encoding of `x`.
pub open spec fn le_encode(x: u64) -> Seq<u8> {
    Seq::new(8, |i: int| le_byte(x, i))
}

/// `base` with `bytes` written at byte position `at`.
pub open spec fn splice(base: Seq<u8>, at: int, bytes: Seq<u8>) -> Seq<u8> {
    base.subrange(0, at) + bytes + base.subrange(at + bytes.len(), base.len() as int)
}

/// What `write_int57` leaves in the buffer.
pub open spec fn spec_write_int57(base: Seq<u8>, bit_off: u64, value: u64) -> Seq<u8> {
    if window_in_range(base.len(), bit_off) {
        splice(
            base,
            (bit_off / 8) as int,
            le_encode(spec_window(base, bit_off) | (value << (bit_off % 8))),
        )
    } else {
        base
    }
}

/// Whether the 4-byte window that holds bit `bit_off` lies inside a buffer of `len` bytes.
pub open spec fn window25_in_range(len: nat, bit_off: u64) -> bool {
    bit_off / 8 + 4 <= len
}

/// The little-endian 32-bit word that starts at the byte holding bit `bit_off`.
pub open spec fn spec_window25(base: Seq<u8>, bit_off: u64) -> u32 {
    le_bytes(base, (bit_off / 8) as int, 4) as u32
}

/// What `read_int25` returns.
pub open spec fn spec_read_int25(base: Seq<u8>, bit_off: u64, mask: u32) -> u32 {
    if window25_in_range(base.len(), bit_off) {
        (spec_window25(base, bit_off) >> (bit_off % 8) as u32) & mask
    } else {
        0
    }
}

/// The 4-byte little-endian encoding of `x`.
pub open spec fn le_encode32(x: u32) -> Seq<u8> {
    Seq::new(4, |i: int| le_byte(x as u64, i))
}

/// What `write_int25` leaves in the buffer.
pub open spec fn spec_write_int25(base: Seq<u8>, bit_off: u64, value: u32) -> Seq<u8> {
    if window25_in_range(base.len(), bit_off) {
        splice(
            base,
            (bit_off / 8) as int,
            le_encode32(spec_window25(base, bit_off) | (value << (bit_off % 8) as u32)),
        )
    } else {
        base
    }
}

/// Bit `p` of a buffer, counting from the least significant bit of byte 0.
pub open spec fn abs_bit(base: Seq<u8>, p: int) -> bool {
    (base[p / 8] >> ((p % 8) as u8)) & 1u8 == 1u8
}

/// Bit `j` of a 64-bit word.
pub open spec fn u64_bit(x: u64, j: int) -> bool {
    (x >> (j as u64)) & 1u64 == 1u64
}

// ---------------------------------------------------------------------------
// Lemmas
// ---------------------------------------------------------------------------

/// `bit_len(n)` bits hold `n`: `n < 2^bit_len(n)`.
pub proof fn lemma_bit_len_bound(n: nat)
    ensures
        n < pow2(bit_len(n)),
        n > 0 ==> pow2((bit_len(n) - 1) as nat) <= n,
    decreases n,
{
    if n == 0 {
        lemma_pow2_pos(0);
    } else {
        lemma_bit_len_bound(n / 2);
        lemma_pow2_unfold(bit_len(n));
        if n / 2 > 0 {
            lemma_pow2_unfold(bit_len(n / 2));
        } else {
            assert(pow2(0) == 1) by {
                vstd::arithmetic::power2::lemma2_to64();
            }
        }
    }
}

/// `bit_len` of a 64-bit value is at most 64.
pub proof fn lemma_bit_len_u64(n: u64)
    ensures
        bit_len(n as nat) <= 64,
{
    lemma_bit_len_bound(n as nat);
    if bit_len(n as nat) > 64 {
        if bit_len(n as nat) - 1 > 64 {
            vstd::arithmetic::power2::lemma_pow2_strictly_increases(64, (bit_len(n as nat) - 1) as nat);
        }
        vstd::arithmetic::power2::lemma2_to64_rest();
    }
}

/// The mask of `bits` low bits is `2^bits - 1`.
pub proof fn lemma_mask_of(bits: u8)
    requires
        bits < 64,
    ensures
        mask_of(bits) == pow2(bits as nat) - 1,
{
    lemma_u64_pow2_no_overflow(bits as nat);
    lemma_u64_shl_is_mul(1u64, bits as u64);
    if bits == 0 {
        assert(pow2(0) == 1) by {
            vstd::arithmetic::power2::lemma2_to64();
        }
    }
}

/// Every value of `bit_len(max)` bits or fewer is covered by the mask.
pub proof fn lemma_le_mask_of(max: u64, v: u64)
    requires
        bit_len(max as nat) < 64,
        v <= max,
    ensures
        v <= mask_of(bit_len(max as nat) as u8),
{
    lemma_bit_len_bound(max as nat);
    lemma_mask_of(bit_len(max as nat) as u8);
}

/// The bits of an 8-byte little-endian word are the bits of its bytes.
proof fn lemma_le8_bits(b0: u8, b1: u8, b2: u8, b3: u8, b4: u8, b5: u8, b6: u8, b7: u8, j: u64)
    by (bit_vector)
    requires
        j < 64,
    ensures
        ({
            let w = ((((((((0u64 | ((b0 as u64) << 0u64)) | ((b1 as u64) << 8u64)) | ((b2 as u64)
                << 16u64)) | ((b3 as u64) << 24u64)) | ((b4 as u64) << 32u64)) | ((b5 as u64)
                << 40u64)) | ((b6 as u64) << 48u64)) | ((b7 as u64) << 56u64));
            &&& j < 8 ==> ((w >> j) & 1u64 == 1u64 <==> (b0 >> (j as u8)) & 1u8 == 1u8)
            &&& 8 <= j < 16 ==> ((w >> j) & 1u64 == 1u64 <==> (b1 >> ((j - 8) as u8)) & 1u8 == 1u8)
            &&& 16 <= j < 24 ==> ((w >> j) & 1u64 == 1u64 <==> (b2 >> ((j - 16) as u8)) & 1u8
                == 1u8)
            &&& 24 <= j < 32 ==> ((w >> j) & 1u64 == 1u64 <==> (b3 >> ((j - 24) as u8)) & 1u8
                == 1u8)
            &&& 32 <= j < 40 ==> ((w >> j) & 1u64 == 1u64 <==> (b4 >> ((j - 32) as u8)) & 1u8
                == 1u8)
            &&& 40 <= j < 48 ==> ((w >> j) & 1u64 == 1u64 <==> (b5 >> ((j - 40) as u8)) & 1u8
                == 1u8)
            &&& 48 <= j < 56 ==> ((w >> j) & 1u64 == 1u64 <==> (b6 >> ((j - 48) as u8)) & 1u8
                == 1u8)
            &&& 56 <= j < 64 ==> ((w >> j) & 1u64 == 1u64 <==> (b7 >> ((j - 56) as u8)) & 1u8
                == 1u8)
        }),
{
}

/// Decoding the little-endian bytes of `x` gives back `x`.
proof fn lemma_le8_encode(x: u64)
    by (bit_vector)
    ensures
        x == ((((((((0u64 | ((((x >> 0u64) & 0xff) as u8 as u64) << 0u64)) | ((((x >> 8u64)
            & 0xff) as u8 as u64) << 8u64)) | ((((x >> 16u64) & 0xff) as u8 as u64) << 16u64))
            | ((((x >> 24u64) & 0xff) as u8 as u64) << 24u64)) | ((((x >> 32u64) & 0xff) as u8
            as u64) << 32u64)) | ((((x >> 40u64) & 0xff) as u8 as u64) << 40u64)) | ((((x
            >> 48u64) & 0xff) as u8 as u64) << 48u64)) | ((((x >> 56u64) & 0xff) as u8 as u64)
            << 56u64)),
{
}

/// `le_bytes` of 8 bytes, written out.
proof fn lemma_le_bytes8_unfold(data: Seq<u8>, start: int)
    ensures
        le_bytes(data, start, 8) == ((((((((0u64 | ((data[start] as u64) << 0u64)) | ((data[start
            + 1] as u64) << 8u64)) | ((data[start + 2] as u64) << 16u64)) | ((data[start + 3]
            as u64) << 24u64)) | ((data[start + 4] as u64) << 32u64)) | ((data[start + 5] as u64)
            << 40u64)) | ((data[start + 6] as u64) << 48u64)) | ((data[start + 7] as u64)
            << 56u64)),
{
    reveal_with_fuel(le_bytes, 9);
}

/// Bit `j` of the 8-byte window at `start` is bit `8 * start + j` of the buffer.
pub proof fn lemma_window_bit(data: Seq<u8>, start: int, j: int)
    requires
        0 <= start,
        start + 8 <= data.len(),
        0 <= j < 64,
    ensures
        u64_bit(le_bytes(data, start, 8), j) == abs_bit(data, 8 * start + j),
{
    lemma_le_bytes8_unfold(data, start);
    lemma_le8_bits(
        data[start],
        data[start + 1],
        data[start + 2],
        data[start + 3],
        data[start + 4],
        data[start + 5],
        data[start + 6],
        data[start + 7],
        j as u64,
    );
    assert((8 * start + j) / 8 == start + j / 8);
    assert((8 * start + j) % 8 == j % 8);
}

/// Reading back the 8 bytes that encode `x` gives `x`.
pub proof fn lemma_le_decode_encode(data: Seq<u8>, start: int, x: u64)
    requires
        0 <= start,
        start + 8 <= data.len(),
        forall|i: int| 0 <= i < 8 ==> data[start + i] == le_byte(x, i),
    ensures
        le_bytes(data, start, 8) == x,
{
    lemma_le_bytes8_unfold(data, start);
    lemma_le8_encode(x);
    assert(data[start] == le_byte(x, 0));
    assert(data[start + 1] == le_byte(x, 1));
    assert(data[start + 2] == le_byte(x, 2));
    assert(data[start + 3] == le_byte(x, 3));
    assert(data[start + 4] == le_byte(x, 4));
    assert(data[start + 5] == le_byte(x, 5));
    assert(data[start + 6] == le_byte(x, 6));
    assert(data[start + 7] == le_byte(x, 7));
}

/// One step of rebuilding a word from its low bits.
proof fn lemma_low_bits_step(x: u64, k: u64)
    by (bit_vector)
    requires
        k < 64,
    ensures
        (if k == 63 {
            x
        } else {
            x & (((1u64 << ((k + 1) as u64)) - 1) as u64)
        }) == ((x & (((1u64 << k) - 1) as u64)) | (((x >> k) & 1u64) << k)),
{
}

/// The low bits of a word.
spec fn low_bits(x: u64, k: u64) -> u64 {
    if k >= 64 {
        x
    } else {
        x & ((1u64 << k) - 1) as u64
    }
}

proof fn lemma_low_bits_agree(x: u64, y: u64, k: u64)
    requires
        k <= 64,
        forall|j: int| 0 <= j < k ==> u64_bit(x, j) == u64_bit(y, j),
    ensures
        low_bits(x, k) == low_bits(y, k),
    decreases k,
{
    if k == 0 {
        assert(x & ((1u64 << 0u64) - 1) as u64 == 0) by (bit_vector);
        assert(y & ((1u64 << 0u64) - 1) as u64 == 0) by (bit_vector);
    } else {
        let k1 = (k - 1) as u64;
        lemma_low_bits_agree(x, y, k1);
        lemma_low_bits_step(x, k1);
        lemma_low_bits_step(y, k1);
        assert(u64_bit(x, k1 as int) == u64_bit(y, k1 as int));
        assert((x >> k1) & 1u64 == (y >> k1) & 1u64) by (bit_vector)
            requires
                ((x >> k1) & 1u64 == 1u64) == ((y >> k1) & 1u64 == 1u64),
        ;
    }
}

/// Two words with the same 64 bits are equal.
pub proof fn lemma_bits_determine(x: u64, y: u64)
    requires
        forall|j: int| 0 <= j < 64 ==> u64_bit(x, j) == u64_bit(y, j),
    ensures
        x == y,
{
    lemma_low_bits_agree(x, y, 64);
}

/// The bits of a shifted and masked window.
proof fn lemma_read_bits(w: u64, s: u64, mask: u64, len: u64, j: u64)
    by (bit_vector)
    requires
        s < 8,
        len < 64,
        s + len <= 64,
        mask == (1u64 << len) - 1,
        j < 64,
    ensures
        (((w >> s) & mask) >> j) & 1u64 == 1u64 <==> (j < len && (w >> (s + j)) & 1u64 == 1u64),
{
}

/// The bits of a word with a value ORed in.
proof fn lemma_or_bits(w: u64, v: u64, s: u64, mask: u64, len: u64, j: u64)
    by (bit_vector)
    requires
        s < 8,
        len < 64,
        s + len <= 64,
        mask == (1u64 << len) - 1,
        v <= mask,
        j < 64,
    ensures
        ((w | (v << s)) >> j) & 1u64 == 1u64 <==> ((w >> j) & 1u64 == 1u64 || (s <= j && j < s
            + len && (v >> ((j - s) as u64)) & 1u64 == 1u64)),
{
}

/// A value at most the mask has no bits at or above `len`.
proof fn lemma_value_high_bits(v: u64, mask: u64, len: u64, j: u64)
    by (bit_vector)
    requires
        len < 64,
        mask == (1u64 << len) - 1,
        v <= mask,
        len <= j < 64,
    ensures
        (v >> j) & 1u64 == 0u64,
{
}

/// The bits of a read: bit `j` of `read_int57(base, off, .., mask)` is bit `off + j` of the
/// buffer for `j` below the width, and zero above it.
pub proof fn lemma_read_int57_bits(base: Seq<u8>, off: u64, len: u8, mask: u64, j: int)
    requires
        window_in_range(base.len(), off),
        len <= 57,
        mask == mask_of(len),
        0 <= j < 64,
    ensures
        u64_bit(spec_read_int57(base, off, mask), j) == (j < len && abs_bit(base, off + j)),
{
    let w = spec_window(base, off);
    let s = off % 8;
    assert(mask == (1u64 << (len as u64)) - 1) by (bit_vector)
        requires
            mask == (if len == 0 {
                0u64
            } else {
                ((1u64 << len) - 1) as u64
            }),
            len <= 57,
    ;
    lemma_read_bits(w, s, mask, len as u64, j as u64);
    if j < len {
        lemma_window_bit(base, (off / 8) as int, s + j);
        assert(8 * (off / 8) + s + j == off + j);
    }
}

/// A read sees only the `len` bits at `off`: buffers that agree there read alike.
pub proof fn lemma_read_int57_depends(a: Seq<u8>, b: Seq<u8>, off: u64, len: u8, mask: u64)
    requires
        window_in_range(a.len(), off),
        window_in_range(b.len(), off),
        len <= 57,
        mask == mask_of(len),
        forall|p: int| off <= p < off + len ==> abs_bit(a, p) == abs_bit(b, p),
    ensures
        spec_read_int57(a, off, mask) == spec_read_int57(b, off, mask),
{
    assert forall|j: int| 0 <= j < 64 implies u64_bit(spec_read_int57(a, off, mask), j)
        == u64_bit(spec_read_int57(b, off, mask), j) by {
        lemma_read_int57_bits(a, off, len, mask, j);
        lemma_read_int57_bits(b, off, len, mask, j);
    }
    lemma_bits_determine(spec_read_int57(a, off, mask), spec_read_int57(b, off, mask));
}

/// A write ORs the value's bits in at `off` and leaves every other bit alone.
pub proof fn lemma_write_int57_bits(base: Seq<u8>, off: u64, len: u8, value: u64, p: int)
    requires
        window_in_range(base.len(), off),
        len <= 57,
        value <= mask_of(len),
        0 <= p < 8 * base.len(),
    ensures
        spec_write_int57(base, off, value).len() == base.len(),
        abs_bit(spec_write_int57(base, off, value), p) == (abs_bit(base, p) || (off <= p < off
            + len && u64_bit(value, p - off))),
{
    let nb = spec_write_int57(base, off, value);
    let b = (off / 8) as int;
    let s = off % 8;
    let w = spec_window(base, off);
    let w2 = w | (value << s);
    assert(nb.len() == base.len());
    let mask = mask_of(len);
    assert(mask == (1u64 << (len as u64)) - 1) by (bit_vector)
        requires
            mask == (if len == 0 {
                0u64
            } else {
                ((1u64 << len) - 1) as u64
            }),
            len <= 57,
    ;
    if 8 * b <= p < 8 * b + 64 {
        let j = p - 8 * b;
        assert forall|i: int| 0 <= i < 8 implies nb[b + i] == le_byte(w2, i) by {}
        lemma_le_decode_encode(nb, b, w2);
        lemma_window_bit(nb, b, j);
        lemma_window_bit(base, b, j);
        lemma_or_bits(w, value, s, mask, len as u64, j as u64);
        assert(off == 8 * b + s);
        if !(s <= j < s + len) && off <= p < off + len {
            assert(false);
        }
    } else {
        assert(nb[p / 8] == base[p / 8]);
        if off <= p < off + len {
            assert(off == 8 * b + s);
            assert(false);
        }
    }
}

/// Writing `value` over zero bits and reading it back with the matching mask gives `value`.
pub proof fn lemma_read_after_write_int57(base: Seq<u8>, off: u64, len: u8, value: u64)
    requires
        window_in_range(base.len(), off),
        len <= 57,
        value <= mask_of(len),
        forall|p: int| off <= p < off + len ==> !abs_bit(base, p),
    ensures
        spec_read_int57(spec_write_int57(base, off, value), off, mask_of(len)) == value,
{
    let nb = spec_write_int57(base, off, value);
    let mask = mask_of(len);
    assert(mask == (1u64 << (len as u64)) - 1) by (bit_vector)
        requires
            mask == (if len == 0 {
                0u64
            } else {
                ((1u64 << len) - 1) as u64
            }),
            len <= 57,
    ;
    assert forall|j: int| 0 <= j < 64 implies u64_bit(spec_read_int57(nb, off, mask), j)
        == u64_bit(value, j) by {
        lemma_write_int57_bits(base, off, len, value, 0);
        lemma_read_int57_bits(nb, off, len, mask, j);
        if j < len {
            assert(off + j < 8 * base.len()) by {
                assert(off / 8 + 8 <= base.len());
            }
            lemma_write_int57_bits(base, off, len, value, off + j);
        } else {
            lemma_value_high_bits(value, mask, len as u64, j as u64);
        }
    }
    lemma_bits_determine(spec_read_int57(nb, off, mask), value);
}

// ---------------------------------------------------------------------------
// Executable code
// ---------------------------------------------------------------------------

/// Bits required to store integers up to `max_value` (0 for 0).
pub fn required_bits(max_value: u64) -> (r: u8)
    ensures
        r == bit_len(max_value as nat),
        r <= 64,
{
    proof {
        lemma_bit_len_u64(max_value);
    }
    let mut v = max_value;
    let mut r: u8 = 0;
    while v > 0
        invariant
            r + bit_len(v as nat) == bit_len(max_value as nat),
            bit_len(max_value as nat) <= 64,
        decreases v,
    {
        v = v / 2;
        r = r + 1;
    }
    r
}

/// Reads the little-endian word of `n` bytes at `start`.
pub(crate) fn read_le(base: &[u8], start: usize, n: usize) -> (r: u64)
    requires
        start + n <= base.len(),
        n <= 8,
    ensures
        r == le_bytes(base@, start as int, n as nat),
{
    let mut k: u64 = 0;
    let mut j: usize = 0;
    while j < n
        invariant
            start + n <= base.len(),
            n <= 8,
            j <= n,
            k == le_bytes(base@, start as int, j as nat),
        decreases n - j,
    {
        k = k | ((base[start + j] as u64) << ((j * 8) as u64));
        j = j + 1;
    }
    k
}

/// Writes the low `n` little-endian bytes of `x` at `start`.
fn write_le(base: &mut [u8], start: usize, n: usize, x: u64)
    requires
        start + n <= old(base)@.len(),
        n <= 8,
    ensures
        final(base)@ == splice(old(base)@, start as int, Seq::new(n as nat, |i: int| le_byte(x, i))),
{
    let ghost orig = base@;
    let mut j: usize = 0;
    while j < n
        invariant
            start + n <= orig.len(),
            start + n <= base.len(),
            base@.len() == orig.len(),
            n <= 8,
            j <= n,
            forall|i: int| 0 <= i < start || start + n <= i < orig.len() ==> base@[i] == orig[i],
            forall|i: int| start <= i < start + j ==> base@[i] == le_byte(x, i - start),
            forall|i: int| start + j <= i < start + n ==> base@[i] == orig[i],
        decreases n - j,
    {
        let b = ((x >> ((j * 8) as u64)) & 0xff) as u8;
        assert(b == le_byte(x, (start + j) - start));
        base[start + j] = b;
        j = j + 1;
    }
    assert(base@ =~= splice(orig, start as int, Seq::new(n as nat, |i: int| le_byte(x, i))));
}

/// Reads the little-endian word of the 8 bytes at `start`.
pub fn read_le_word(base: &[u8], start: usize) -> (r: u64)
    requires
        start + 8 <= base.len(),
    ensures
        r == le_bytes(base@, start as int, 8),
{
    read_le(base, start, 8)
}

/// Writes the 8 little-endian bytes of `x` at `start`.
pub fn write_le_word(base: &mut [u8], start: usize, x: u64)
    requires
        start + 8 <= old(base)@.len(),
    ensures
        final(base)@ == splice(old(base)@, start as int, le_encode(x)),
{
    write_le(base, start, 8, x);
    assert(Seq::new(8nat, |i: int| le_byte(x, i)) =~= le_encode(x));
}

/// Reads the integer of at most 57 bits stored at bit `bit_off`, keeping the bits of `mask`.
/// `mask` is expected to be `(1 << length) - 1`; the buffer is read as little-endian.
/// Reads past the end of the buffer give 0.
pub fn read_int57(base: &[u8], bit_off: u64, length: u8, mask: u64) -> (r: u64)
    ensures
        r == spec_read_int57(base@, bit_off, mask),
{
    let byte_offset = bit_off / 8;
    if byte_offset + 8 <= base.len() as u64 {
        let w = read_le(base, byte_offset as usize, 8);
        (w >> (bit_off % 8)) & mask
    } else {
        0
    }
}

/// ORs `value` into the buffer at bit `bit_off`. Assumes `value < (1 << length)`,
/// `length <= 57` and that the target bits are zero. Writes past the end of the buffer
/// are dropped.
pub fn write_int57(base: &mut [u8], bit_off: u64, length: u8, value: u64)
    ensures
        final(base)@ == spec_write_int57(old(base)@, bit_off, value),
{
    let byte_offset = bit_off / 8;
    if byte_offset + 8 <= base.len() as u64 {
        let w = read_le(base, byte_offset as usize, 8);
        let nw = w | (value << (bit_off % 8));
        write_le(base, byte_offset as usize, 8, nw);
        assert(Seq::new(8nat, |i: int| le_byte(nw, i)) =~= le_encode(nw));
    }
}

/// Same as `read_int57`, with a 32-bit window (for integers of at most 25 bits).
pub fn read_int25(base: &[u8], bit_off: u64, length: u8, mask: u32) -> (r: u32)
    ensures
        r == spec_read_int25(base@, bit_off, mask),
{
    let byte_offset = bit_off / 8;
    if byte_offset + 4 <= base.len() as u64 {
        let w = read_le(base, byte_offset as usize, 4) as u32;
        (w >> ((bit_off % 8) as u32)) & mask
    } else {
        0
    }
}

/// Same as `write_int57`, with a 32-bit window (for integers of at most 25 bits).
pub fn write_int25(base: &mut [u8], bit_off: u64, length: u8, value: u32)
    ensures
        final(base)@ == spec_write_int25(old(base)@, bit_off, value),
{
    let byte_offset = bit_off / 8;
    if byte_offset + 4 <= base.len() as u64 {
        let w = read_le(base, byte_offset as usize, 4) as u32;
        let nw = w | (value << ((bit_off % 8) as u32));
        write_le(base, byte_offset as usize, 4, nw as u64);
        assert(Seq::new(4nat, |i: int| le_byte(nw as u64, i)) =~= le_encode32(nw));
    }
}

/// The mask of the `bits` low bits.
pub fn low_mask(bits: u8) -> (m: u64)
    requires
        bits < 64,
    ensures
        m == mask_of(bits),
{
    if bits > 0 {
        assert(1u64 << bits >= 1) by (bit_vector)
            requires
                bits < 64,
        ;
        (1u64 << bits) - 1
    } else {
        0
    }
}

/// Number of bits and the matching mask `(1 << bits) - 1`.
#[derive(Debug, Clone, Copy, Default)]
pub struct BitsMask {
    pub bits: u8,
    pub mask: u64,
}

impl BitsMask {
    /// Enough bits for every value up to `max_value`.
    pub fn by_max(max_value: u64) -> (r: Self)
        requires
            bit_len(max_value as nat) < 64,
        ensures
            r.bits == bit_len(max_value as nat),
            r.mask == mask_of(r.bits),
            r.mask == pow2(r.bits as nat) - 1,
    {
        let bits = required_bits(max_value);
        proof {
            lemma_mask_of(bits);
        }
        Self { bits, mask: low_mask(bits) }
    }

    /// Exactly `bits` bits.
    pub fn by_bits(bits: u8) -> (r: Self)
        requires
            bits < 64,
        ensures
            r.bits == bits,
            r.mask == mask_of(bits),
            r.mask == pow2(bits as nat) - 1,
    {
        proof {
            lemma_mask_of(bits);
        }
        Self { bits, mask: low_mask(bits) }
    }

    /// Resets to enough bits for every value up to `max_value`.
    pub fn from_max(&mut self, max_value: u64)
        requires
            bit_len(max_value as nat) < 64,
        ensures
            final(self).bits == bit_len(max_value as nat),
            final(self).mask == mask_of(final(self).bits),
    {
        self.bits = required_bits(max_value);
        self.mask = low_mask(self.bits);
    }
}

/// A position in a bit-packed buffer.
#[derive(Debug, Clone, Default)]
pub struct BitAddress {
    pub base: Vec<u8>,
    pub offset: u64,
}

impl BitAddress {
    pub fn new(base: Vec<u8>, offset: u64) -> (r: Self)
        ensures
            r.base@ == base@,
            r.offset == offset,
    {
        Self { base, offset }
    }
}

} // verus!
