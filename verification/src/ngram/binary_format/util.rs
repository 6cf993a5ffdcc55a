//! Bit-field helpers of the binary format: these writes replace the target bits.
use vstd::prelude::*;
use crate::hash::le_bytes;
use crate::bit_packing::{le_encode, le_byte, splice, mask_of, bit_len, spec_read_int57,
    spec_window, window_in_range, lemma_le_decode_encode};

verus! {

/// What `write_int57` leaves in the buffer: the `bits` bits at `bit_offset` replaced by
/// the low bits of `value`, every other bit kept.
pub open spec fn spec_write_field(base: Seq<u8>, bit_offset: u64, bits: u8, value: u64) -> Seq<u8> {
    if window_in_range(base.len(), bit_offset) {
        let s = bit_offset % 8;
        let write_mask = mask_of(bits) << s;
        splice(
            base,
            (bit_offset / 8) as int,
            le_encode((spec_window(base, bit_offset) & !write_mask) | ((value << s) & write_mask)),
        )
    } else {
        base
    }
}

/// Bits needed for `value`, and at least one.
pub open spec fn spec_required_bits_min1(value: u64) -> nat {
    if value == 0 {
        1
    } else {
        bit_len(value as nat)
    }
}

/// Reads the integer stored in `bits` bits at `bit_offset`, keeping the bits of `mask`.
/// Reads past the end of the buffer give 0.
pub fn read_int57(base: &[u8], bit_offset: u64, bits: u8, mask: u64) -> (r: u64)
    ensures
        r == spec_read_int57(base@, bit_offset, mask),
{
    crate::bit_packing::read_int57(base, bit_offset, bits, mask)
}

/// Replaces the `bits` bits at `bit_offset` with the low bits of `value`.
/// Writes past the end of the buffer are dropped.
pub fn write_int57(base: &mut [u8], bit_offset: u64, bits: u8, value: u64)
    requires
        bits < 64,
    ensures
        final(base)@ == spec_write_field(old(base)@, bit_offset, bits, value),
{
    let byte_offset = bit_offset / 8;
    if byte_offset + 8 > base.len() as u64 {
        return;
    }
    let bit_remainder = bit_offset % 8;
    let existing = crate::bit_packing::read_le_word(base, byte_offset as usize);
    let write_mask = crate::bit_packing::low_mask(bits) << bit_remainder;
    let updated = (existing & !write_mask) | ((value << bit_remainder) & write_mask);
    crate::bit_packing::write_le_word(base, byte_offset as usize, updated);
}

/// Bits needed to store `value`; 1 for 0.
pub fn required_bits(value: u64) -> (r: u8)
    ensures
        r == spec_required_bits_min1(value),
{
    if value == 0 {
        return 1;
    }
    crate::bit_packing::required_bits(value)
}

/// A field written with `write_int57` reads back as the low `bits` bits of the value,
/// whatever the buffer held before.
pub proof fn lemma_read_after_write_field(base: Seq<u8>, bit_offset: u64, bits: u8, value: u64)
    requires
        window_in_range(base.len(), bit_offset),
        bits <= 57,
    ensures
        spec_read_int57(spec_write_field(base, bit_offset, bits, value), bit_offset, mask_of(bits))
            == value & mask_of(bits),
{
    let nb = spec_write_field(base, bit_offset, bits, value);
    let b = (bit_offset / 8) as int;
    let s = bit_offset % 8;
    let m = mask_of(bits);
    let w = spec_window(base, bit_offset);
    let wm = m << s;
    let w2 = (w & !wm) | ((value << s) & wm);
    assert forall|i: int| 0 <= i < 8 implies nb[b + i] == le_byte(w2, i) by {}
    lemma_le_decode_encode(nb, b, w2);
    assert(((w2 >> s) & m) == value & m) by (bit_vector)
        requires
            w2 == (w & !wm) | ((value << s) & wm),
            wm == m << s,
            m == (if bits == 0 {
                0u64
            } else {
                ((1u64 << bits) - 1) as u64
            }),
            s < 8,
            bits <= 57,
    ;
}

/// A field write leaves the bits outside the field alone: a field elsewhere that does not
/// share a bit with it reads the same afterwards.
pub proof fn lemma_write_field_same_window_other(base: Seq<u8>, bit_offset: u64, bits: u8,
    value: u64, other_shift: u64, other_bits: u8)
    requires
        window_in_range(base.len(), bit_offset),
        bits <= 57,
        other_bits <= 57,
        other_shift + other_bits <= bit_offset % 8 || bit_offset % 8 + bits <= other_shift,
        other_shift + other_bits <= 64,
    ensures
        ((le_bytes(spec_write_field(base, bit_offset, bits, value), (bit_offset / 8) as int, 8)
            >> other_shift) & mask_of(other_bits)) == ((spec_window(base, bit_offset)
            >> other_shift) & mask_of(other_bits)),
{
    let nb = spec_write_field(base, bit_offset, bits, value);
    let b = (bit_offset / 8) as int;
    let s = bit_offset % 8;
    let m = mask_of(bits);
    let om = mask_of(other_bits);
    let w = spec_window(base, bit_offset);
    let wm = m << s;
    let w2 = (w & !wm) | ((value << s) & wm);
    assert forall|i: int| 0 <= i < 8 implies nb[b + i] == le_byte(w2, i) by {}
    lemma_le_decode_encode(nb, b, w2);
    assert(((w2 >> other_shift) & om) == ((w >> other_shift) & om)) by (bit_vector)
        requires
            w2 == (w & !wm) | ((value << s) & wm),
            wm == m << s,
            m == (if bits == 0 {
                0u64
            } else {
                ((1u64 << bits) - 1) as u64
            }),
            om == (if other_bits == 0 {
                0u64
            } else {
                ((1u64 << other_bits) - 1) as u64
            }),
            s < 8,
            bits <= 57,
            other_bits <= 57,
            other_shift + other_bits <= s || s + bits <= other_shift,
            other_shift + other_bits <= 64,
    ;
}

} // verus!
