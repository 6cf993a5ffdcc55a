//! MurmurHash2, 64-bit variant (MurmurHash64A), as used for vocabulary hashing.
use vstd::prelude::*;
use vstd::string::StringSliceAdditionalSpecFns;

verus! {

/// Multiplier of MurmurHash64A.
pub const MURMUR_M: u64 = 0xc6a4a7935bd1e995;

/// Shift of MurmurHash64A.
pub const MURMUR_R: u64 = 47;

/// Hash of "<unk>" under `murmur_hash_64a` with seed 0.
pub const UNKNOWN_HASH: u64 = 0xea91_e756_1f5b_392b;

/// Hash of "<UNK>" under `murmur_hash_64a` with seed 0.
pub const UNKNOWN_CAP_HASH: u64 = 0x7e16_3219_007d_2f54;

/// Multiplication modulo 2^64.
pub open spec fn wmul(x: u64, y: u64) -> u64 {
    ((x as nat * y as nat) % 0x1_0000_0000_0000_0000nat) as u64
}

/// The little-endian integer made of the `n` bytes of `data` starting at `start`.
pub open spec fn le_bytes(data: Seq<u8>, start: int, n: nat) -> u64
    decreases n,
{
    if n == 0 {
        0
    } else {
        le_bytes(data, start, (n - 1) as nat) | ((data[start + n - 1] as u64) << (8 * (n - 1)) as u64)
    }
}

/// One 8-byte block folded into the running hash.
pub open spec fn murmur_block(h: u64, k: u64) -> u64 {
    let k1 = wmul(k, MURMUR_M);
    let k2 = k1 ^ (k1 >> MURMUR_R);
    let k3 = wmul(k2, MURMUR_M);
    wmul(h ^ k3, MURMUR_M)
}

/// The running hash after the first `i` 8-byte blocks of `data`.
pub open spec fn murmur_blocks(data: Seq<u8>, seed: u64, i: nat) -> u64
    decreases i,
{
    if i == 0 {
        seed ^ wmul(data.len() as u64, MURMUR_M)
    } else {
        murmur_block(murmur_blocks(data, seed, (i - 1) as nat), le_bytes(data, 8 * (i - 1), 8))
    }
}

/// The hash after the tail bytes (those past the last full block) are folded in.
pub open spec fn murmur_tail(data: Seq<u8>, h: u64) -> u64 {
    let rem = data.len() % 8;
    if rem > 0 {
        wmul(h ^ le_bytes(data, data.len() - rem, rem), MURMUR_M)
    } else {
        h
    }
}

/// The final avalanche.
pub open spec fn murmur_finish(h: u64) -> u64 {
    let h1 = h ^ (h >> MURMUR_R);
    let h2 = wmul(h1, MURMUR_M);
    h2 ^ (h2 >> MURMUR_R)
}

/// MurmurHash64A of `data` with `seed`.
pub open spec fn spec_murmur_hash_64a(data: Seq<u8>, seed: u64) -> u64 {
    murmur_finish(murmur_tail(data, murmur_blocks(data, seed, data.len() / 8)))
}

/// Reads the little-endian `u64` made of `data[start..start + 8]`.
fn read_u64_le(data: &[u8], start: usize) -> (r: u64)
    requires
        start + 8 <= data@.len(),
    ensures
        r == le_bytes(data@, start as int, 8),
{
    let mut k: u64 = 0;
    let mut j: usize = 0;
    while j < 8
        invariant
            start + 8 <= data.len(),
            j <= 8,
            k == le_bytes(data@, start as int, j as nat),
        decreases 8 - j,
    {
        k = k | ((data[start + j] as u64) << ((j * 8) as u64));
        j = j + 1;
    }
    k
}

/// MurmurHash64A (Austin Appleby) of `data` with `seed`.
pub fn murmur_hash_64a(data: &[u8], seed: u64) -> (h: u64)
    ensures
        h == spec_murmur_hash_64a(data@, seed),
{
    let len = data.len();
    let mut h: u64 = seed ^ (len as u64).wrapping_mul(MURMUR_M);
    let n_blocks = len / 8;
    let mut i: usize = 0;
    while i < n_blocks
        invariant
            len == data@.len(),
            n_blocks == len / 8,
            i <= n_blocks,
            h == murmur_blocks(data@, seed, i as nat),
        decreases n_blocks - i,
    {
        let mut k = read_u64_le(data, i * 8);
        k = k.wrapping_mul(MURMUR_M);
        k = k ^ (k >> MURMUR_R);
        k = k.wrapping_mul(MURMUR_M);
        h = h ^ k;
        h = h.wrapping_mul(MURMUR_M);
        i = i + 1;
    }
    let remaining = len & 7;
    assert(remaining == len % 8) by (bit_vector)
        requires
            remaining == len & 7,
    ;
    if remaining > 0 {
        let start = n_blocks * 8;
        let mut k: u64 = 0;
        let mut j: usize = 0;
        while j < remaining
            invariant
                len == data@.len(),
                start == len - remaining,
                remaining < 8,
                j <= remaining,
                k == le_bytes(data@, start as int, j as nat),
            decreases remaining - j,
        {
            k = k | ((data[start + j] as u64) << ((j * 8) as u64));
            j = j + 1;
        }
        h = h ^ k;
        h = h.wrapping_mul(MURMUR_M);
    }
    h = h ^ (h >> MURMUR_R);
    h = h.wrapping_mul(MURMUR_M);
    h = h ^ (h >> MURMUR_R);
    h
}

/// Hash of a word for vocabulary lookup: MurmurHash64A of its UTF-8 bytes with seed 0.
pub fn hash_for_vocab(s: &str) -> (h: u64)
    ensures
        h == spec_murmur_hash_64a(s.spec_bytes(), 0),
{
    murmur_hash_64a(s.as_bytes(), 0)
}

} // verus!
