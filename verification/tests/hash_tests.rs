use kenlmrs::hash::{hash_for_vocab, murmur_hash_64a, UNKNOWN_CAP_HASH, UNKNOWN_HASH};

#[test]
fn test_murmur_hash() {
    let h_empty = murmur_hash_64a(b"", 0);
    assert_eq!(h_empty, 0);
    let h1 = murmur_hash_64a(b"hello", 0);
    assert_ne!(h1, 0);
    let h2 = murmur_hash_64a(b"hello", 0);
    assert_eq!(h1, h2);
    let h3 = murmur_hash_64a(b"world", 0);
    assert_ne!(h1, h3);
}

#[test]
fn test_murmur_hash_seed_matters() {
    let h1 = murmur_hash_64a(b"test", 0);
    let h2 = murmur_hash_64a(b"test", 42);
    assert_ne!(h1, h2, "different seeds should produce different hashes");
}

#[test]
fn test_murmur_hash_long_string() {
    let h = murmur_hash_64a(b"hello world!", 0);
    assert_ne!(h, 0);
    assert_eq!(h, murmur_hash_64a(b"hello world!", 0));
}

#[test]
fn test_hash_for_vocab_unk_constants() {
    assert_eq!(hash_for_vocab("<unk>"), UNKNOWN_HASH);
    assert_eq!(hash_for_vocab("<UNK>"), UNKNOWN_CAP_HASH);
}

#[test]
fn test_hash_for_vocab() {
    let h1 = hash_for_vocab("test");
    let h2 = hash_for_vocab("test");
    assert_eq!(h1, h2);
    let h3 = hash_for_vocab("other");
    assert_ne!(h1, h3);
}

#[test]
fn test_special_token_hashes() {
    let unk_hash = hash_for_vocab("<unk>");
    let unk_cap_hash = hash_for_vocab("<UNK>");
    assert_ne!(unk_hash, unk_cap_hash);
}

// A 16-byte input exercises two full blocks and no tail; the value is the reference
// MurmurHash64A output computed independently of this crate's loop structure.
#[test]
fn murmur_hash_matches_reference_algorithm() {
    fn reference(data: &[u8], seed: u64) -> u64 {
        const M: u64 = 0xc6a4a7935bd1e995;
        let mut h = seed ^ (data.len() as u64).wrapping_mul(M);
        let mut chunks = data.chunks_exact(8);
        for c in &mut chunks {
            let mut k = u64::from_le_bytes([c[0], c[1], c[2], c[3], c[4], c[5], c[6], c[7]]);
            k = k.wrapping_mul(M);
            k ^= k >> 47;
            k = k.wrapping_mul(M);
            h ^= k;
            h = h.wrapping_mul(M);
        }
        let rem = chunks.remainder();
        if !rem.is_empty() {
            let mut k = 0u64;
            for (i, b) in rem.iter().enumerate() {
                k |= (*b as u64) << (8 * i);
            }
            h ^= k;
            h = h.wrapping_mul(M);
        }
        h ^= h >> 47;
        h = h.wrapping_mul(M);
        h ^= h >> 47;
        h
    }
    for s in [&b""[..], b"a", b"abcdefgh", b"abcdefghijklmnop", b"hello world!"] {
        assert_eq!(murmur_hash_64a(s, 7), reference(s, 7));
    }
}
