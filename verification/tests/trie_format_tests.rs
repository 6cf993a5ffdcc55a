use kenlmrs::error::LMError;
use kenlmrs::trie_format::{read_trie_binary, write_trie_binary, LayerImage, TrieImage, UnigramRecord};

fn layer(q: u8, nb: u8, mv: u64, ii: u64, base: Vec<u8>) -> LayerImage {
    LayerImage { quant_bits: q, next_bits: nb, max_vocab: mv, insert_index: ii, base }
}

fn sample() -> TrieImage {
    TrieImage {
        unigrams: vec![
            UnigramRecord { prob: (-1.5f32).to_bits(), backoff: (-0.0f32).to_bits(), next: 0 },
            UnigramRecord { prob: (-0.5f32).to_bits(), backoff: 0, next: 2 },
        ],
        middles: vec![layer(0, 3, 7, 2, vec![1, 2, 3, 4, 5])],
        longest: layer(0, 9, 7, 1, vec![0xff, 0x10]),
    }
}

#[test]
fn trie_binary_round_trip() {
    let t = sample();
    let mut bytes = write_trie_binary(&t);
    let len = bytes.len();
    assert_eq!(len, 1 + 4 + 2 * 16 + (2 + 24 + 5) + (1 + 24 + 2));
    bytes.extend_from_slice(&[42, 43]);
    let (back, n) = read_trie_binary(&bytes).unwrap();
    assert_eq!(n, len);
    assert_eq!(back.unigrams, t.unigrams);
    assert_eq!(back.middles.len(), 1);
    assert_eq!(back.middles[0].next_bits, 3);
    assert_eq!(back.middles[0].max_vocab, 7);
    assert_eq!(back.middles[0].insert_index, 2);
    assert_eq!(back.middles[0].base, vec![1, 2, 3, 4, 5]);
    assert_eq!(back.longest.base, vec![0xff, 0x10]);
    assert_eq!(back.longest.insert_index, 1);
    // the highest layer keeps no next-pointer bits
    assert_eq!(back.longest.next_bits, 0);
}

#[test]
fn trie_binary_layout() {
    let bytes = write_trie_binary(&sample());
    assert_eq!(bytes[0], 1);
    assert_eq!(&bytes[1..5], &[2, 0, 0, 0]);
    assert_eq!(&bytes[5..9], &(-1.5f32).to_bits().to_le_bytes());
    assert_eq!(&bytes[13..21], &0u64.to_le_bytes());
}

#[test]
fn trie_binary_truncated_is_end_of_file() {
    let bytes = write_trie_binary(&sample());
    for cut in [0, 4, 20, bytes.len() - 1] {
        assert!(matches!(read_trie_binary(&bytes[..cut]), Err(LMError::EndOfFile)));
    }
}
