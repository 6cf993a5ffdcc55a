use kenlmrs::builder::count::{count_ngrams_to_chain, simple_hash, NgramCounter, WordIds};
use kenlmrs::stream::chain::Chain;
use kenlmrs::utils::pieces::file::FilePiece;

fn text(content: &str) -> FilePiece {
    FilePiece::from_bytes("corpus.txt".to_string(), content.as_bytes().to_vec())
}

fn fnv(ngram: &[u32]) -> u64 {
    let mut h: u64 = 14695981039346656037;
    for w in ngram {
        for b in w.to_le_bytes() {
            h ^= b as u64;
            h = h.wrapping_mul(1099511628211);
        }
    }
    h
}

fn records(chain: &mut Chain) -> Vec<(u64, u64)> {
    let mut out = Vec::new();
    while let Some(block) = chain.pop() {
        for e in block.as_entries() {
            let h = u64::from_le_bytes(e[0..8].try_into().unwrap());
            let c = u64::from_le_bytes(e[8..16].try_into().unwrap());
            out.push((h, c));
        }
    }
    out
}

#[test]
fn simple_hash_is_fnv_over_le_words() {
    assert_eq!(simple_hash(&[]), 14695981039346656037);
    assert_eq!(simple_hash(&[1, 2]), fnv(&[1, 2]));
    assert_eq!(simple_hash(&[0xdeadbeef]), fnv(&[0xdeadbeef]));
}

#[test]
fn counter_counts_in_first_seen_order() {
    let mut c = NgramCounter::new();
    c.add(&[1, 2]);
    c.add(&[3]);
    c.add(&[1, 2]);
    assert_eq!(c.len(), 2);
    assert_eq!(c.get(0), (&vec![1, 2], 2));
    assert_eq!(c.get(1), (&vec![3], 1));
    let mut s = NgramCounter::new();
    s.add_sentence(&[1, 5, 2], 2);
    assert_eq!(s.len(), 5);
    assert_eq!(s.get(1), (&vec![1, 5], 1));
}

#[test]
fn word_ids_start_after_the_markers() {
    let mut ids = WordIds::new();
    assert_eq!(ids.id_of("a"), 3);
    assert_eq!(ids.id_of("<s>"), 1);
    assert_eq!(ids.id_of("b"), 4);
    assert_eq!(ids.id_of("a"), 3);
    assert_eq!(ids.id_of("</s>"), 2);
}

#[test]
fn count_ngrams_to_chain_writes_hash_and_count_records() {
    let mut fp = text("a b\n\r\na\n");
    let mut chain = Chain::new(64, 16, 8);
    let total = count_ngrams_to_chain(&mut fp, 2, &mut chain);
    assert!(fp.at_end());
    assert_eq!(total, 3);
    let got = records(&mut chain);
    // sentence 1: <s>=1 a=3 b=4 </s>=2 ; sentence 2: <s> a </s>
    let expected = vec![
        (fnv(&[1]), 2),
        (fnv(&[1, 3]), 2),
        (fnv(&[3]), 2),
        (fnv(&[3, 4]), 1),
        (fnv(&[4]), 1),
        (fnv(&[4, 2]), 1),
        (fnv(&[2]), 2),
        (fnv(&[3, 2]), 1),
    ];
    assert_eq!(got, expected);
}

#[test]
fn count_ngrams_to_chain_with_tiny_blocks_writes_nothing() {
    let mut fp = text("x y");
    let mut chain = Chain::new(8, 16, 2);
    assert_eq!(count_ngrams_to_chain(&mut fp, 3, &mut chain), 2);
    assert!(chain.pop().is_none());
}
