use kenlmrs::error::LMError;
use kenlmrs::trie_build::{build_trie_layout, sort_suffix_order, suffix_less_exec, Weighted};

fn gram(ids: &[u32], prob: u32, backoff: u32) -> Weighted {
    (ids.to_vec(), prob, backoff)
}

fn sample_unigrams() -> Vec<(u32, u32)> {
    vec![
        (0x3f00_0000, 0x8000_0000),
        (1, 0x8000_0000),
        (2, 5),
        (3, 0x8000_0000),
    ]
}

fn sample_ngrams() -> Vec<Vec<Weighted>> {
    vec![
        vec![gram(&[1, 2], 10, 11), gram(&[0, 2], 20, 21), gram(&[3, 1], 30, 31)],
        vec![gram(&[3, 1, 2], 40, 41)],
    ]
}

#[test]
fn suffix_order_compares_last_word_first() {
    assert!(suffix_less_exec(&[3, 1], &[0, 2]));
    assert!(!suffix_less_exec(&[0, 2], &[3, 1]));
    assert!(suffix_less_exec(&[0, 2], &[1, 2]));
    assert!(suffix_less_exec(&[2], &[1, 2]));
    assert!(!suffix_less_exec(&[1, 2], &[1, 2]));
}

#[test]
fn sorting_orders_by_reversed_words_and_keeps_weights() {
    let v = vec![gram(&[1, 2], 10, 11), gram(&[0, 2], 20, 21), gram(&[3, 1], 30, 31)];
    let s = sort_suffix_order(&v);
    assert_eq!(s, vec![gram(&[3, 1], 30, 31), gram(&[0, 2], 20, 21), gram(&[1, 2], 10, 11)]);
}

#[test]
fn layout_sorts_each_order_and_links_it() {
    let t = build_trie_layout(&vec![4, 3, 1], &sample_unigrams(), &sample_ngrams()).unwrap();
    assert_eq!(
        t.orders,
        vec![
            vec![gram(&[3, 1], 30, 31), gram(&[0, 2], 20, 21), gram(&[1, 2], 10, 11)],
            vec![gram(&[3, 1, 2], 40, 41)],
        ]
    );
    // Only the bigram [1, 2] is the context of the trigram, so its successors start at 0 and
    // every later bigram's at 1.
    assert_eq!(t.nexts, vec![vec![0, 0, 0, 1]]);
}

#[test]
fn layout_unigram_records_point_at_their_bigrams() {
    let t = build_trie_layout(&vec![4, 3, 1], &sample_unigrams(), &sample_ngrams()).unwrap();
    let nexts: Vec<u64> = t.unigrams.iter().map(|u| u.next).collect();
    assert_eq!(nexts, vec![0, 0, 1, 3, 3, 3]);
    let probs: Vec<u32> = t.unigrams.iter().map(|u| u.prob).collect();
    assert_eq!(probs, vec![0xbf00_0000, 0x8000_0001, 0x8000_0002, 0x8000_0003, 0, 0]);
    // Bigrams end in words 1 and 2: a -0.0 backoff there becomes +0.0.
    let backoffs: Vec<u32> = t.unigrams.iter().map(|u| u.backoff).collect();
    assert_eq!(backoffs, vec![0x8000_0000, 0, 5, 0x8000_0000, 0, 0]);
}

#[test]
fn layout_of_unigrams_only() {
    let t = build_trie_layout(&vec![2], &vec![(7, 8), (9, 0x8000_0000)], &vec![]).unwrap();
    assert!(t.orders.is_empty());
    assert!(t.nexts.is_empty());
    assert_eq!(t.unigrams.len(), 4);
    assert!(t.unigrams.iter().all(|u| u.next == 0));
    assert_eq!(t.unigrams[1].backoff, 0x8000_0000);
}

#[test]
fn layout_rejects_lists_that_do_not_match_the_counts() {
    let u = sample_unigrams();
    let bad = |r: Result<_, LMError>| matches!(r, Err(LMError::FormatError(_)));
    assert!(bad(build_trie_layout(&vec![], &u, &vec![])));
    assert!(bad(build_trie_layout(&vec![5, 3, 1], &u, &sample_ngrams())));
    assert!(bad(build_trie_layout(&vec![4, 2, 1], &u, &sample_ngrams())));
    assert!(bad(build_trie_layout(&vec![4, 3], &u, &sample_ngrams())));
    let mut wide = sample_ngrams();
    wide[0][1] = gram(&[0, 4], 20, 21);
    assert!(bad(build_trie_layout(&vec![4, 3, 1], &u, &wide)));
    let mut short = sample_ngrams();
    short[1][0] = gram(&[1, 2], 40, 41);
    assert!(bad(build_trie_layout(&vec![4, 3, 1], &u, &short)));
}
