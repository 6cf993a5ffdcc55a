use kenlmrs::common::ngram::{NGram, NGramIterator, OwnedNGram};

#[test]
fn test_ngram_creation() {
    let words = vec![1, 2, 3];
    let payload = 0.5f32;
    let ngram = NGram::new(&words, &payload);
    assert_eq!(ngram.order(), 3);
    assert_eq!(ngram.begin(), 1);
    assert_eq!(ngram.last(), 3);
    assert_eq!(*ngram.value(), 0.5);
}

#[test]
fn test_ngram_mutable_payload() {
    let words = vec![1u32, 2];
    #[allow(unused_assignments)]
    let mut payload = 1.0f32;
    payload = 2.0;
    let ngram = NGram::new(&words, &payload);
    assert_eq!(ngram.order(), 2);
    assert_eq!(*ngram.value(), 2.0);
}

#[test]
fn test_size_calculations() {
    let size = NGram::<f32>::total_size(3);
    let order = NGram::<f32>::order_from_size(size);
    assert_eq!(order, 3);
}

#[test]
fn test_ngram_word_access() {
    let words = vec![10u32, 20, 30, 40];
    let payload = 0.0f64;
    let ng = NGram::new(&words, &payload);
    assert_eq!(ng.word(0), 10);
    assert_eq!(ng.word(3), 40);
    assert_eq!(ng.begin(), 10);
    assert_eq!(ng.last(), 40);
}

#[test]
fn test_ngram_total_size_instance() {
    let words = vec![1u32, 2];
    let payload = 42u64;
    let ng = NGram::new(&words, &payload);
    assert_eq!(ng.total_size_instance(), NGram::<u64>::total_size(2));
}

#[test]
fn test_ngram_order_from_size_roundtrip() {
    for order in 1..=6 {
        let size = NGram::<f32>::total_size(order);
        assert_eq!(NGram::<f32>::order_from_size(size), order);
    }
}

#[test]
fn ngram_total_size_exact() {
    assert_eq!(NGram::<u64>::total_size(3), 3 * 4 + 8);
    assert_eq!(NGram::<u8>::total_size(0), 1);
}

#[test]
fn test_ngram_iterator_count() {
    let entries: Vec<OwnedNGram<f32>> = (0..3)
        .map(|i| OwnedNGram { words: vec![i as u32], payload: i as f32 })
        .collect();
    let iter = NGramIterator::new(entries);
    assert_eq!(iter.len(), 3);
    assert_eq!(iter.count_total(), 3);
}

#[test]
fn test_ngram_iterator_empty_buffer() {
    let iter: NGramIterator<f32> = NGramIterator::new(vec![]);
    assert_eq!(iter.len(), 0);
}

#[test]
fn test_ngram_immutable_access() {
    let words = vec![5u32, 6];
    let payload = 1.0f32;
    let ng = NGram::new(&words, &payload);
    assert_eq!(ng.order(), 2);
    assert_eq!(ng.begin(), 5);
    assert_eq!(*ng.value(), 1.0);
}

#[test]
fn test_ngram_words_slice() {
    let words = vec![100u32, 200, 300];
    let payload = 0u8;
    let ng = NGram::new(&words, &payload);
    assert_eq!(ng.words(), &[100, 200, 300]);
}

#[test]
fn test_ngram_exact_size_iterator() {
    let entries: Vec<OwnedNGram<u8>> = (0..5)
        .map(|i| OwnedNGram { words: vec![i as u32, i as u32 + 1], payload: i as u8 })
        .collect();
    let iter = NGramIterator::new(entries);
    assert_eq!(iter.len(), 5);
}

#[test]
fn test_ngram_iterator_yields_entries() {
    let entries = vec![
        OwnedNGram { words: vec![1u32, 2], payload: 0.5f32 },
        OwnedNGram { words: vec![3u32, 4], payload: 1.0f32 },
    ];
    let mut iter = NGramIterator::new(entries);
    let mut collected: Vec<OwnedNGram<f32>> = Vec::new();
    while let Some(e) = iter.next() {
        collected.push(e);
    }
    assert_eq!(collected.len(), 2);
    assert_eq!(collected[0].words, vec![1, 2]);
    assert!((collected[1].payload - 1.0).abs() < 1e-6);
}

#[test]
fn ngram_iterator_len_shrinks_and_total_stays() {
    let entries = vec![
        OwnedNGram { words: vec![7u32], payload: 1u8 },
        OwnedNGram { words: vec![8u32], payload: 2u8 },
    ];
    let mut iter = NGramIterator::new(entries);
    assert_eq!(iter.next().unwrap().payload, 1);
    assert_eq!(iter.len(), 1);
    assert_eq!(iter.count_total(), 2);
    assert_eq!(iter.next().unwrap().words, vec![8]);
    assert!(iter.next().is_none());
}
