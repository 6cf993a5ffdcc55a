use kenlmrs::common::ordering::{
    ChainPositions, Comparator, ContextOrder, NGramHeader, PrefixOrder, ProxyStream, SuffixLexicographicLess,
    SuffixOrder,
};

#[test]
fn test_suffix_order_same() {
    let cmp = SuffixOrder { order: 2 };
    let a = [1u32, 2u32];
    let b = [1u32, 2u32];
    assert!(!cmp.compare(&a, &b), "equal arrays: neither is less");
}

#[test]
fn test_suffix_order_less() {
    let cmp = SuffixOrder { order: 2 };
    let a = [1u32, 1u32];
    let b = [1u32, 2u32];
    assert!(cmp.compare(&a, &b), "a has smaller last element");
    assert!(!cmp.compare(&b, &a));
}

#[test]
fn test_context_order_less() {
    let cmp = ContextOrder { order: 2 };
    let a = [1u32, 2u32];
    let b = [1u32, 3u32];
    assert!(cmp.compare(&a, &b));
    assert!(!cmp.compare(&b, &a));
}

#[test]
fn test_context_order_same() {
    let cmp = ContextOrder { order: 2 };
    let a = [5u32, 5u32];
    assert!(!cmp.compare(&a, &a));
}

#[test]
fn test_prefix_order_less() {
    let cmp = PrefixOrder { order: 3 };
    let a = [1u32, 2u32, 3u32];
    let b = [1u32, 2u32, 4u32];
    assert!(cmp.compare(&a, &b));
    assert!(!cmp.compare(&b, &a));
}

#[test]
fn test_prefix_order_same() {
    let cmp = PrefixOrder { order: 2 };
    let a = [3u32, 3u32];
    assert!(!cmp.compare(&a, &a));
}

#[test]
fn test_prefix_order_first_element_dominates() {
    let cmp = PrefixOrder { order: 2 };
    let a = [0u32, 99u32];
    let b = [1u32, 0u32];
    assert!(cmp.compare(&a, &b));
}

#[test]
fn test_suffix_lexicographic_less_shorter_wins() {
    let cmp = SuffixLexicographicLess;
    assert!(cmp.compare([1u32].as_ref(), [1u32, 2u32].as_ref()));
    assert!(!cmp.compare([1u32, 2u32].as_ref(), [1u32].as_ref()));
}

#[test]
fn test_suffix_lexicographic_less_equal() {
    let cmp = SuffixLexicographicLess;
    assert!(!cmp.compare([1u32, 2u32].as_ref(), [1u32, 2u32].as_ref()));
}

#[test]
fn context_order_compares_context_before_predicted_word() {
    // context (word 0) decides before the predicted word (word 2 of order 3 is word index 2)
    let cmp = ContextOrder { order: 3 };
    assert_eq!(cmp.order(), 3);
    // contexts reversed: [w1, w0]; a = [9, 1, 0], b = [1, 2, 0]: w1 1 < 2
    assert!(cmp.compare(&[9, 1, 0], &[1, 2, 0]));
    // same context, predicted word decides
    assert!(cmp.compare(&[1, 2, 3], &[1, 2, 4]));
    assert!(!cmp.compare(&[1, 2, 4], &[1, 2, 3]));
}

#[test]
fn suffix_lexicographic_reads_from_the_back() {
    let cmp = SuffixLexicographicLess;
    assert!(cmp.compare(&[5, 1], &[0, 2]));
    assert!(!cmp.compare(&[0, 2], &[5, 1]));
    assert!(cmp.compare(&[], &[0]));
}

#[test]
fn chain_positions_and_proxy_stream() {
    let a: &[u8] = b"ab";
    let b: &[u8] = b"cde";
    let positions = ChainPositions { positions: vec![a, b] };
    assert_eq!(positions.size(), 2);
    assert_eq!(positions.get(1), b"cde");
    let mut stream = ProxyStream::new(Some(a), NGramHeader::new(None, 3));
    assert!(stream.is_some());
    assert_eq!(stream.begin(), b"ab");
    assert_eq!(stream.get().value, 3);
    assert!(stream.advance());
    let empty: ProxyStream<u8> = ProxyStream::new(None, 0);
    assert!(!empty.is_some());
    assert!(empty.begin().is_empty());
}
