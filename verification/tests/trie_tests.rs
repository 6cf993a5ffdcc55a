use kenlmrs::bit_packing::required_bits;
use kenlmrs::quantize::QuantConfig;
use kenlmrs::trie::{context_less, next_starts, word_starts, BitPacked, BitPackedLongest, BitPackedMiddle, Longest, Middle, NodeRange};

#[test]
fn test_bit_packed_base_size() {
    let size = BitPacked::base_size(100, 1000, 8);
    assert!(size > 0, "Size should be positive");
    let size_large = BitPacked::base_size(10000, 50000, 8);
    assert!(size_large > size, "Larger vocab should need more space");
    let size_more_bits = BitPacked::base_size(100, 1000, 16);
    assert!(size_more_bits > size, "More bits should need more space");
}

#[test]
fn bit_packed_base_size_exact() {
    // 1000 needs 10 bits; (100 + 1) * 18 = 1818 bits = 227.25 bytes -> 228, plus 8.
    assert_eq!(BitPacked::base_size(100, 1000, 8), 236);
    assert_eq!(BitPacked::base_size(0, 0, 8), 9);
}

#[test]
fn test_bit_packed_base_init() {
    let mut bit_packed = BitPacked::new();
    let buffer = vec![0u8; 1000];
    bit_packed.base_init(buffer, 50000, 8);
    assert_eq!(bit_packed.word_bits, required_bits(50000));
    assert_eq!(bit_packed.total_bits, bit_packed.word_bits + 8);
    assert!(bit_packed.word_mask > 0);
    assert_eq!(bit_packed.insert_index, 0);
}

#[test]
fn test_bit_packed_longest_insert_find() {
    let mut longest = BitPackedLongest::new();
    let buffer_size = BitPackedLongest::size(8, 100, 1000) as usize;
    let buffer = vec![0u8; buffer_size];
    longest.init(buffer, 8, 1000);
    let addr1 = longest.insert(100);
    let addr2 = longest.insert(200);
    let addr3 = longest.insert(300);
    let addr4 = longest.insert(500);
    assert!(!addr1.base.is_empty(), "Insert should return valid address");
    assert!(!addr2.base.is_empty(), "Insert should return valid address");
    assert!(!addr3.base.is_empty(), "Insert should return valid address");
    assert!(!addr4.base.is_empty(), "Insert should return valid address");
    let range = NodeRange { begin: 0, end: 4 };
    let found1 = longest.find(100, &range);
    assert!(!found1.base.is_empty(), "Should find word 100");
    let found2 = longest.find(200, &range);
    assert!(!found2.base.is_empty(), "Should find word 200");
    let found3 = longest.find(300, &range);
    assert!(!found3.base.is_empty(), "Should find word 300");
    let found4 = longest.find(500, &range);
    assert!(!found4.base.is_empty(), "Should find word 500");
    let not_found = longest.find(150, &range);
    assert!(not_found.base.is_empty(), "Should not find word 150");
}

#[test]
fn test_bit_packed_longest_empty_range() {
    let mut longest = BitPackedLongest::new();
    let buffer_size = BitPackedLongest::size(8, 10, 100) as usize;
    let buffer = vec![0u8; buffer_size];
    longest.init(buffer, 8, 100);
    longest.insert(50);
    let empty_range = NodeRange { begin: 0, end: 0 };
    let not_found = longest.find(50, &empty_range);
    assert!(not_found.base.is_empty(), "Should not find in empty range");
}

#[test]
fn test_bit_packed_longest_large_vocab() {
    let mut longest = BitPackedLongest::new();
    let max_vocab = 100_000;
    let buffer_size = BitPackedLongest::size(8, 1000, max_vocab) as usize;
    let buffer = vec![0u8; buffer_size];
    longest.init(buffer, 8, max_vocab);
    longest.insert(10_000);
    longest.insert(50_000);
    longest.insert(99_999);
    let range = NodeRange { begin: 0, end: 3 };
    let found = longest.find(50_000, &range);
    assert!(!found.base.is_empty(), "Should find word with large index");
}

#[test]
fn test_bit_packed_longest_binary_search_correctness() {
    let mut longest = BitPackedLongest::new();
    let buffer_size = BitPackedLongest::size(8, 100, 1000) as usize;
    let buffer = vec![0u8; buffer_size];
    longest.init(buffer, 8, 1000);
    for i in 0..50 {
        longest.insert(i * 10);
    }
    let range = NodeRange { begin: 0, end: 50 };
    for i in 0..50 {
        let word = i * 10;
        let found = longest.find(word, &range);
        assert!(!found.base.is_empty(), "Should find word {}", word);
    }
    for i in 0..50 {
        let word = i * 10 + 5;
        let not_found = longest.find(word, &range);
        assert!(not_found.base.is_empty(), "Should not find word {}", word);
    }
}

#[test]
fn test_longest_size_calculation() {
    let size1 = Longest::size(8, 1000, 10000);
    assert!(size1 > 0, "Size should be positive");
    let size2 = Longest::size(8, 5000, 10000);
    assert!(size2 > size1, "More entries should need more space");
    let size3 = Longest::size(16, 1000, 10000);
    assert!(size3 > size1, "More quant bits should need more space");
}

#[test]
fn longest_insert_returns_probability_offset() {
    let mut l = Longest::init_storage(8, 10, 1000);
    assert_eq!(l.insert_index(), 0);
    let a0 = l.insert(3);
    let a1 = l.insert(7);
    // 1000 needs 10 bits, entries are 18 bits wide
    assert_eq!(a0.offset, 10);
    assert_eq!(a1.offset, 28);
    assert_eq!(l.insert_index(), 2);
    let found = l.find(7, &NodeRange { begin: 0, end: 2 });
    assert_eq!(found.offset, 28);
    assert!(l.find(5, &NodeRange { begin: 0, end: 2 }).base.is_empty());
}

#[test]
fn context_less_reads_last_word_first() {
    // context of [9, 1, 2] is [1, 2], read as [2, 1]; key [3, 1] read as [1, 3]
    assert!(!context_less(&[9, 1, 2], &[3, 1]));
    assert!(context_less(&[9, 3, 1], &[1, 2]));
    assert!(!context_less(&[9, 1, 2], &[1, 2]));
    assert!(context_less(&[9, 2], &[2, 2]));
}

#[test]
fn next_starts_find_context_ranges() {
    // bigrams in suffix order (sorted by [w1, w0]) and trigrams whose context is a bigram
    let cur: Vec<Vec<u32>> = vec![vec![1, 2], vec![3, 2], vec![1, 4]];
    let next: Vec<Vec<u32>> = vec![vec![5, 1, 2], vec![6, 1, 2], vec![5, 3, 2], vec![7, 1, 4]];
    assert_eq!(next_starts(&cur, &next), vec![0, 2, 3, 4]);
    assert_eq!(next_starts(&Vec::new(), &next), vec![4]);
}

#[test]
fn word_starts_group_bigrams_by_word() {
    let words: Vec<u32> = vec![0, 0, 2, 2, 2, 3];
    assert_eq!(word_starts(&words, 5), vec![0, 2, 2, 5, 6]);
    assert_eq!(word_starts(&Vec::new(), 3), vec![0, 0, 0]);
}

#[test]
fn test_bit_packed_middle_insert_find() {
    let max_vocab = 1000;
    let max_next = 5000;
    let entries = 100;

    let buffer_size = BitPackedMiddle::size(8, entries, max_vocab, max_next) as usize;
    let buffer = vec![0u8; buffer_size];

    let mut middle = BitPackedMiddle::new(buffer, 8, entries, max_vocab, max_next);

    let addr1 = middle.insert(100);
    middle.write_next(0, 0);

    let addr2 = middle.insert(200);
    middle.write_next(1, 10);

    let addr3 = middle.insert(300);
    middle.write_next(2, 20);

    middle.finished_loading(30);

    assert!(!addr1.base.is_empty(), "Insert should return valid address");
    assert!(!addr2.base.is_empty(), "Insert should return valid address");
    assert!(!addr3.base.is_empty(), "Insert should return valid address");

    let mut range = NodeRange { begin: 0, end: 3 };
    let mut pointer = 0;

    let found = middle.find(200, &mut range, &mut pointer);
    assert!(!found.base.is_empty(), "Should find word 200");
    assert_eq!(pointer, 1, "Should return correct pointer");
    assert_eq!(range.begin, 10, "Should update range begin");
    assert_eq!(range.end, 20, "Should update range end");
}

#[test]
fn test_bit_packed_middle_read_entry() {
    let max_vocab = 1000;
    let max_next = 5000;

    let buffer_size = BitPackedMiddle::size(8, 10, max_vocab, max_next) as usize;
    let buffer = vec![0u8; buffer_size];

    let mut middle = BitPackedMiddle::new(buffer, 8, 10, max_vocab, max_next);

    middle.insert(100);
    middle.write_next(0, 100);

    middle.insert(200);
    middle.write_next(1, 150);

    middle.finished_loading(200);

    let mut range = NodeRange { begin: 0, end: 0 };
    let addr = middle.read_entry(1, &mut range);

    assert!(!addr.base.is_empty(), "Should return valid address");
    assert_eq!(range.begin, 150, "Should read correct next begin");
    assert_eq!(range.end, 200, "Should read correct next end");
}

#[test]
fn test_bit_packed_middle_not_found() {
    let max_vocab = 1000;
    let max_next = 5000;

    let buffer_size = BitPackedMiddle::size(8, 10, max_vocab, max_next) as usize;
    let buffer = vec![0u8; buffer_size];

    let mut middle = BitPackedMiddle::new(buffer, 8, 10, max_vocab, max_next);

    middle.insert(100);
    middle.write_next(0, 0);
    middle.insert(300);
    middle.write_next(1, 10);
    middle.finished_loading(20);

    let mut range = NodeRange { begin: 0, end: 2 };
    let mut pointer = 0;

    let not_found = middle.find(200, &mut range, &mut pointer);
    assert!(not_found.base.is_empty(), "Should not find word 200");
}

#[test]
fn test_middle_size_calculation() {
    let qc = QuantConfig::default();
    let size1 = Middle::size(8, 1000, 10000, 2000, &qc);
    assert!(size1 > 0, "Size should be positive");

    let size2 = Middle::size(8, 5000, 10000, 10000, &qc);
    assert!(size2 > size1, "More entries should need more space");

    let size3 = Middle::size(16, 1000, 10000, 2000, &qc);
    assert!(size3 > size1, "More quant bits should need more space");
}

#[test]
fn middle_layer_round_trip() {
    let mut m = Middle::new(0, 4, 50, 40);
    for (i, w) in [3u32, 7, 9].iter().enumerate() {
        m.insert(*w);
        m.write_next(i as u64, (i as u64) * 10);
    }
    m.finished_loading(35);
    assert_eq!(m.insert_index(), 3);
    let mut node = NodeRange { begin: 0, end: 3 };
    let mut at = 99;
    let found = m.find(9, &mut node, &mut at);
    assert!(!found.base.is_empty());
    assert_eq!((at, node.begin, node.end), (2, 20, 35));
    let mut node = NodeRange { begin: 0, end: 3 };
    let mut at = 99;
    assert!(m.find(8, &mut node, &mut at).base.is_empty());
    assert_eq!((at, node.begin, node.end), (99, 0, 3));
}
