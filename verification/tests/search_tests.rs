use kenlmrs::ngram::{BackoffValue as NgramBackoffValue, FastMakeNode, RecognizeBinary, RestValue as NgramRestValue, Value as NgramValue, VocabularyT};
use kenlmrs::quantize::{DontQuantize, DontQuantizeLongestPointer, DontQuantizeMiddlePointer, QuantConfig};
use kenlmrs::bit_packing::BitAddress;
use kenlmrs::search::{build_ngram_keys, combine_word_hash, compute_hash_key, BackoffValue, RestValue, TrieNode, Value};
use kenlmrs::trie::NodeRange;
use kenlmrs::types::ModelType;
use kenlmrs::utils::pieces::string::StringPiece;
use kenlmrs::vocabulary::{ProbingVocabulary, SortedVocabulary, Vocabulary};

#[test]
fn test_combine_word_hash_deterministic() {
    let h1 = combine_word_hash(123, 456);
    let h2 = combine_word_hash(123, 456);
    assert_eq!(h1, h2);
}

#[test]
fn test_combine_word_hash_different_inputs() {
    let h1 = combine_word_hash(1, 2);
    let h2 = combine_word_hash(1, 3);
    let h3 = combine_word_hash(2, 2);
    assert_ne!(h1, h2);
    assert_ne!(h1, h3);
}

#[test]
fn combine_word_hash_exact_values() {
    assert_eq!(combine_word_hash(0, 0), 17894857484156487943u64);
    let expected = 8978948897894561157u64.wrapping_mul(5) ^ 17894857484156487943u64.wrapping_mul(8);
    assert_eq!(combine_word_hash(5, 7), expected);
}

#[test]
fn test_backoff_value_constants() {
    assert_eq!(BackoffValue::K_PROBING_MODEL_TYPE, 0);
    assert!(!BackoffValue::K_DIFFERENT_REST);
}

#[test]
fn test_rest_value_constants() {
    assert_eq!(RestValue::K_PROBING_MODEL_TYPE, 1);
    assert!(RestValue::K_DIFFERENT_REST);
}

#[test]
fn value_trait_reports_the_constants() {
    assert_eq!(<BackoffValue as Value>::k_probing_model_type(), 0);
    assert_eq!(<RestValue as Value>::k_probing_model_type(), 1);
    assert!(<RestValue as Value>::k_different_rest());
    let _node = TrieNode::default();
}

#[test]
fn test_dont_quantize() {
    let _dq = DontQuantize;
    assert_eq!(DontQuantize::MODEL_TYPE_ADD, 0);
    assert_eq!(DontQuantize::middle_bits(&QuantConfig::default()), 63);
}

#[test]
fn dont_quantize_sizes_and_pointers() {
    let config = QuantConfig::default();
    assert_eq!((config.prob_bits, config.backoff_bits), (8, 8));
    assert_eq!(DontQuantize::longest_bits(&config), 31);
    assert_eq!(DontQuantize::size(3, &config), 0);
    let mut dq = DontQuantize::default();
    let mut mem = vec![1u8, 2, 3];
    dq.setup_memory(&mut mem, 3, &config);
    assert_eq!(mem, vec![1, 2, 3]);
    dq.finished_loading(&config);
    let empty = DontQuantizeMiddlePointer::new(&dq, 0, BitAddress::new(Vec::new(), 0));
    assert!(!empty.found());
    let full = DontQuantizeLongestPointer::new(&dq, BitAddress::new(vec![0u8; 8], 3));
    assert!(full.found());
}

#[test]
fn ngram_stubs_answer_no() {
    assert!(!RecognizeBinary("model.bin", &ModelType::Probing));
    assert!(!FastMakeNode(0, 3, &NodeRange { begin: 0, end: 3 }));
    let _r: NgramRestValue = NgramValue::new();
    let _b: NgramBackoffValue = NgramValue::new();
}

#[test]
fn vocabulary_t_looks_up_piece_text() {
    let mut probing: ProbingVocabulary = VocabularyT::new();
    let i = probing.add_word("hello");
    assert_eq!(VocabularyT::index(&mut probing, &StringPiece::from_str("hello")), i);
    assert_eq!(VocabularyT::index(&mut probing, &StringPiece::new()), probing.not_found());
    let mut sorted: SortedVocabulary = VocabularyT::new();
    sorted.add_word("a");
    sorted.add_word("b");
    assert_eq!(VocabularyT::index(&mut sorted, &StringPiece::from_str("b")), 2);
    assert_eq!(VocabularyT::index(&mut sorted, &StringPiece::from_str("<unk>")), 0);
    assert!(sorted.saw_unk());
}

#[test]
fn hash_key_of_ngrams() {
    assert_eq!(compute_hash_key(&[]), 0);
    assert_eq!(compute_hash_key(&[7]), 7);
    let two = combine_word_hash(3, 9);
    assert_eq!(compute_hash_key(&[3, 9]), two);
    assert_eq!(compute_hash_key(&[3, 9, 4]), combine_word_hash(two, 4));
    assert_eq!(compute_hash_key(&[1, 2, 3]), compute_hash_key(&[1, 2, 3]));
    assert_ne!(compute_hash_key(&[1, 2]), compute_hash_key(&[2, 1]));
}

#[test]
fn ngram_keys_are_prefix_keys() {
    let ids = [5u32, 6, 7, 8];
    let keys = build_ngram_keys(&ids);
    assert_eq!(keys.len(), 3);
    for k in 0..3 {
        assert_eq!(keys[k], compute_hash_key(&ids[..k + 2]));
    }
}

#[test]
fn test_hashed_search_compute_hash_key_empty() {
    let key = compute_hash_key(&[]);
    assert_eq!(key, 0);
}

#[test]
fn test_hashed_search_compute_hash_key_deterministic() {
    let k1 = compute_hash_key(&[1, 2, 3]);
    let k2 = compute_hash_key(&[1, 2, 3]);
    assert_eq!(k1, k2);
}
