use kenlmrs::model::{has_extension, is_independent_left, mark_extends_left, mark_independent, scoring_prob, set_extension};
use kenlmrs::search::{
    compute_hash_key, combine_word_hash, BackoffValue, HashedLongestPointer, HashedSearch, HashedUnigramPointer,
    ProbBackoffBits,
};

fn bits(x: f32) -> u32 {
    x.to_bits()
}

fn float(b: u32) -> f32 {
    f32::from_bits(b)
}

#[test]
fn test_has_extension_zero() {
    assert!(has_extension(bits(0.0_f32)));
    assert!(!has_extension(bits(-0.0_f32)));
}

#[test]
fn test_has_extension_near_zero() {
    assert!(has_extension(bits(1e-9_f32)));
    assert!(has_extension(bits(-1e-9_f32)));
}

#[test]
fn test_has_extension_nonzero() {
    assert!(has_extension(bits(1.0_f32)));
    assert!(has_extension(bits(-0.5_f32)));
    assert!(has_extension(bits(0.1_f32)));
}

#[test]
fn has_extension_should_distinguish_positive_zero_from_negative_zero() {
    assert!(has_extension(bits(0.0_f32)));
    assert!(!has_extension(bits(-0.0_f32)));
}

#[test]
fn has_extension_should_return_true_for_nonzero_backoff() {
    assert!(has_extension(bits(-0.3_f32)));
    assert!(has_extension(bits(0.5_f32)));
}

#[test]
fn set_extension_should_convert_negative_zero_to_positive_zero() {
    let mut b = bits(-0.0_f32);
    set_extension(&mut b);
    assert_eq!(b, 0x00000000);
}

#[test]
fn set_extension_should_leave_nonzero_backoff_unchanged() {
    let mut b = bits(-0.3_f32);
    let original = b;
    set_extension(&mut b);
    assert_eq!(b, original);
}

#[test]
fn mark_independent_should_set_sign_bit() {
    let p = mark_independent(bits(-1.5_f32));
    assert!(p & 0x80000000 != 0);
    assert!(is_independent_left(p));
}

#[test]
fn mark_extends_left_should_clear_sign_bit() {
    let p = mark_extends_left(bits(-1.5_f32));
    assert!(p & 0x80000000 == 0);
    assert!(!is_independent_left(p));
}

#[test]
fn scoring_prob_should_always_return_negative_float() {
    let stored = mark_extends_left(bits(-1.5_f32));
    assert!(float(stored) > 0.0);
    let scored = float(scoring_prob(stored));
    assert!(scored < 0.0);
    assert!((scored - (-1.5_f32)).abs() < 1e-6);
}

#[test]
fn sign_bit_marks_exact_values() {
    assert_eq!(mark_independent(0x3fc0_0000), 0xbfc0_0000);
    assert_eq!(mark_extends_left(0xbfc0_0000), 0x3fc0_0000);
    assert_eq!(scoring_prob(0x3fc0_0000), 0xbfc0_0000);
}

#[test]
fn test_hashed_search_default_order() {
    let s: HashedSearch<BackoffValue> = HashedSearch::default();
    assert_eq!(s.order(), 2);
}

#[test]
fn test_hashed_search_size_calculation() {
    let counts = vec![100u64, 500u64, 50u64];
    let size = HashedSearch::<BackoffValue>::size(&counts);
    assert!(size > 0);
    assert_eq!(size, 3072);
}

#[test]
fn test_hashed_search_setup_memory_updates_order() {
    let mut s: HashedSearch<BackoffValue> = HashedSearch::default();
    let counts = vec![5u64, 10u64, 3u64];
    s.setup_memory(&counts);
    assert_eq!(s.order(), 3);
}

#[test]
fn test_hashed_search_unknown_unigram() {
    let mut s: HashedSearch<BackoffValue> = HashedSearch::default();
    let unk = s.unknown_unigram();
    assert_eq!(float(unk.prob), 0.0);
    assert_eq!(float(unk.backoff), 0.0);
}

#[test]
fn unknown_unigram_can_be_set() {
    let mut s: HashedSearch<BackoffValue> = HashedSearch::default();
    *s.unknown_unigram() = ProbBackoffBits { prob: bits(-100.0), backoff: 0 };
    let (mut node, mut independent, mut extend) = (0u64, false, 0u64);
    let ptr = s.lookup_unigram(7, &mut node, &mut independent, &mut extend);
    assert!(!ptr.found());
    assert_eq!(float(ptr.prob()), -100.0);
}

#[test]
fn test_hashed_search_lookup_unigram_not_found_when_empty() {
    let s: HashedSearch<BackoffValue> = HashedSearch::default();
    let mut node = 0u64;
    let mut independent_left = false;
    let mut extend_left = 0u64;
    let ptr = s.lookup_unigram(999, &mut node, &mut independent_left, &mut extend_left);
    assert!(!ptr.found());
    assert_eq!(node, 999);
    assert_eq!(extend_left, 999);
}

#[test]
fn test_hashed_search_fast_make_node_empty_returns_false() {
    let s: HashedSearch<BackoffValue> = HashedSearch::default();
    let mut node = 0u64;
    assert!(!s.fast_make_node(&[], &mut node));
}

#[test]
fn test_hashed_search_fast_make_node_single_word() {
    let s: HashedSearch<BackoffValue> = HashedSearch::default();
    let mut node = 0u64;
    assert!(s.fast_make_node(&[42], &mut node));
    assert_eq!(node, 42);
}

#[test]
fn test_hashed_search_unpack_length1() {
    let s: HashedSearch<BackoffValue> = HashedSearch::default();
    let mut node = 0u64;
    let ptr = s.unpack(0, 1, &mut node);
    assert!(!ptr.found());
}

#[test]
fn test_hashed_unigram_pointer_fields() {
    let ptr: HashedUnigramPointer<BackoffValue> = HashedUnigramPointer::new(bits(-1.5), bits(-0.3), true);
    assert!(ptr.found());
    assert!((float(ptr.prob()) - (-1.5)).abs() < 1e-6);
    assert!((float(ptr.backoff()) - (-0.3)).abs() < 1e-6);
    assert!(ptr.independent_left());
}

#[test]
fn test_hashed_longest_pointer_found_not_found() {
    let found = HashedLongestPointer::new_found(bits(-2.0));
    let not_found = HashedLongestPointer::new(bits(-2.0));
    assert!(found.found());
    assert!(!not_found.found());
    assert!((float(found.prob()) - (-2.0)).abs() < 1e-6);
}

#[test]
fn independent_left_should_be_true_for_negative_stored_prob() {
    let ptr: HashedUnigramPointer<BackoffValue> = HashedUnigramPointer::new(bits(-1.5_f32), bits(-0.0_f32), true);
    assert!(ptr.independent_left());
}

#[test]
fn independent_left_should_be_false_after_sign_bit_cleared() {
    let cleared = mark_extends_left(bits(-1.5_f32));
    let ptr: HashedUnigramPointer<BackoffValue> = HashedUnigramPointer::new(cleared, bits(-0.0_f32), true);
    assert!(!ptr.independent_left());
}

#[test]
fn prob_should_always_return_negative_for_scoring() {
    let cleared = mark_extends_left(bits(-1.5_f32));
    let ptr: HashedUnigramPointer<BackoffValue> = HashedUnigramPointer::new(cleared, bits(0.0_f32), true);
    assert!(float(ptr.prob()) < 0.0, "scoring prob must be negative");
    assert!((float(ptr.prob()) - (-1.5_f32)).abs() < 1e-6);
}

/// A trigram model with `<unk>`=0, `<s>`=1, `</s>`=2, `a`=3, `b`=4; n-grams as the loader
/// stores them, newest word first.
fn trigram_search() -> HashedSearch<BackoffValue> {
    let mut s: HashedSearch<BackoffValue> = HashedSearch::new();
    s.prepare_unigrams(5);
    for (w, p, b) in [(0u32, -99.0f32, -0.0f32), (1, -99.0, -0.5), (2, -1.0, -0.0), (3, -0.7, -0.2), (4, -0.9, -0.0)] {
        s.insert_unigram(w, bits(p), bits(b));
    }
    s.prepare_orders(3);
    // bigram "<s> a": newest word a=3, context <s>=1
    s.insert_ngram(&[3, 1], 3, bits(-0.3), bits(-0.1));
    // trigram "<s> a b": newest b=4, then a=3, then <s>=1
    s.insert_ngram(&[4, 3, 1], 3, bits(-0.2), 0);
    s
}

#[test]
fn unigram_read_after_write() {
    let s = trigram_search();
    let (mut node, mut independent, mut extend) = (0u64, false, 0u64);
    let ptr = s.lookup_unigram(3, &mut node, &mut independent, &mut extend);
    assert!(ptr.found());
    assert_eq!(float(ptr.prob()), -0.7);
    assert_eq!(float(ptr.backoff()), -0.2);
    // "a" is the newest word of the bigram "<s> a": extended to the left.
    assert!(!independent);
    // "<s>" is the context of that bigram: its backoff -0.5 stays, as it is no -0.0.
    let ptr = s.lookup_unigram(1, &mut node, &mut independent, &mut extend);
    assert_eq!(float(ptr.backoff()), -0.5);
    // "</s>" is no one's context: its -0.0 backoff stays.
    let ptr = s.lookup_unigram(2, &mut node, &mut independent, &mut extend);
    assert_eq!(ptr.backoff(), bits(-0.0));
    assert!(independent);
}

#[test]
fn middle_and_longest_read_after_write() {
    let s = trigram_search();
    let (mut node, mut independent, mut extend) = (0u64, false, 0u64);
    s.lookup_unigram(3, &mut node, &mut independent, &mut extend);
    let mid = s.lookup_middle(0, 1, &mut node, &mut independent, &mut extend);
    assert!(mid.found());
    assert_eq!(node, combine_word_hash(3, 1));
    assert_eq!(node, compute_hash_key(&[3, 1]));
    assert_eq!(float(mid.prob()), -0.3);
    // the trigram "<s> a b" does not extend "<s> a" to the left: it stays independent.
    assert!(independent);

    // the trigram: start from b=4, extend by a=3, then look up <s>=1 among the longest.
    let mut node = 0u64;
    s.lookup_unigram(4, &mut node, &mut independent, &mut extend);
    let mid = s.lookup_middle(0, 3, &mut node, &mut independent, &mut extend);
    // "a b" was missing: a blank entry, -0.0 marked as extended, stands for it.
    assert!(mid.found());
    assert_eq!(mid.backoff(), bits(-0.0));
    assert!(!independent);
    let longest = s.lookup_longest(1, &node);
    assert!(longest.found());
    assert_eq!(float(longest.prob), -0.2);
    assert!(!s.lookup_longest(2, &node).found());
}

#[test]
fn unpack_goes_back_to_recorded_entries() {
    let s = trigram_search();
    let mut node = 0u64;
    let ptr = s.unpack(3, 1, &mut node);
    assert!(ptr.found());
    assert_eq!(node, 3);
    assert_eq!(float(ptr.prob()), -0.7);
    let key = compute_hash_key(&[3, 1]);
    let ptr = s.unpack(key, 2, &mut node);
    assert!(ptr.found());
    assert_eq!(node, key);
    assert_eq!(float(ptr.prob()), -0.3);
    assert!(!s.unpack(12345, 2, &mut node).found());
}

#[test]
fn context_backoff_is_activated() {
    let mut s: HashedSearch<BackoffValue> = HashedSearch::new();
    s.prepare_unigrams(3);
    s.insert_unigram(1, bits(-1.0), bits(-0.0));
    s.insert_unigram(2, bits(-1.0), bits(-0.0));
    s.prepare_orders(2);
    // bigram with newest word 2 and context 1: the backoff of 1 goes from -0.0 to +0.0.
    s.insert_ngram(&[2, 1], 2, bits(-0.5), 0);
    let (mut node, mut independent, mut extend) = (0u64, false, 0u64);
    let ptr = s.lookup_unigram(1, &mut node, &mut independent, &mut extend);
    assert_eq!(ptr.backoff(), 0);
    assert!(has_extension(ptr.backoff()));
    let ptr = s.lookup_unigram(2, &mut node, &mut independent, &mut extend);
    assert_eq!(ptr.backoff(), bits(-0.0));
    assert!(!independent);
    assert_eq!(s.order(), 2);
}

#[test]
fn prepare_tables_sizes() {
    let mut s: HashedSearch<BackoffValue> = HashedSearch::new();
    s.prepare_unigrams(4);
    let (mut node, mut independent, mut extend) = (0u64, false, 0u64);
    assert!(s.lookup_unigram(5, &mut node, &mut independent, &mut extend).found());
    assert!(!s.lookup_unigram(6, &mut node, &mut independent, &mut extend).found());
    s.prepare_orders(5);
    assert_eq!(s.order(), 5);
}
