use kenlmrs::constant::KENLM_MAX_ORDER;
use kenlmrs::types::{Left, ModelType};
use std::cmp::Ordering;

#[test]
fn test_model_type_values() {
    assert_eq!(ModelType::Probing as u8, 0);
    assert_eq!(ModelType::Trie as u8, 2);
    assert_eq!(ModelType::QuantArrayTrie as u8, 5);
}

#[test]
fn model_type_offsets_match_variant_positions() {
    assert_eq!(ModelType::Trie as u8 + ModelType::K_QUANT_ADD, ModelType::QuantTrie as u8);
    assert_eq!(ModelType::Trie as u8 + ModelType::K_ARRAY_ADD, ModelType::ArrayTrie as u8);
    assert_eq!(ModelType::HASH_PROBING, ModelType::Probing);
    assert_eq!(ModelType::QUANT_ARRAY_TRIE_SORTED, ModelType::QuantArrayTrie);
}

#[test]
fn left_should_default_to_zero_length() {
    let l = Left::default();
    assert_eq!(l.length, 0);
    assert!(!l.full);
    assert_eq!(l.pointers, [0u64; KENLM_MAX_ORDER - 1]);
}

#[test]
fn left_compare_should_order_by_length_first() {
    let mut shorter = Left::new();
    shorter.length = 1;
    shorter.pointers[0] = 999;

    let mut longer = Left::new();
    longer.length = 2;
    longer.pointers[0] = 1;
    longer.pointers[1] = 2;

    assert_eq!(shorter.compare(&longer), Ordering::Less);
    assert_eq!(longer.compare(&shorter), Ordering::Greater);
}

#[test]
fn left_compare_should_use_last_pointer_when_same_length() {
    let mut a = Left::new();
    a.length = 1;
    a.pointers[0] = 10;

    let mut b = Left::new();
    b.length = 1;
    b.pointers[0] = 20;

    assert_eq!(a.compare(&b), Ordering::Less);
}

#[test]
fn left_compare_should_use_full_flag_as_tiebreaker() {
    let mut a = Left::new();
    a.length = 1;
    a.pointers[0] = 5;
    a.full = false;

    let mut b = Left::new();
    b.length = 1;
    b.pointers[0] = 5;
    b.full = true;

    assert_eq!(a.compare(&b), Ordering::Less); // false < true
}

#[test]
fn left_zero_remaining_should_clear_slots_beyond_length() {
    let mut l = Left::new();
    l.length = 1;
    l.pointers[0] = 42;
    l.pointers[1] = 99; // should be cleared
    l.zero_remaining();
    assert_eq!(l.pointers[0], 42); // kept
    assert_eq!(l.pointers[1], 0); // cleared
}

#[test]
fn left_hash_value_should_be_deterministic() {
    let mut l = Left::new();
    l.length = 1;
    l.pointers[0] = 12345;
    assert_eq!(l.hash_value(), l.hash_value());
}

#[test]
fn left_compare_of_equal_and_empty_states() {
    let a = Left::new();
    let b = Left::new();
    assert_eq!(a.compare(&b), Ordering::Equal);
    let mut c = Left::new();
    c.length = 2;
    c.pointers[1] = 7;
    let mut d = c.clone();
    d.pointers[0] = 100;
    assert_eq!(c.compare(&d), Ordering::Equal);
}

#[test]
fn left_hash_value_depends_on_last_pointer_and_full() {
    let mut a = Left::new();
    a.length = 1;
    a.pointers[0] = 1;
    let mut b = a.clone();
    b.pointers[0] = 2;
    assert_ne!(a.hash_value(), b.hash_value());
    let mut c = a.clone();
    c.full = true;
    assert_ne!(a.hash_value(), c.hash_value());
}
