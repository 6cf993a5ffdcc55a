use kenlmrs::constant::{BOS_WORD, EOS_WORD, UNK_WORD};
use kenlmrs::vocabulary::{BaseVocabulary, ProbingVocabulary, SortedVocabulary, Vocabulary};

#[test]
fn test_base_vocab_defaults() {
    let v = BaseVocabulary::new();
    assert_eq!(v.begin_sentence(), BOS_WORD);
    assert_eq!(v.end_sentence(), EOS_WORD);
    assert_eq!(v.not_found(), UNK_WORD);
    assert_eq!(v.bound(), 3);
    assert!(!v.saw_unk());
}

#[test]
fn test_base_vocab_set_special() {
    let mut v = BaseVocabulary::new();
    v.set_special(10, 11, 12);
    assert_eq!(v.begin_sentence(), 10);
    assert_eq!(v.end_sentence(), 11);
    assert_eq!(v.not_found(), 12);
}

#[test]
fn test_base_vocab_saw_unk() {
    let mut v = BaseVocabulary::new();
    assert!(!v.saw_unk());
    v.set_saw_unk(true);
    assert!(v.saw_unk());
    v.set_saw_unk(false);
    assert!(!v.saw_unk());
}

#[test]
fn test_base_vocab_with_special() {
    let v = BaseVocabulary::with_special(5, 6, 7);
    assert_eq!(v.begin_sentence(), 5);
    assert_eq!(v.end_sentence(), 6);
    assert_eq!(v.not_found(), 7);
}

#[test]
fn base_vocab_set_bound_and_index() {
    let mut v = BaseVocabulary::default();
    v.set_bound(42);
    assert_eq!(v.bound(), 42);
    assert_eq!(v.index("anything"), v.not_found());
}

#[test]
fn test_probing_vocab_add_and_lookup() {
    let mut v = ProbingVocabulary::new();
    let idx = v.add_word("hello");
    assert_eq!(v.index("hello"), idx);
    assert_eq!(v.word(idx), Some("hello"));
}

#[test]
fn test_probing_vocab_unknown_word() {
    let mut v = ProbingVocabulary::new();
    assert_eq!(v.index("missing"), v.not_found());
}

#[test]
fn test_probing_vocab_duplicate_add_returns_same_index() {
    let mut v = ProbingVocabulary::new();
    let i1 = v.add_word("dup");
    let i2 = v.add_word("dup");
    assert_eq!(i1, i2);
}

#[test]
fn test_probing_vocab_multiple_words() {
    let mut v = ProbingVocabulary::new();
    let i1 = v.add_word("apple");
    let i2 = v.add_word("banana");
    let i3 = v.add_word("cherry");
    assert_ne!(i1, i2);
    assert_ne!(i2, i3);
    assert_eq!(v.index("apple"), i1);
    assert_eq!(v.index("banana"), i2);
    assert_eq!(v.index("cherry"), i3);
}

#[test]
fn test_probing_vocab_bound_grows() {
    let mut v = ProbingVocabulary::new();
    let before = v.bound();
    v.add_word("new_word");
    assert!(v.bound() > before || v.bound() >= 1);
}

#[test]
fn test_probing_vocab_word_out_of_range_returns_none() {
    let v = ProbingVocabulary::new();
    assert_eq!(v.word(9999), None);
}

#[test]
fn test_probing_vocab_special_words() {
    let v = ProbingVocabulary::new();
    assert_eq!(v.begin_sentence(), BOS_WORD);
    assert_eq!(v.end_sentence(), EOS_WORD);
    assert_eq!(v.not_found(), UNK_WORD);
}

#[test]
fn test_probing_vocab_set_special() {
    let mut v = ProbingVocabulary::new();
    v.set_special(20, 21, 22);
    assert_eq!(v.begin_sentence(), 20);
    assert_eq!(v.end_sentence(), 21);
    assert_eq!(v.not_found(), 22);
}

#[test]
fn probing_vocab_indices_are_consecutive_and_bound_follows() {
    let mut v = ProbingVocabulary::default();
    for (i, w) in ["a", "b", "c", "d", "e"].iter().enumerate() {
        assert_eq!(v.add_word(w), i as u32);
    }
    assert_eq!(v.bound(), 5);
    assert_eq!(v.index_from_string(&"d".to_string()), 3);
    assert_eq!(v.index_from_str("é"), v.not_found());
    assert_eq!(Vocabulary::add_word(&mut v, "é"), 5);
    assert_eq!(v.word(5), Some("é"));
}

#[test]
fn test_sorted_vocab_insert_and_lookup() {
    let mut v = SortedVocabulary::new();
    let i = v.insert("hello");
    v.finished_loading();
    assert_eq!(v.index("hello"), i);
}

#[test]
fn test_sorted_vocab_unknown_returns_not_found() {
    let mut v = SortedVocabulary::new();
    v.insert("foo");
    v.finished_loading();
    assert_eq!(v.index("bar"), v.not_found());
}

#[test]
fn test_sorted_vocab_unk_detection() {
    let mut v = SortedVocabulary::new();
    let i_unk = v.insert("<unk>");
    assert_eq!(i_unk, 0);
    assert!(v.saw_unk());
}

#[test]
fn test_sorted_vocab_finished_loading_sorts() {
    let mut v = SortedVocabulary::new();
    v.insert("zebra");
    v.insert("apple");
    v.insert("mango");
    v.finished_loading();
    assert_ne!(v.index("zebra"), v.not_found());
    assert_ne!(v.index("apple"), v.not_found());
    assert_ne!(v.index("mango"), v.not_found());
}

#[test]
fn test_sorted_vocab_double_sort_is_idempotent() {
    let mut v = SortedVocabulary::new();
    v.insert("a");
    v.insert("b");
    v.finished_loading();
    v.finished_loading();
    assert_ne!(v.index("a"), v.not_found());
}

#[test]
fn test_sorted_vocab_word_by_index() {
    let mut v = SortedVocabulary::new();
    v.insert("hello");
    v.finished_loading();
    assert_eq!(v.word(0), Some("<unk>"));
    assert!(v.word(1).is_some());
}

#[test]
fn test_sorted_vocab_size() {
    let mut v = SortedVocabulary::new();
    assert_eq!(v.size(), 1);
    v.insert("a");
    v.insert("b");
    assert_eq!(v.size(), 3);
}

#[test]
fn test_sorted_vocab_add_word_alias() {
    let mut v = SortedVocabulary::new();
    let i = v.add_word("test");
    v.finished_loading();
    assert_ne!(i, v.not_found());
}

#[test]
fn sorted_vocab_index_of_unk_marker_records_it() {
    let mut v = SortedVocabulary::default();
    v.insert("x");
    assert!(!v.saw_unk());
    assert_eq!(v.index("<UNK>"), 0);
    assert!(v.saw_unk());
    // before sorting the lookup is by insertion order
    assert_eq!(v.index("x"), 1);
    v.sort();
    assert_eq!(v.word(1), Some("x"));
    assert_eq!(v.word(2), None);
    assert_eq!(v.bound(), 2);
}

#[test]
fn sorted_vocab_add_word_does_not_duplicate() {
    let mut v = SortedVocabulary::new();
    let i = v.add_word("a");
    assert_eq!(i, 1);
    assert_eq!(v.add_word("a"), i);
    assert_eq!(v.size(), 2);
    assert_eq!(v.add_word("b"), 2);
    assert_eq!(v.size(), 3);
    assert_eq!(v.bound(), 3);
    assert_eq!(v.add_word("<unk>"), 0);
    assert!(v.saw_unk());
    assert_eq!(v.size(), 3);
}

#[test]
fn sorted_vocab_insert_sets_bound() {
    let mut v = SortedVocabulary::new();
    assert_eq!(v.insert("<unk>"), 0);
    assert_eq!(v.size(), 1);
    assert_eq!(v.insert("a"), 1);
    assert_eq!(v.insert("b"), 2);
    assert_eq!(v.size(), 3);
    assert_eq!(v.bound(), 3);
}
