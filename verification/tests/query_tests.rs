use kenlmrs::ngram::query::{QueryTally, Vocabulary};

#[test]
fn query_tally_counts_unknown_words_and_tokens() {
    let mut tally = QueryTally::new();
    let oov = tally.tally_line(&[3, 0, 5, 0], 0, true);
    assert_eq!(oov, 2);
    assert_eq!(tally.corpus_oov, 2);
    assert_eq!(tally.corpus_tokens, 5);
    assert_eq!(tally.line_oov, 0);
    let oov = tally.tally_line(&[7, 0], 0, false);
    assert_eq!(oov, 1);
    assert_eq!(tally.corpus_oov, 3);
    assert_eq!(tally.corpus_tokens, 7);
}

#[test]
fn query_tally_empty_line_in_sentence_context() {
    let mut tally = QueryTally::new();
    assert_eq!(tally.tally_line(&[], 0, true), 0);
    assert_eq!(tally.corpus_tokens, 1);
    assert_eq!(tally.corpus_oov, 0);
}

#[test]
fn query_tally_word_by_word() {
    let mut tally = QueryTally::new();
    assert!(!tally.record_word(4, 0));
    assert!(tally.record_word(0, 0));
    tally.record_end_sentence();
    assert_eq!(tally.line_oov, 1);
    assert_eq!(tally.finish_line(), 1);
    assert_eq!(tally.line_oov, 0);
    assert_eq!(tally.corpus_oov, 1);
    assert_eq!(tally.corpus_tokens, 3);
}

#[test]
fn query_vocabulary_knows_no_word() {
    let v = Vocabulary;
    assert_eq!(v.index("the"), 0);
    assert_eq!(v.not_found(), 0);
    assert_eq!(v.end_sentence(), 0);
}
