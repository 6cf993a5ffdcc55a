use kenlmrs::model::GenericModel;
use kenlmrs::search::{BackoffValue, HashedSearch};
use kenlmrs::types::{FullScoreReturn, State};
use kenlmrs::vocabulary::{ProbingVocabulary, Vocabulary};

fn bits(x: f32) -> u32 {
    x.to_bits()
}

fn float(b: u32) -> f32 {
    f32::from_bits(b)
}

/// The trigram model of `<unk> <s> </s> a b` with the bigram "<s> a" and the trigram
/// "<s> a b"; the state words are most recent first.
fn tiny_model() -> GenericModel<BackoffValue> {
    let mut vocab = ProbingVocabulary::new();
    for w in ["<unk>", "<s>", "</s>", "a", "b"] {
        vocab.add_word(w);
    }
    let mut s: HashedSearch<BackoffValue> = HashedSearch::new();
    s.prepare_unigrams(5);
    for (w, p, b) in [(0u32, -99.0f32, -0.0f32), (1, -99.0, -0.5), (2, -1.0, -0.0), (3, -0.7, -0.2), (4, -0.9, -0.0)] {
        s.insert_unigram(w, bits(p), bits(b));
    }
    s.prepare_orders(3);
    s.insert_ngram(&[3, 1], 3, bits(-0.3), bits(-0.1));
    s.insert_ngram(&[4, 3, 1], 3, bits(-0.2), 0);
    GenericModel::new(vocab, s)
}

/// The full log probability: the base one and the backoffs to add, in order.
fn total(parts: &(FullScoreReturn, Vec<u32>)) -> f32 {
    let mut p = float(parts.0.prob);
    for b in &parts.1 {
        p += float(*b);
    }
    p
}

#[test]
fn empty_context_state_should_have_zero_length() {
    let s = GenericModel::<BackoffValue>::empty_context_state();
    assert_eq!(s.length, 0);
}

#[test]
fn begin_sentence_state_should_have_length_one() {
    let model = tiny_model();
    let s = model.begin_sentence_state();
    assert_eq!(s.length, 1);
    assert_eq!(s.words[0], 1);
    assert_eq!(float(s.backoff[0]), -0.5);
}

#[test]
fn test_generic_model_full_score_empty_context() {
    let model = tiny_model();
    let in_state = State::default();
    let mut out_state = State::default();
    let result = model.full_score(&in_state, 0, &mut out_state);
    assert_eq!(result.0.ngram_length, 1);
    assert_eq!(total(&result), -99.0);
}

#[test]
fn test_generic_model_order() {
    assert_eq!(tiny_model().order(), 3);
}

#[test]
fn scoring_uses_the_bigram_and_the_trigram() {
    let model = tiny_model();
    let start = model.begin_sentence_state();
    let mut after_a = State::default();
    let r = model.full_score(&start, 3, &mut after_a);
    assert_eq!(r.0.ngram_length, 2);
    assert_eq!(total(&r), -0.3);
    // "<s> a" has backoff -0.1, which a trigram extends: the state keeps both words.
    assert_eq!(after_a.length, 2);
    assert_eq!(after_a.words[0], 3);
    assert_eq!(after_a.words[1], 1);
    let mut after_b = State::default();
    let r = model.full_score(&after_a, 4, &mut after_b);
    assert_eq!(r.0.ngram_length, 3);
    assert!(r.0.independent_left);
    assert_eq!(total(&r), -0.2);
    assert!(r.1.is_empty());
}

#[test]
fn scoring_backs_off_to_the_unigram() {
    let model = tiny_model();
    let start = model.begin_sentence_state();
    let mut out = State::default();
    // "<s> </s>" is no bigram: p(</s>) plus the backoff of <s>.
    let r = model.full_score(&start, 2, &mut out);
    assert_eq!(r.0.ngram_length, 1);
    assert_eq!(r.1, vec![bits(-0.5)]);
    assert_eq!(total(&r), -1.0 + -0.5);
    assert_eq!(out.length, 0);
}

#[test]
fn score_except_backoff_reports_the_match() {
    let model = tiny_model();
    let mut out = State::default();
    let r = model.score_except_backoff(&[3, 1], 4, &mut out);
    assert_eq!(r.ngram_length, 3);
    assert_eq!(float(r.prob), -0.2);
    assert_eq!(out.words[0], 4);
}

#[test]
fn get_state_should_return_empty_state_for_empty_context() {
    let model = tiny_model();
    let s = model.get_state(&[]);
    assert_eq!(s.length, 0);
}

#[test]
fn get_state_should_clamp_context_to_model_order() {
    let model = tiny_model();
    let bos = model.vocab().begin_sentence();
    let s = model.get_state(&[bos, bos, bos, bos, bos]);
    assert!(s.length <= 2);
}

#[test]
fn get_state_rebuilds_the_state_that_scoring_leaves() {
    let model = tiny_model();
    let s = model.get_state(&[3, 1]);
    assert_eq!(s.length, 2);
    assert_eq!(s.words[0], 3);
    assert_eq!(s.words[1], 1);
    assert_eq!(float(s.backoff[0]), -0.2);
    assert_eq!(float(s.backoff[1]), -0.1);
    let start = model.begin_sentence_state();
    let mut after_a = State::default();
    model.full_score(&start, 3, &mut after_a);
    assert_eq!(after_a, s);
}

#[test]
fn full_score_forgot_state_should_not_panic_with_empty_context() {
    let model = tiny_model();
    let mut out = State::default();
    let ret = model.full_score_forgot_state(&[], 0, &mut out);
    assert!(ret.1.is_empty());
}

#[test]
fn full_score_forgot_state_adds_the_context_backoffs() {
    let model = tiny_model();
    let mut out = State::default();
    // "</s>" after "<s>": no bigram; the backoff of "<s>" is added.
    let r = model.full_score_forgot_state(&[1], 2, &mut out);
    assert_eq!(r.0.ngram_length, 1);
    assert_eq!(total(&r), -1.5);
    // "b" after "a <s>": the trigram matches, nothing to add.
    let r = model.full_score_forgot_state(&[3, 1], 4, &mut out);
    assert_eq!(r.0.ngram_length, 3);
    assert_eq!(total(&r), -0.2);
}

#[test]
fn stateless_score_adds_the_backoffs_a_rebuilt_state_adds() {
    let model = tiny_model();
    // "</s>" after "<s> a": no bigram "a </s>"; the backoffs of "a" and of "<s> a" apply.
    let mut o1 = State::default();
    let stateless = model.full_score_forgot_state(&[3, 1], 2, &mut o1);
    assert_eq!(stateless.0.ngram_length, 1);
    assert_eq!(stateless.1, vec![bits(-0.2), bits(-0.1)]);
    let state = model.get_state(&[3, 1]);
    let mut o2 = State::default();
    let stateful = model.full_score(&state, 2, &mut o2);
    assert_eq!(stateful.0.ngram_length, stateless.0.ngram_length);
    assert_eq!(total(&stateful), total(&stateless));
    assert_eq!(total(&stateless), -1.0 + -0.2 + -0.1);
}

#[test]
fn get_state_ignores_words_past_the_order() {
    let model = tiny_model();
    assert_eq!(model.get_state(&[3, 1, 4, 4]), model.get_state(&[3, 1]));
}

#[test]
fn stateless_and_stateful_scores_match_the_same_trigram() {
    let model = tiny_model();
    // "b" after "<s> a": the trigram "<s> a b" is stored.
    let mut o1 = State::default();
    let stateless = model.full_score_forgot_state(&[3, 1], 4, &mut o1);
    let state = model.get_state(&[3, 1]);
    assert_eq!(state.length, 2);
    let mut o2 = State::default();
    let stateful = model.full_score(&state, 4, &mut o2);
    assert_eq!(stateless.0.ngram_length, 3);
    assert_eq!(stateful.0.ngram_length, 3);
    assert_eq!(stateful.0.prob, stateless.0.prob);
    assert_eq!(total(&stateful), total(&stateless));
    assert_eq!(total(&stateless), -0.2);
}
