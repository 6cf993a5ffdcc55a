use kenlmrs::constant::FilterMode;
use kenlmrs::filter::{filter_output, is_arpa_format, parse_phrase_table_ngrams, CopyFilter, Filter, VocabFilter};

#[test]
fn vocab_filter_passes_known_words() {
    let vocab = vec!["hello".to_string(), "world".to_string()];
    let f = VocabFilter::new(vocab, false);
    // Tab-separated: prob \t words \t backoff
    assert!(f.filter_ngram("-0.5\thello world\t-0.1"));
    assert!(!f.filter_ngram("-0.5\thello unknown\t-0.1"));
}

#[test]
fn context_filter_ignores_predicted_word() {
    let vocab = vec!["hello".to_string()];
    let f = VocabFilter::new(vocab, true);
    // context_only: "hello" is context, "unknown" is predicted — only context checked
    assert!(f.filter_ngram("-0.5\thello unknown\t-0.1"));
}

#[test]
fn is_arpa_format_detection() {
    assert!(is_arpa_format("\\data\\\nngram 1=3"));
    assert!(!is_arpa_format("the cat sat on the mat"));
}

#[test]
fn copy_filter_struct_always_passes() {
    let f = CopyFilter;
    assert!(f.filter_ngram("anything at all"));
    assert!(f.filter_ngram(""));
}

#[test]
fn vocab_filter_edge_cases() {
    let f = VocabFilter::new(vec!["a".to_string(), "b".to_string()], false);
    assert!(f.filter_ngram("a b"));
    assert!(!f.filter_ngram("-1\t\t-2"));
    assert!(f.filter_ngram("-1\tb"));
    let c = VocabFilter::new(vec!["a".to_string()], true);
    assert!(!c.filter_ngram("-1\tz"));
    assert!(c.filter_ngram("-1\ta z\t0"));
    assert!(is_arpa_format("  \n\\data\\"));
    assert!(!is_arpa_format("\\dat"));
}

#[test]
fn phrase_table_ngrams_are_all_runs_once() {
    let mut got = parse_phrase_table_ngrams("a b a ||| x y");
    got.sort();
    assert_eq!(got, vec!["a", "a b", "a b a", "b", "b a"]);
    assert!(parse_phrase_table_ngrams("   ||| x").is_empty());
    let mut whole = parse_phrase_table_ngrams("p q");
    whole.sort();
    assert_eq!(whole, vec!["p", "p q", "q"]);
}

#[test]
fn filter_output_by_mode() {
    let input = "a\nb\n\nc\r\nd\n";
    assert_eq!(filter_output(FilterMode::ModeCopy, input, &CopyFilter), vec!["a", "b", "c", "d"]);
    assert_eq!(filter_output(FilterMode::ModeMultiple, input, &CopyFilter), vec!["a", "b", "", "c", "d"]);
    assert_eq!(filter_output(FilterMode::ModeUnion, "alpha\nbeta\nalpha\ngamma", &CopyFilter), vec!["alpha", "beta", "gamma"]);
    let f = VocabFilter::new(vec!["a".to_string()], false);
    assert_eq!(filter_output(FilterMode::ModeMultiple, "b\n\na\n\n\nb", &f), vec!["a", ""]);
    assert_eq!(filter_output(FilterMode::ModeSingle, "x\r", &CopyFilter), vec!["x\r"]);
}

/// What the filter tool writes for `input` in `mode`: each output line and a line break.
fn written(mode: FilterMode, input: &str) -> String {
    let mut result = String::new();
    for line in filter_output(mode, input, &CopyFilter) {
        result.push_str(&line);
        result.push('\n');
    }
    result
}

#[test]
fn copy_filter_passes_all_lines() {
    let input = "line one\nline two\nline three";
    let result = written(FilterMode::ModeCopy, input);
    assert!(result.contains("line one"));
    assert!(result.contains("line two"));
}

#[test]
fn copy_mode_via_run_filter() {
    let input = "a\nb\nc";
    let result = written(FilterMode::ModeCopy, input);
    assert_eq!(result.lines().count(), 3);
}

#[test]
fn union_mode_deduplicates() {
    let input = "alpha\nbeta\nalpha\ngamma";
    let result = written(FilterMode::ModeUnion, input);
    assert_eq!(result.lines().filter(|l| *l == "alpha").count(), 1);
}

#[test]
fn multiple_mode_separates_sentences() {
    let input = "a\nb\n\nc\nd";
    let result = written(FilterMode::ModeMultiple, input);
    assert!(result.contains('\n'));
    assert_eq!(result, "a\nb\n\nc\nd\n");
}
