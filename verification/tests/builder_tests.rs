use kenlmrs::builder::config::{ChainConfig, InitialProbabilitiesConfig};
use kenlmrs::builder::count::OrderStat;
use kenlmrs::builder::interpolate::OutputProbBackoff;
use kenlmrs::builder::pipeline::{Output, ParsePruning};
use kenlmrs::builder::proba::{ChainPosition, Link, SpecialVocab, Stream, K_UNK};
use kenlmrs::builder::{BuildingPayload, CorpusCount, HeaderInfo, PayloadType};
use kenlmrs::model::{VocabularyNew, VocabularySize};
use kenlmrs::vocabulary::{ProbingVocabulary, SortedVocabulary, Vocabulary};

#[test]
fn special_vocab_from_indices() {
    let sv = SpecialVocab::from_indices(1, 2, 0);
    assert_eq!(sv.bos(), 1);
    assert_eq!(sv.eos(), 2);
    assert_eq!(sv.UNK(), 0);
    assert!(sv.is_special(0));
    assert!(sv.is_special(1));
    assert!(sv.is_special(2));
    assert!(!sv.is_special(3));
}

#[test]
fn parse_pruning_pads_to_order() {
    let params = vec!["0 0 1".to_string()];
    let thresh = ParsePruning(&params, 5);
    assert_eq!(thresh.len(), 5);
    assert_eq!(thresh[2], 1);
    assert_eq!(thresh[4], 0);
}

#[test]
fn parse_pruning_skips_non_numbers_and_truncates() {
    let params = vec!["3 x +4".to_string(), " -1\t7 18446744073709551616 ".to_string(), "".to_string()];
    assert_eq!(ParsePruning(&params, 2), vec![3, 4]);
    assert_eq!(ParsePruning(&params, 4), vec![3, 4, 7, 0]);
    assert_eq!(ParsePruning(&[], 0), Vec::<u64>::new());
}

#[test]
fn special_vocab_reads_a_vocabulary() {
    let v = ProbingVocabulary::new();
    let sv = SpecialVocab::new(&v);
    assert_eq!(sv.bos(), v.begin_sentence());
    assert_eq!(sv.EOS(), v.end_sentence());
    assert_eq!(sv.UNK(), v.not_found());
    assert_eq!(K_UNK, 0);
}

#[test]
fn header_info_copies_its_inputs() {
    let counts = vec![5u64, 7, 9];
    let h = HeaderInfo::new("corpus.txt", 42, &counts);
    assert_eq!(h.input_file, "corpus.txt");
    assert_eq!(h.token_count, 42);
    assert_eq!(h.counts_pruned, counts);
}

#[test]
fn builder_configs_and_plumbing() {
    let c = InitialProbabilitiesConfig::default();
    assert!(!c.interpolate_unigrams);
    assert_eq!(c.adder_in.memory, 0);
    let cc = ChainConfig::default();
    assert_eq!(cc.temp_prefix, "");
    let stat = OrderStat { n: [1, 2, 3, 4, 5], count: 6, count_pruned: 7 };
    assert_eq!(stat.clone().n[4], 5);
    let pos = ChainPosition::new();
    let _link = Link::new(&pos);
    let _stream = Stream::new(&pos);
    let _out = Output;
    let _o = OutputProbBackoff::new(3);
}

#[test]
fn vocabulary_sizes_and_fresh_vocabularies() {
    let mut p: ProbingVocabulary = VocabularyNew::new();
    assert_eq!(p.vocab_size(), 3);
    p.add_word("a");
    p.add_word("b");
    p.add_word("c");
    p.add_word("d");
    assert_eq!(p.vocab_size(), 4);
    let mut s: SortedVocabulary = VocabularyNew::new();
    assert_eq!(s.vocab_size(), 1);
    s.add_word("x");
    assert_eq!(s.vocab_size(), 2);
}

#[test]
fn corpus_count_vocab_usage_is_positive() {
    let usage = CorpusCount::vocab_usage(1000);
    assert!(usage > 0);
    assert_eq!(usage, 9024);
}

#[test]
fn corpus_count_counts_sentences() {
    let mut vocab = ProbingVocabulary::new();
    let mut cc = CorpusCount::new();
    let lines = vec!["a b".to_string(), "   ".to_string(), "b".to_string()];
    let mut counts = cc.run(&lines, 2, &mut vocab);
    counts.sort();
    // <unk>=0 <s>=1 </s>=2 a=3 b=4
    let mut expected: Vec<(Vec<u32>, u64)> = vec![
        (vec![1], 2),
        (vec![1, 3], 1),
        (vec![3], 1),
        (vec![3, 4], 1),
        (vec![4], 2),
        (vec![4, 2], 2),
        (vec![2], 2),
        (vec![1, 4], 1),
    ];
    expected.sort();
    assert_eq!(counts, expected);
    assert_eq!(cc.token_count, 3);
    assert_eq!(cc.type_count, 5);
}

#[test]
fn building_payload_mark_and_unmark() {
    let mut p = BuildingPayload::from_count(5);
    assert!(!p.is_marked());
    assert_eq!(p.unmarked_count(), 5);
    assert_eq!(p.cutoff_count(), 5);
    p.mark();
    assert!(p.is_marked());
    assert_eq!(p.payload, PayloadType::Count(5 | (1u64 << 63)));
    assert_eq!(p.unmarked_count(), 5);
    assert_eq!(p.cutoff_count(), 0);
    p.unmark();
    assert!(!p.is_marked());
    assert_eq!(p.payload, PayloadType::Count(5));
    assert_eq!(p.cutoff_count(), 5);
}

#[test]
fn building_payload_other_kinds_are_unmarked() {
    let mut p = BuildingPayload { payload: PayloadType::Complete };
    assert!(!p.is_marked());
    p.mark();
    assert_eq!(p.payload, PayloadType::Complete);
    assert_eq!(p.unmarked_count(), 0);
    assert_eq!(p.cutoff_count(), 0);
}

#[test]
fn continuation_counts_count_distinct_left_extensions() {
    use_continuation_counts();
}

fn use_continuation_counts() {
    let counts: Vec<(Vec<u32>, u64)> = vec![
        (vec![5], 9),
        (vec![3, 5], 2),
        (vec![4, 5], 7),
        (vec![3, 4, 5], 1),
        (vec![6, 3], 1),
    ];
    let r = kenlmrs::builder::pipeline::continuation_counts(&counts);
    assert_eq!(r, vec![(vec![5], 2), (vec![4, 5], 1), (vec![3], 1)]);
    assert!(kenlmrs::builder::pipeline::continuation_counts(&vec![(vec![1], 4)]).is_empty());
}

#[test]
fn corpus_count_lists_each_ngram_once_with_all_its_occurrences() {
    let mut vocab = ProbingVocabulary::new();
    let mut cc = CorpusCount::new();
    let lines = vec!["a a a".to_string(), "a".to_string()];
    let mut counts = cc.run(&lines, 2, &mut vocab);
    counts.sort();
    // <s>=1 </s>=2 a=3: sentences [1 3 3 3 2] and [1 3 2].
    let mut expected: Vec<(Vec<u32>, u64)> = vec![
        (vec![1], 2),
        (vec![1, 3], 2),
        (vec![3], 4),
        (vec![3, 3], 2),
        (vec![3, 2], 2),
        (vec![2], 2),
    ];
    expected.sort();
    assert_eq!(counts, expected);
    assert_eq!(cc.token_count, 4);
}
