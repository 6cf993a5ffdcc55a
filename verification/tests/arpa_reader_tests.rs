use kenlmrs::arpa_reader::{end_line, is_entirely_whitespace, ArpaCounts, CountsStep, EndStep, PositiveProbWarn};
use kenlmrs::constant::WarningAction;
use kenlmrs::error::LMError;

fn feed(lines: &[&str]) -> CountsStep {
    let mut reader = ArpaCounts::new();
    for line in lines {
        match reader.next_line(line) {
            CountsStep::More => continue,
            other => return other,
        }
    }
    CountsStep::More
}

fn message(step: CountsStep) -> String {
    match step {
        CountsStep::Failed(LMError::InvalidArpa(m)) => m,
        other => panic!("expected a failure, got {:?}", other),
    }
}

#[test]
fn test_is_entirely_whitespace() {
    assert!(is_entirely_whitespace("   "));
    assert!(is_entirely_whitespace("\t\n"));
    assert!(is_entirely_whitespace(""));
    assert!(!is_entirely_whitespace("  a  "));
}

#[test]
fn counts_are_read_after_data() {
    match feed(&["", "# comment", " \\data\\ ", "ngram 1=5", "ngram 2 = 7", "  ", "\\1-grams:"]) {
        CountsStep::Done(c) => assert_eq!(c, vec![5, 7]),
        other => panic!("{:?}", other),
    }
}

#[test]
fn counts_errors_carry_their_messages() {
    assert_eq!(message(feed(&["hello"])), "First non-empty line was 'hello' not \\data\\");
    assert_eq!(message(feed(&["\\data\\", ""])), "No ngram counts found in \\data\\ section");
    assert_eq!(message(feed(&["\\data\\", "count 1=2"])), "Count line 'count 1=2' doesn't begin with 'ngram '");
    assert_eq!(message(feed(&["\\data\\", "ngram 1=2=3"])), "Invalid count line format: ngram 1=2=3");
    assert_eq!(message(feed(&["\\data\\", "ngram 1"])), "Invalid count line format: ngram 1");
    assert_eq!(message(feed(&["\\data\\", "ngram x=2"])), "Invalid order number: x");
    assert_eq!(message(feed(&["\\data\\", "ngram 1= y"])), "Invalid count:  y");
    assert_eq!(message(feed(&["\\data\\", "ngram 2=4"])), "ngram orders should be consecutive starting with 1, got 2");
    assert_eq!(
        message(feed(&["mmap lm http://kheafield.com/code format version"])),
        "This looks like a binary file sent to ARPA parser."
    );
}

#[test]
fn end_marker_lines() {
    assert_eq!(end_line("  "), EndStep::Blank);
    assert_eq!(end_line(" \\end\\\t"), EndStep::End);
    assert_eq!(
        end_line("\\2-grams:"),
        EndStep::Failed(LMError::InvalidArpa("Expected \\end\\ but got '\\2-grams:'".to_string()))
    );
}

#[test]
fn positive_prob_warn_starts_unwarned() {
    let w = PositiveProbWarn::new(WarningAction::Complain);
    assert!(!w.warned);
    assert!(matches!(w.action, WarningAction::Complain));
}
