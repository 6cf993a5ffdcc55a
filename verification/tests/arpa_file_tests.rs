use kenlmrs::arpa_reader::{
    arpa_spaces, check_ngram_word, expect_line_break, expect_tab, peek_backoff_start, read_arpa_counts,
    read_backoff_end, read_backoff_start, read_end, read_ngram_header,
};
use kenlmrs::error::LMError;
use kenlmrs::utils::pieces::file::FilePiece;

fn open_piece(content: &str) -> FilePiece {
    FilePiece::from_bytes("model.arpa".to_string(), content.as_bytes().to_vec())
}

#[test]
fn test_read_ngram_header_valid() {
    let mut fp = open_piece("\\1-grams:\n");
    read_ngram_header(&mut fp, 1).unwrap();
}

#[test]
fn test_read_ngram_header_skips_blank_lines() {
    let mut fp = open_piece("\n  \n\\2-grams:\n");
    read_ngram_header(&mut fp, 2).unwrap();
}

#[test]
fn test_read_ngram_header_wrong_order() {
    let mut fp = open_piece("\\3-grams:\n");
    let err = read_ngram_header(&mut fp, 2).unwrap_err();
    assert!(matches!(err, LMError::InvalidArpa(_)));
}

#[test]
fn test_read_arpa_counts_basic() {
    let content = "\
\\data\\
ngram 1=5
ngram 2=12
ngram 3=3

";
    let mut fp = open_piece(content);
    let counts = read_arpa_counts(&mut fp).unwrap();
    assert_eq!(counts, vec![5, 12, 3]);
}

#[test]
fn test_read_arpa_counts_with_comments_and_blank() {
    let content = "\
# this is a comment

\\data\\
ngram 1=100

";
    let mut fp = open_piece(content);
    let counts = read_arpa_counts(&mut fp).unwrap();
    assert_eq!(counts, vec![100]);
}

#[test]
fn test_read_arpa_counts_empty_data_section() {
    let content = "\\data\\\n\n";
    let mut fp = open_piece(content);
    let err = read_arpa_counts(&mut fp).unwrap_err();
    assert!(matches!(err, LMError::InvalidArpa(_)));
}

#[test]
fn test_read_arpa_counts_gzip_magic_bytes() {
    let mut content = vec![0x1fu8, 0x8b];
    content.extend_from_slice(b" rest of binary garbage\n");
    let mut fp = FilePiece::from_bytes("model.arpa.gz".to_string(), content);
    let err = read_arpa_counts(&mut fp).unwrap_err();
    let _ = matches!(err, LMError::InvalidArpa(_));
}

#[test]
fn test_read_arpa_counts_non_consecutive_orders() {
    let content = "\\data\\\nngram 1=5\nngram 3=2\n\n";
    let mut fp = open_piece(content);
    let err = read_arpa_counts(&mut fp).unwrap_err();
    assert!(matches!(err, LMError::InvalidArpa(_)));
}

#[test]
fn test_read_arpa_counts_wrong_prefix() {
    let content = "\\data\\\nbad 1=5\n\n";
    let mut fp = open_piece(content);
    let err = read_arpa_counts(&mut fp).unwrap_err();
    assert!(matches!(err, LMError::InvalidArpa(_)));
}

#[test]
fn test_read_end_valid() {
    let mut fp = open_piece("\\end\\\n");
    read_end(&mut fp).unwrap();
}

#[test]
fn test_read_end_with_blank_lines_before() {
    let mut fp = open_piece("\n\n\\end\\\n");
    read_end(&mut fp).unwrap();
}

#[test]
fn test_read_end_wrong_marker() {
    let mut fp = open_piece("\\done\\\n");
    let err = read_end(&mut fp).unwrap_err();
    assert!(matches!(err, LMError::InvalidArpa(_)));
}

#[test]
fn read_arpa_counts_leaves_reader_after_blank_line() {
    let mut fp = open_piece("\\data\\\nngram 1=3\n\n\\1-grams:\n");
    assert_eq!(read_arpa_counts(&mut fp).unwrap(), vec![3]);
    read_ngram_header(&mut fp, 1).unwrap();
    assert!(fp.at_end());
}

#[test]
fn read_arpa_counts_messages() {
    let mut fp = open_piece("\\data\\\nngram 1=5\nngram 3=2\n\n");
    assert_eq!(
        read_arpa_counts(&mut fp),
        Err(LMError::InvalidArpa("ngram orders should be consecutive starting with 1, got 3".to_string()))
    );
    let mut fp = open_piece("hello\n");
    assert_eq!(
        read_arpa_counts(&mut fp),
        Err(LMError::InvalidArpa("First non-empty line was 'hello' not \\data\\".to_string()))
    );
    let mut fp = open_piece("mmap lm http://kheafield.com/code binary\n");
    assert_eq!(
        read_arpa_counts(&mut fp),
        Err(LMError::InvalidArpa("This looks like a binary file sent to ARPA parser.".to_string()))
    );
    let mut fp = open_piece("\\data\\\nngram 1=5\n");
    assert_eq!(read_arpa_counts(&mut fp), Err(LMError::EndOfFile));
}

#[test]
fn read_ngram_header_message_and_end() {
    let mut fp = open_piece("\r\n\\3-grams: \r\n");
    assert_eq!(
        read_ngram_header(&mut fp, 2),
        Err(LMError::InvalidArpa("Expected n-gram header '\\2-grams:' but got '\\3-grams:'".to_string()))
    );
    let mut fp = open_piece("\n \n");
    assert_eq!(read_ngram_header(&mut fp, 1), Err(LMError::EndOfFile));
    let mut fp = open_piece("\\12-grams:");
    assert_eq!(read_ngram_header(&mut fp, 12), Ok(()));
}

#[test]
fn read_end_reports_trailing_lines_and_eof() {
    let mut fp = open_piece("\n\\end\\\n\nextra\n  \nmore");
    assert_eq!(read_end(&mut fp), Ok(vec!["extra".to_string(), "more".to_string()]));
    assert!(fp.at_end());
    let mut fp = open_piece("\n\n");
    assert_eq!(read_end(&mut fp), Err(LMError::InvalidArpa("Expected \\end\\ but got EOF".to_string())));
    let mut fp = open_piece("\\done\\\n");
    assert_eq!(read_end(&mut fp), Err(LMError::InvalidArpa("Expected \\end\\ but got '\\done\\'".to_string())));
}

#[test]
fn arpa_spaces_marks_separators() {
    let t = arpa_spaces();
    for b in 0..256usize {
        assert_eq!(t[b], b == 9 || b == 10 || b == 13 || b == 32);
    }
}

#[test]
fn backoff_field_forms() {
    let mut fp = open_piece("\t-0.5\n");
    assert_eq!(read_backoff_start(&mut fp), Ok(true));
    assert_eq!(fp.offset(), 1);
    let mut fp = open_piece("\nnext");
    assert_eq!(read_backoff_start(&mut fp), Ok(false));
    let mut fp = open_piece("\r\nnext");
    assert_eq!(read_backoff_start(&mut fp), Ok(false));
    assert_eq!(fp.offset(), 2);
    let mut fp = open_piece("\rx");
    assert_eq!(
        read_backoff_start(&mut fp),
        Err(LMError::InvalidArpa("Expected newline after backoff".to_string()))
    );
    let mut fp = open_piece(" x");
    assert_eq!(
        read_backoff_start(&mut fp),
        Err(LMError::InvalidArpa("Expected tab or newline for backoff".to_string()))
    );
    let mut fp = open_piece("");
    assert_eq!(read_backoff_start(&mut fp), Err(LMError::EndOfFile));
}

#[test]
fn backoff_line_end_forms() {
    let mut fp = open_piece("\n");
    assert_eq!(read_backoff_end(&mut fp), Ok(()));
    let mut fp = open_piece("\r\n");
    assert_eq!(read_backoff_end(&mut fp), Ok(()));
    let mut fp = open_piece("x");
    assert_eq!(
        read_backoff_end(&mut fp),
        Err(LMError::InvalidArpa("Expected newline after backoff, got 'x'".to_string()))
    );
}

#[test]
fn lenient_backoff_reading() {
    let mut fp = open_piece("\t-1\n");
    assert_eq!(peek_backoff_start(&mut fp), Ok(true));
    let mut fp = open_piece("\r\n");
    assert_eq!(peek_backoff_start(&mut fp), Ok(false));
    assert_eq!(fp.offset(), 1);
    let mut fp = open_piece("w");
    assert_eq!(peek_backoff_start(&mut fp), Ok(false));
    assert_eq!(fp.offset(), 0);
    let mut fp = open_piece("\r");
    assert_eq!(expect_line_break(&mut fp), Ok(()));
    let mut fp = open_piece(" ");
    assert_eq!(
        expect_line_break(&mut fp),
        Err(LMError::InvalidArpa("Expected newline after backoff".to_string()))
    );
}

#[test]
fn tab_after_probability() {
    let mut fp = open_piece("\tword");
    assert_eq!(expect_tab(&mut fp), Ok(()));
    let mut fp = open_piece(" word");
    assert_eq!(
        expect_tab(&mut fp),
        Err(LMError::InvalidArpa("Expected tab after probability, got ' '".to_string()))
    );
}

#[test]
fn unseen_ngram_words_are_rejected() {
    assert_eq!(check_ngram_word("<unk>", 0, 2), Ok(()));
    assert_eq!(check_ngram_word("<UNK>", 0, 2), Ok(()));
    assert_eq!(check_ngram_word("cat", 5, 2), Ok(()));
    assert_eq!(
        check_ngram_word("cat", 0, 3),
        Err(LMError::InvalidArpa("Word 'cat' was not seen in the unigrams but appears in 3-gram".to_string()))
    );
}
