use kenlmrs::error::LMError;
use kenlmrs::utils::pieces::file::FilePiece;

fn make_fp(content: &str) -> FilePiece {
    FilePiece::from_bytes("input.txt".to_string(), content.as_bytes().to_vec())
}

fn space_tab_newline() -> [bool; 256] {
    let mut d = [false; 256];
    d[b' ' as usize] = true;
    d[b'\t' as usize] = true;
    d[b'\n' as usize] = true;
    d
}

#[test]
fn test_read_line() {
    let mut fp = make_fp("line1\nline2\nline3");
    assert_eq!(fp.read_line('\n', false).unwrap(), "line1");
    assert_eq!(fp.read_line('\n', false).unwrap(), "line2");
    assert_eq!(fp.read_line('\n', false).unwrap(), "line3");
}

#[test]
fn test_file_name_is_set() {
    let fp = make_fp("hello");
    assert!(!fp.file_name().is_empty());
}

#[test]
fn test_get_and_peek() {
    let mut fp = make_fp("AB");
    assert_eq!(fp.peek().unwrap(), 'A');
    assert_eq!(fp.get().unwrap(), 'A');
    assert_eq!(fp.peek().unwrap(), 'B');
    assert_eq!(fp.get().unwrap(), 'B');
}

#[test]
fn test_read_delimited() {
    let delims = space_tab_newline();
    let mut fp = make_fp("hello world");
    let token = fp.read_delimited(&delims).unwrap();
    assert_eq!(token, "hello");
}

#[test]
fn test_read_multiple_delimited_tokens() {
    let delims = space_tab_newline();
    let mut fp = make_fp("foo bar baz");
    assert_eq!(fp.read_delimited(&delims).unwrap(), "foo");
    assert_eq!(fp.read_delimited(&delims).unwrap(), "bar");
    assert_eq!(fp.read_delimited(&delims).unwrap(), "baz");
}

#[test]
fn test_read_line_strips_cr() {
    let mut fp = make_fp("line1\r\nline2\r\n");
    let line = fp.read_line('\n', true).unwrap();
    assert_eq!(line, "line1");
}

#[test]
fn test_at_end_false_at_start() {
    let fp = make_fp("data");
    assert!(!fp.at_end());
}

#[test]
fn test_read_ulong() {
    let mut fp = make_fp("12345678");
    let v = fp.read_ulong().unwrap();
    assert_eq!(v, 12345678);
}

#[test]
fn read_line_keeps_cr_unless_asked() {
    let mut fp = make_fp("a\r\nb");
    assert_eq!(fp.read_line('\n', false).unwrap(), "a\r");
    assert_eq!(fp.offset(), 3);
    assert_eq!(fp.read_line('\n', true).unwrap(), "b");
    assert!(fp.at_end());
    assert_eq!(fp.read_line('\n', true), Err(LMError::EndOfFile));
}

#[test]
fn read_line_of_empty_line() {
    let mut fp = make_fp("\nx");
    assert_eq!(fp.read_line('\n', false).unwrap(), "");
    assert_eq!(fp.read_line('\n', false).unwrap(), "x");
}

#[test]
fn read_line_with_other_delimiter() {
    let mut fp = make_fp("a;b");
    assert_eq!(fp.read_line(';', false).unwrap(), "a");
    assert_eq!(fp.read_line(';', false).unwrap(), "b");
}

#[test]
fn read_line_of_invalid_utf8_is_empty() {
    let mut fp = FilePiece::from_bytes("bin".to_string(), vec![0xff, 0xfe, b'\n', b'o', b'k']);
    assert_eq!(fp.read_line('\n', false).unwrap(), "");
    assert_eq!(fp.read_line('\n', false).unwrap(), "ok");
}

#[test]
fn read_ulong_skips_spaces_and_stops_at_space() {
    let mut fp = make_fp("  \t42 7\n");
    assert_eq!(fp.read_ulong().unwrap(), 42);
    assert_eq!(fp.offset(), 5);
    assert_eq!(fp.read_ulong().unwrap(), 7);
    assert_eq!(fp.read_ulong(), Err(LMError::ParseError("Empty token".to_string())));
}

#[test]
fn read_ulong_rejects_non_numbers() {
    let mut fp = make_fp("12a");
    assert_eq!(
        fp.read_ulong(),
        Err(LMError::ParseError("Failed to parse ulong: 12a".to_string()))
    );
    assert!(fp.at_end());
    let mut big = make_fp("18446744073709551616");
    assert!(matches!(big.read_ulong(), Err(LMError::ParseError(_))));
    let mut plus = make_fp("+9");
    assert_eq!(plus.read_ulong().unwrap(), 9);
}

#[test]
fn peek_and_get_at_end() {
    let mut fp = make_fp("");
    assert_eq!(fp.peek(), Err(LMError::EndOfFile));
    assert_eq!(fp.get(), Err(LMError::EndOfFile));
    assert!(fp.at_end());
}

#[test]
fn peek_maps_bytes_to_latin1_characters() {
    let mut fp = FilePiece::from_bytes("b".to_string(), vec![0xe9]);
    assert_eq!(fp.peek().unwrap(), '\u{e9}');
}

#[test]
fn read_delimited_at_end_is_empty() {
    let delims = space_tab_newline();
    let mut fp = make_fp("  ");
    assert_eq!(fp.read_delimited(&delims).unwrap(), "");
    assert!(fp.at_end());
}

#[test]
fn read_until_space_reads_a_token() {
    let mut fp = make_fp("ab cd");
    assert_eq!(fp.read_until_space().unwrap(), "ab");
    fp.skip_spaces();
    assert_eq!(fp.offset(), 3);
    assert_eq!(fp.read_until_space().unwrap(), "cd");
}
