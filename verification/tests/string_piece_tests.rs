use kenlmrs::utils::pieces::string::StringPiece;

fn sp(s: &str) -> StringPiece<'_> {
    StringPiece::from_str(s)
}

#[test]
fn test_basic_size_and_empty() {
    assert!(StringPiece::new().empty());
    assert_eq!(StringPiece::new().size(), 0);
    assert_eq!(sp("hello").size(), 5);
    assert!(!sp("hello").empty());
}

#[test]
fn test_as_str_as_string() {
    assert_eq!(sp("world").as_str(), "world");
    assert_eq!(sp("world").as_string(), "world".to_string());
    assert_eq!(StringPiece::new().as_str(), "");
}

#[test]
fn test_clear() {
    let mut s = sp("data");
    s.clear();
    assert!(s.empty());
    assert!(s.data().is_none());
}

#[test]
fn test_set_from_str() {
    let mut s = StringPiece::new();
    s.set_from_str("new");
    assert_eq!(s.as_str(), "new");
}

#[test]
fn test_starts_with_ends_with() {
    let s = sp("Hello, World!");
    assert!(s.starts_with(&sp("Hello")));
    assert!(s.ends_with(&sp("World!")));
    assert!(!s.starts_with(&sp("World")));
    assert!(!s.ends_with(&sp("Hello")));
}

#[test]
fn test_find_char() {
    let s = sp("hello");
    assert_eq!(s.find_char('l', 0), Some(2));
    assert_eq!(s.find_char('l', 3), Some(3));
    assert_eq!(s.find_char('z', 0), None);
}

#[test]
fn test_find_substring() {
    let s = sp("abcabc");
    let pat = sp("bc");
    assert_eq!(s.find(&pat, 0), Some(1));
    assert_eq!(s.find(&pat, 2), Some(4));
    assert_eq!(s.find(&sp("xyz"), 0), None);
}

#[test]
fn test_rfind() {
    let s = sp("abcabc");
    let pat = sp("bc");
    let result = s.rfind(&pat, None);
    assert_eq!(result, Some(4));
}

#[test]
fn test_remove_prefix() {
    let mut s = sp("Hello, World!");
    s.remove_prefix(7); // removes "Hello, "
    assert_eq!(s.as_str(), "World!");
}

#[test]
fn test_remove_suffix() {
    let mut s = sp("Hello!");
    s.remove_suffix(1); // removes "!"
    assert_eq!(s.as_str(), "Hello");
}

#[test]
fn test_from_slice() {
    let s = StringPiece::from_slice("hello world", 5);
    assert_eq!(s.as_str(), "hello");
}

#[test]
fn test_compare_equal() {
    assert_eq!(sp("abc").compare(&sp("abc")), 0);
}

#[test]
fn test_compare_less() {
    // "abc" < "abd" lexicographically
    assert!(sp("abc").compare(&sp("abd")) < 0 || sp("abc").compare(&sp("abd")) <= 0);
}

#[test]
fn test_eq_ord_traits() {
    assert_eq!(sp("foo"), sp("foo"));
    assert_ne!(sp("foo"), sp("bar"));
    assert!(sp("abc") < sp("abd"));
    assert!(sp("abd") > sp("abc"));
}

#[test]
fn test_copy() {
    let s = sp("hello");
    let mut buf = vec![0u8; 5];
    let n = s.copy(&mut buf, 3, 0);
    assert_eq!(n, 3);
    assert_eq!(&buf[..3], b"hel");
}

#[test]
fn test_find_first_of() {
    let s = sp("hello world");
    let chars = sp("aeiou");
    let pos = s.find_first_of(&chars, 0);
    assert_eq!(pos, Some(1)); // 'e' at index 1
}

#[test]
fn test_find_last_not_of() {
    let s = sp("hello   ");
    let spaces = sp(" ");
    let pos = s.find_last_not_of(&spaces, None);
    assert_eq!(pos, Some(4)); // 'o' at index 4
}

#[test]
fn compare_orders_absent_text_first_and_by_length() {
    assert_eq!(StringPiece::new().compare(&sp("a")), -1);
    assert_eq!(sp("a").compare(&StringPiece::new()), 1);
    assert_eq!(StringPiece::new().compare(&StringPiece::new()), 0);
    assert_eq!(sp("ab").compare(&sp("abc")), -1);
    assert_eq!(sp("abd").compare(&sp("abc")), 1);
}

#[test]
fn slicing_off_a_character_boundary_loses_the_text() {
    // 'é' takes two bytes, so one byte does not end a character.
    assert!(StringPiece::from_slice("é", 1).data().is_none());
    assert_eq!(StringPiece::from_slice("é", 2).as_str(), "é");
    assert!(StringPiece::from_slice("abc", 4).data().is_none());
    let mut s = sp("éa");
    s.remove_prefix(1);
    assert!(s.data().is_none());
    let mut t = sp("aé");
    t.remove_suffix(1);
    assert!(t.data().is_none());
    let mut u = StringPiece::new();
    u.set("hello", 2);
    assert_eq!(u.as_str(), "he");
    assert_eq!(u.length(), 2);
}

#[test]
fn substr_takes_n_bytes_from_pos_clipped_at_the_end() {
    assert_eq!(sp("hello").substr(1, Some(3)).as_str(), "ell");
    let s = sp("abcdef");
    assert_eq!(s.substr(1, Some(3)).as_str(), "bcd");
    assert_eq!(s.substr(2, None).as_str(), "cdef");
    assert_eq!(s.substr(4, Some(10)).as_str(), "ef");
    assert_eq!(s.substr(6, None).as_str(), "");
    assert!(StringPiece::new().substr(0, None).data().is_none());
}

#[test]
fn copy_clamps_to_the_text_and_keeps_the_rest_of_the_buffer() {
    let s = sp("hello");
    let mut buf = [9u8; 4];
    assert_eq!(s.copy(&mut buf, 10, 3), 2);
    assert_eq!(buf, [b'l', b'o', 9, 9]);
    assert_eq!(StringPiece::new().copy(&mut buf, 3, 0), 0);
}

#[test]
fn searches_for_multibyte_characters_by_byte_offset() {
    let s = sp("aéb é");
    assert_eq!(s.find_char('é', 0), Some(1));
    assert_eq!(s.find_char('é', 3), Some(5));
    assert_eq!(s.rfind_char('é', None), Some(5));
    assert_eq!(s.rfind_char('é', Some(5)), Some(1));
    assert_eq!(s.find(&sp("é"), 3), Some(5));
    assert_eq!(s.find(&StringPiece::new(), 3), Some(3));
    assert_eq!(s.find(&sp("a"), 10), None);
}

#[test]
fn rfind_with_position_and_empty_pattern() {
    let s = sp("abcabc");
    assert_eq!(s.rfind(&sp("bc"), Some(3)), Some(1));
    assert_eq!(s.rfind(&sp(""), Some(2)), Some(2));
    assert_eq!(s.rfind(&sp(""), Some(99)), Some(6));
    assert_eq!(s.rfind(&sp("zz"), None), None);
    assert_eq!(StringPiece::new().rfind(&sp("a"), None), None);
}

#[test]
fn first_and_last_of_byte_sets() {
    let s = sp("hello world");
    assert_eq!(s.find_first_of(&sp("o"), 0), Some(4));
    assert_eq!(s.find_first_of(&sp("xyz"), 0), None);
    assert_eq!(s.find_first_of(&sp(""), 0), None);
    assert_eq!(s.find_last_of(&sp("lo"), None), Some(9));
    assert_eq!(s.find_last_of(&sp("o"), Some(7)), Some(4));
    assert_eq!(s.find_first_not_of(&sp("hel"), 0), Some(4));
    assert_eq!(s.find_first_not_of(&sp(""), 5), Some(0));
    assert_eq!(s.find_first_not_of(&sp("l"), 2), Some(2));
    assert_eq!(s.find_last_not_of(&sp("dl"), None), Some(8));
    assert_eq!(s.find_last_not_of(&sp(""), Some(3)), Some(3));
    assert_eq!(sp("ab").find_last_not_of(&sp("xy"), None), Some(1));
    assert_eq!(sp("ab").find_last_not_of(&sp("xy"), Some(0)), Some(0));
    assert_eq!(sp("abxy").find_last_not_of(&sp("xy"), Some(99)), Some(1));
    assert_eq!(sp("xyxy").find_last_not_of(&sp("xy"), None), None);
}

#[test]
fn character_runs_count_characters() {
    let s = sp("xxé");
    assert_eq!(s.find_first_not_of_char('x', 0), Some(2));
    assert_eq!(s.find_first_not_of_char('x', 1), Some(1));
    assert_eq!(sp("xxx").find_first_not_of_char('x', 0), None);
    assert_eq!(s.find_last_not_of_char('é', None), Some(1));
    assert_eq!(sp("aaa").find_last_not_of_char('a', None), None);
    assert_eq!(StringPiece::new().find_last_not_of_char('a', None), None);
    assert_eq!(StringPiece::NPOS, usize::MAX);
}

#[test]
fn compare_is_reflexive_and_antisymmetric() {
    let pieces = [StringPiece::new(), sp(""), sp("a"), sp("ab"), sp("abc"), sp("b")];
    for a in pieces.iter() {
        assert_eq!(a.compare(a), 0);
        for b in pieces.iter() {
            assert_eq!(a.compare(b), -b.compare(a));
        }
    }
    assert_eq!(StringPiece::new().compare(&sp("")), -1);
}
