use kenlmrs::text::{is_entirely_whitespace, is_whitespace, parse_u64, split_whitespace, trim, trim_start};

#[test]
fn split_whitespace_matches_std() {
    for s in ["", "  ", "a", " a b  c ", "x\u{3000}y\u{a0}z", "tab\there\nnew"] {
        let ours = split_whitespace(s);
        let std: Vec<&str> = s.split_whitespace().collect();
        assert_eq!(ours, std);
    }
}

#[test]
fn trim_matches_std() {
    for s in ["", "   ", " a ", "\u{2028}é b\u{85}", "x"] {
        assert_eq!(trim(s), s.trim());
        assert_eq!(trim_start(s), s.trim_start());
    }
}

#[test]
fn parse_u64_matches_std() {
    for s in ["0", "42", "+7", "", "+", "-1", "1a", "18446744073709551615", "18446744073709551616", " 1", "٣"] {
        assert_eq!(parse_u64(s), s.parse::<u64>().ok(), "{s}");
    }
}

#[test]
fn whitespace_classes_match_std() {
    for u in 0u32..0x3100 {
        if let Some(c) = char::from_u32(u) {
            assert_eq!(is_whitespace(c), c.is_whitespace(), "{u:x}");
        }
    }
    assert!(is_entirely_whitespace(" \t\u{3000}"));
    assert!(!is_entirely_whitespace(" a "));
}
