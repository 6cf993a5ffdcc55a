use kenlmrs::utils::pieces::tokenize::{
    trim, AnyCharacter, AnyCharacterLast, BoolCharacter, MultiCharacter, SingleCharacter, StringPiece,
    TokenIter,
};

fn space_table() -> [bool; 256] {
    let mut t = [false; 256];
    for &c in b" \t\n\r" {
        t[c as usize] = true;
    }
    t
}

#[test]
fn test_trim_basic() {
    let spaces = space_table();
    assert_eq!(trim("  hello  ", &spaces), "hello");
    assert_eq!(trim("hello", &spaces), "hello");
    assert_eq!(trim("", &spaces), "");
    assert_eq!(trim("  ", &spaces), "");
}

#[test]
fn test_trim_tabs_and_newlines() {
    let spaces = space_table();
    assert_eq!(trim("\thello\n", &spaces), "hello");
}

#[test]
fn test_single_character_find_present() {
    let finder = SingleCharacter::new(' ');
    let result = finder.find("hello world");
    assert_eq!(result.data, " ");
}

#[test]
fn test_single_character_find_absent() {
    let finder = SingleCharacter::new('x');
    let result = finder.find("hello");
    assert_eq!(result.data, ""); // returns empty slice at end
}

#[test]
fn test_multi_character_find_present() {
    let finder = MultiCharacter::new(StringPiece::new("or"));
    let result = finder.find("hello world");
    assert_eq!(result.data, "or");
}

#[test]
fn test_multi_character_find_absent() {
    let finder = MultiCharacter::new(StringPiece::new("xyz"));
    let result = finder.find("hello");
    assert_eq!(result.data, "");
}

#[test]
fn test_any_character_find_first_match() {
    // AnyCharacter searches for the `chars` string as a substring
    let finder = AnyCharacter::new(StringPiece::new("ell")); // look for "ell" in input
    let result = finder.find("hello world");
    // "ell" found at pos 1 → returns 1-char slice starting there
    assert_eq!(result.data, "e");
}

#[test]
fn test_any_character_find_absent() {
    let finder = AnyCharacter::new(StringPiece::new("xyz"));
    let result = finder.find("hello");
    assert_eq!(result.data, "", "not found → empty slice at end");
}

#[test]
fn test_bool_character_find() {
    let mut delims = [false; 256];
    BoolCharacter::build(" ,", &mut delims);
    let finder = BoolCharacter::new(&delims);

    let result = finder.find("hello, world");
    assert_eq!(result.data, ",");
}

#[test]
fn test_bool_character_find_absent() {
    let delims = [false; 256];
    let finder = BoolCharacter::new(&delims);
    let result = finder.find("hello");
    assert_eq!(result.data, "");
}

#[test]
fn test_any_character_last_find() {
    let finder = AnyCharacterLast::new(StringPiece::new("l"));
    let result = finder.find("hello");
    // rfind of 'l' in "hello" → index 3
    assert_eq!(result.data, "l");
}

#[test]
fn test_token_iter_basic() {
    let input: &'static str = "hello world foo";
    let finder = SingleCharacter::new(' ');
    let f = move |s: &'static str| finder.find(s);
    let mut iter = TokenIter::new::<()>(input, f, true);
    let mut tokens = Vec::new();
    while let Some(t) = iter.next() {
        tokens.push(t);
    }
    let words: Vec<&str> = tokens.iter().map(|t| t.data).collect();
    assert_eq!(words, vec!["hello", "world", "foo"]);
}

#[test]
fn finders_record_where_they_found() {
    assert_eq!(SingleCharacter::new(' ').find("ab cd").offset, 2);
    assert_eq!(SingleCharacter::new('x').find("abc").offset, 3);
    assert_eq!(MultiCharacter::new(StringPiece::new("cd")).find("abcd").offset, 2);
    assert_eq!(AnyCharacterLast::new(StringPiece::new("l")).find("hello").offset, 3);
}

#[test]
fn token_iter_skips_runs_of_delimiters() {
    let finder = MultiCharacter::new(StringPiece::new("--"));
    let f = move |s: &'static str| finder.find(s);
    let mut iter = TokenIter::new::<()>("a----b--c", f, true);
    let mut words = Vec::new();
    while let Some(t) = iter.next() {
        words.push(t.data);
    }
    assert_eq!(words, vec!["a", "b", "c"]);
}

#[test]
fn trim_with_a_custom_table() {
    let mut table = [false; 256];
    BoolCharacter::build("x", &mut table);
    assert_eq!(trim("xxaxbxx", &table), "axb");
    assert!(table[b'x' as usize] && !table[b'a' as usize]);
}
