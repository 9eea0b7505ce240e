use static_res::ident::{convert_string_to_ident, is_plain_identifier_text};

#[test]
fn token_carries_the_sanitized_text() {
    let ident = convert_string_to_ident("test.txt").unwrap();
    assert_eq!(ident.to_string(), "test_txt");
    let ident = convert_string_to_ident("my-file,v2.bin").unwrap();
    assert_eq!(ident.to_string(), "my_file_v2_bin");
}

#[test]
fn plain_names_pass_through() {
    assert_eq!(convert_string_to_ident("folder").unwrap().to_string(), "folder");
    assert_eq!(convert_string_to_ident("_1").unwrap().to_string(), "_1");
    assert_eq!(convert_string_to_ident("__").unwrap().to_string(), "__");
    assert_eq!(convert_string_to_ident("fn").unwrap().to_string(), "fn");
    assert_eq!(convert_string_to_ident("Z9_a").unwrap().to_string(), "Z9_a");
}

#[test]
fn names_that_only_sanitizing_makes_plain() {
    assert_eq!(convert_string_to_ident(".hidden").unwrap().to_string(), "_hidden");
    assert_eq!(convert_string_to_ident(".1").unwrap().to_string(), "_1");
    assert_eq!(convert_string_to_ident("a.-,b").unwrap().to_string(), "a___b");
}

#[test]
fn no_token_for_text_that_is_no_identifier() {
    assert!(convert_string_to_ident("").is_none());
    assert!(convert_string_to_ident("1abc").is_none());
    assert!(convert_string_to_ident("123").is_none());
    assert!(convert_string_to_ident("1.txt").is_none());
    assert!(convert_string_to_ident("with space").is_none());
    assert!(convert_string_to_ident("a+b").is_none());
    assert!(convert_string_to_ident("a/b").is_none());
}

#[test]
fn no_token_for_text_that_is_left_to_the_compiler() {
    assert!(convert_string_to_ident("_").is_none());
    assert!(convert_string_to_ident("-").is_none());
    assert!(convert_string_to_ident("Grüße.txt").is_none());
    assert!(convert_string_to_ident("e\u{301}").is_none());
    assert!(convert_string_to_ident("名前").is_none());
}

#[test]
fn plain_identifiers_are_told_apart() {
    assert!(is_plain_identifier_text("a"));
    assert!(is_plain_identifier_text("Z"));
    assert!(is_plain_identifier_text("a1"));
    assert!(is_plain_identifier_text("_a"));
    assert!(is_plain_identifier_text("__"));
    assert!(is_plain_identifier_text("_0"));
    assert!(is_plain_identifier_text("test_txt"));
    assert!(is_plain_identifier_text("a0123456789"));
    assert!(!is_plain_identifier_text(""));
    assert!(!is_plain_identifier_text("_"));
    assert!(!is_plain_identifier_text("0"));
    assert!(!is_plain_identifier_text("42"));
    assert!(!is_plain_identifier_text("4a"));
    assert!(!is_plain_identifier_text("a.b"));
    assert!(!is_plain_identifier_text("a-b"));
    assert!(!is_plain_identifier_text("a b"));
    assert!(!is_plain_identifier_text(" a"));
    assert!(!is_plain_identifier_text("a "));
    assert!(!is_plain_identifier_text("é"));
    assert!(!is_plain_identifier_text("aé"));
}

#[test]
fn characters_next_to_the_plain_ones_are_refused() {
    for ch in ['@', '[', '`', '{', '/', ':'] {
        assert!(!is_plain_identifier_text(&ch.to_string()));
        assert!(!is_plain_identifier_text(&format!("a{}", ch)));
    }
    for ch in ['A', 'Z', 'a', 'z'] {
        assert!(is_plain_identifier_text(&ch.to_string()));
    }
    for ch in ['0', '9', '_'] {
        assert!(is_plain_identifier_text(&format!("a{}", ch)));
    }
}
