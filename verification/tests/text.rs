use saba::text::{is_whitespace, parse_u16, split_limited, split_on, trim_str, words_of};

#[test]
fn trims_unicode_whitespace() {
    assert_eq!(trim_str(" \t a b \u{3000}\r\n"), "a b");
    assert_eq!(trim_str("   "), "");
    assert!(is_whitespace('\u{85}'));
    assert!(!is_whitespace('x'));
}

#[test]
fn splits_with_and_without_limit() {
    assert_eq!(split_limited("a,b,c,d", ',', 3), vec!["a", "b", "c,d"]);
    assert_eq!(split_limited("", ',', 6), vec![""]);
    assert_eq!(split_limited("a,b", ',', 0), Vec::<&str>::new());
    assert_eq!(split_on("a\n\nb\n", '\n'), vec!["a", "", "b", ""]);
}

#[test]
fn splits_words() {
    assert_eq!(words_of("  one two\tthree  "), vec!["one", "two", "three"]);
    assert!(words_of(" \t ").is_empty());
}

#[test]
fn parses_16_bit_numbers() {
    assert_eq!(parse_u16("0"), Some(0));
    assert_eq!(parse_u16("+42"), Some(42));
    assert_eq!(parse_u16("65535"), Some(65535));
    assert_eq!(parse_u16("65536"), None);
    assert_eq!(parse_u16("-1"), None);
    assert_eq!(parse_u16("+"), None);
    assert_eq!(parse_u16(""), None);
    assert_eq!(parse_u16("1a"), None);
    assert_eq!(parse_u16("0000000000000012"), Some(12));
}
