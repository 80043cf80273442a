use rust_snell::text::{
    chars_of, decimal_string, find_first, find_last, first_line, has_prefix, is_text, numeral_chars, padded_string, parse_number,
    same_str, string_of, trimmed,
};

fn chars(s: &str) -> Vec<char> {
    s.chars().collect()
}

#[test]
fn characters_and_strings_convert() {
    assert_eq!(chars_of("aé中"), vec!['a', 'é', '中']);
    assert_eq!(string_of(&['a', 'é', '中']), "aé中");
    assert_eq!(string_of(&[]), "");
}

#[test]
fn white_space_is_trimmed_at_both_ends() {
    assert_eq!(string_of(trimmed(&chars("  a b\t\r\n"))), "a b");
    assert_eq!(string_of(trimmed(&chars("\u{3000}x\u{a0}\u{85}"))), "x");
    assert_eq!(string_of(trimmed(&chars(" \t "))), "");
    assert_eq!(string_of(trimmed(&chars("\u{200b}"))), "\u{200b}");
}

#[test]
fn positions_are_first_and_last() {
    let s = chars("a:b:c");
    assert_eq!(find_first(&s, ':'), 1);
    assert_eq!(find_first(&s, 'x'), 5);
    assert_eq!(find_last(&s, ':'), Some(3));
    assert_eq!(find_last(&s, 'x'), None);
}

#[test]
fn lines_end_with_either_line_end() {
    assert_eq!(first_line(&chars("ab\r\ncd")), (2, 4));
    assert_eq!(first_line(&chars("ab\ncd")), (2, 3));
    assert_eq!(first_line(&chars("ab\r")), (3, 3));
    assert_eq!(first_line(&chars("\n")), (0, 1));
}

#[test]
fn texts_compare() {
    assert!(same_str("tls", "tls"));
    assert!(!same_str("tls", "TLS"));
    assert!(!same_str("tls", "tl"));
    assert!(is_text(&chars("psk"), "psk"));
    assert!(has_prefix(&chars("Content-Length: 5"), "Content-Length:"));
    assert!(!has_prefix(&chars("Content"), "Content-Length:"));
}

#[test]
fn numbers_are_written() {
    assert_eq!(decimal_string(0), "0");
    assert_eq!(decimal_string(18446744073709551615), "18446744073709551615");
    assert_eq!(string_of(&numeral_chars(0xdeadbeef, 16)), "deadbeef");
    assert_eq!(string_of(&numeral_chars(5, 2)), "101");
    assert_eq!(padded_string(7, 2), "07");
    assert_eq!(padded_string(1970, 4), "1970");
    assert_eq!(padded_string(123, 2), "123");
}

#[test]
fn numbers_are_read() {
    assert_eq!(parse_number(&chars("0"), 10), Some(0));
    assert_eq!(parse_number(&chars("+65535"), 65535), Some(65535));
    assert_eq!(parse_number(&chars("0065535"), 65535), Some(65535));
    assert_eq!(parse_number(&chars("65536"), 65535), None);
    assert_eq!(parse_number(&chars(""), 65535), None);
    assert_eq!(parse_number(&chars("+"), 65535), None);
    assert_eq!(parse_number(&chars("-1"), 65535), None);
    assert_eq!(parse_number(&chars("1 "), 65535), None);
    assert_eq!(parse_number(&chars("18446744073709551616"), u64::MAX), None);
    for n in [0u64, 9, 10, 99, 12345, u64::MAX] {
        assert_eq!(parse_number(&chars(&decimal_string(n)), u64::MAX), Some(n));
    }
}
