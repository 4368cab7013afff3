use hex_grid::text::{is_space_byte, parse_digits, parse_number, push_decimal, split_lines, split_words};

fn words_of(line: &str) -> Vec<String> {
    split_words(line.as_bytes()).iter().map(|w| String::from_utf8(w.to_vec()).unwrap()).collect()
}

fn lines_of(text: &str) -> Vec<String> {
    split_lines(text.as_bytes()).iter().map(|w| String::from_utf8(w.to_vec()).unwrap()).collect()
}

#[test]
fn white_space_bytes() {
    for b in [b' ', b'\t', b'\n', 0x0b, 0x0c, b'\r'] {
        assert!(is_space_byte(b));
    }
    for b in [0u8, 0x08, 0x0e, 0x1f, b'0', b'a', 0x85, 0xa0, 0xff] {
        assert!(!is_space_byte(b));
    }
}

#[test]
fn words_are_runs_without_white_space() {
    assert_eq!(words_of("1 2 3"), vec!["1", "2", "3"]);
    assert_eq!(words_of("  alpha\t\tbeta \r"), vec!["alpha", "beta"]);
    assert_eq!(words_of("one"), vec!["one"]);
    assert_eq!(words_of(""), Vec::<String>::new());
    assert_eq!(words_of(" \t "), Vec::<String>::new());
    assert_eq!(words_of("a b"), vec!["a", "b"]);
    assert_eq!(words_of("x "), vec!["x"]);
    assert_eq!(words_of(" x"), vec!["x"]);
}

#[test]
fn lines_end_at_line_feeds() {
    assert_eq!(lines_of("a\nb\nc"), vec!["a", "b", "c"]);
    assert_eq!(lines_of("a\nb\nc\n"), vec!["a", "b", "c"]);
    assert_eq!(lines_of(""), Vec::<String>::new());
    assert_eq!(lines_of("\n"), vec![""]);
    assert_eq!(lines_of("\n\n"), vec!["", ""]);
    assert_eq!(lines_of("a\n\nb"), vec!["a", "", "b"]);
    assert_eq!(lines_of("a\r\nb"), vec!["a\r", "b"]);
    assert_eq!(lines_of("no feed"), vec!["no feed"]);
}

#[test]
fn digits_only_numbers() {
    assert_eq!(parse_digits(b"0", 10), Some(0));
    assert_eq!(parse_digits(b"10", 10), Some(10));
    assert_eq!(parse_digits(b"11", 10), None);
    assert_eq!(parse_digits(b"0000000000000000000000000007", 10), Some(7));
    assert_eq!(parse_digits(b"18446744073709551615", u64::MAX), Some(u64::MAX));
    assert_eq!(parse_digits(b"18446744073709551616", u64::MAX), None);
    assert_eq!(parse_digits(b"99999999999999999999999999", u64::MAX), None);
    assert_eq!(parse_digits(b"", u64::MAX), None);
    assert_eq!(parse_digits(b"+1", u64::MAX), None);
    assert_eq!(parse_digits(b"-1", u64::MAX), None);
    assert_eq!(parse_digits(b"1a", u64::MAX), None);
    assert_eq!(parse_digits(b"a1", u64::MAX), None);
    assert_eq!(parse_digits(b"1 ", u64::MAX), None);
    assert_eq!(parse_digits(b"5", 0), None);
    assert_eq!(parse_digits(b"0", 0), Some(0));
    assert_eq!(parse_digits(b"12345", 12345), Some(12345));
    assert_eq!(parse_digits(b"12346", 12345), None);
}

#[test]
fn numbers_with_an_optional_plus() {
    assert_eq!(parse_number(b"42", 100), Some(42));
    assert_eq!(parse_number(b"+42", 100), Some(42));
    assert_eq!(parse_number(b"+", 100), None);
    assert_eq!(parse_number(b"++1", 100), None);
    assert_eq!(parse_number(b"-1", 100), None);
    assert_eq!(parse_number(b"", 100), None);
    assert_eq!(parse_number(b"+101", 100), None);
    assert_eq!(parse_number(b"1+", 100), None);
}

#[test]
fn decimal_digits_are_appended() {
    let mut out = b"n=".to_vec();
    push_decimal(&mut out, 0);
    push_decimal(&mut out, 7);
    push_decimal(&mut out, 10);
    push_decimal(&mut out, 9090);
    push_decimal(&mut out, u64::MAX);
    assert_eq!(out, b"n=0710909018446744073709551615".to_vec());
}

#[test]
fn written_numbers_read_back() {
    for n in [0u64, 1, 9, 10, 99, 100, 12345, 4294967295, 4294967296, u64::MAX] {
        let mut out = Vec::new();
        push_decimal(&mut out, n);
        assert_eq!(parse_digits(&out, u64::MAX), Some(n));
    }
}
