use splatrs::text::{decimal_string, parse_usize, split_lines_of, split_whitespace_of};

fn chars(s: &str) -> Vec<char> {
    s.chars().collect()
}

#[test]
fn parses_usize_like_std() {
    assert_eq!(parse_usize(&chars("42")), Some(42));
    assert_eq!(parse_usize(&chars("+7")), Some(7));
    assert_eq!(parse_usize(&chars("")), None);
    assert_eq!(parse_usize(&chars("+")), None);
    assert_eq!(parse_usize(&chars("-1")), None);
    assert_eq!(parse_usize(&chars("1x")), None);
    assert_eq!(parse_usize(&chars("99999999999999999999999")), None);
}

#[test]
fn splits_words_on_unicode_whitespace() {
    let words = split_whitespace_of(&chars("  a\tbc\u{3000}d \r\n"));
    assert_eq!(words, vec![chars("a"), chars("bc"), chars("d")]);
}

#[test]
fn splits_lines_on_line_feeds() {
    let lines = split_lines_of(&chars("a\nb\n\nc"));
    assert_eq!(lines, vec![chars("a"), chars("b"), chars(""), chars("c")]);
}

#[test]
fn writes_decimal_numbers() {
    assert_eq!(decimal_string(0), "0");
    assert_eq!(decimal_string(1234567890), "1234567890");
    assert_eq!(decimal_string(u64::MAX), "18446744073709551615");
}
