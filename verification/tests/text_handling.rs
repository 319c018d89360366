use hoppr::text::{chars_of, decimal_chars, parse_u32_chars, split_lines, string_of, trim_chars, split_once_chars, strip_leading_chars};

fn cs(s: &str) -> Vec<char> {
    s.chars().collect()
}

#[test]
fn trims_unicode_white_space() {
    assert_eq!(trim_chars(&cs(" \t a b \u{3000}\n")), cs("a b"));
    assert_eq!(trim_chars(&cs("   ")), cs(""));
    assert_eq!(trim_chars(&cs("x")), cs("x"));
}

#[test]
fn strips_all_leading_hashes() {
    assert_eq!(strip_leading_chars(&cs("### a#"), '#'), cs(" a#"));
}

#[test]
fn splits_at_the_first_colon() {
    let (a, b) = split_once_chars(&cs("a:b:c"), ':').unwrap();
    assert_eq!(a, cs("a"));
    assert_eq!(b, cs("b:c"));
    assert!(split_once_chars(&cs("abc"), ':').is_none());
}

#[test]
fn splits_lines_like_bufread() {
    let lines = split_lines(&cs("a\r\nb\n\nc"));
    assert_eq!(lines, vec![cs("a"), cs("b"), cs(""), cs("c")]);
    assert_eq!(split_lines(&cs("a\n")), vec![cs("a")]);
    assert_eq!(split_lines(&cs("a\r")), vec![cs("a\r")]);
    assert!(split_lines(&cs("")).is_empty());
}

#[test]
fn parses_u32_like_std() {
    for s in ["0", "42", "+42", "4294967295", "", "+", "-1", "4294967296", "1 ", "12a", "99999999999999999999"] {
        assert_eq!(parse_u32_chars(&cs(s)), s.parse::<u32>().ok(), "{}", s);
    }
}

#[test]
fn writes_decimal_numerals() {
    for n in [0u64, 7, 10, 1234, u64::MAX] {
        assert_eq!(string_of(&decimal_chars(n)), n.to_string());
    }
}

#[test]
fn chars_round_trip() {
    assert_eq!(string_of(&chars_of("héllo 🎉")), "héllo 🎉");
}
