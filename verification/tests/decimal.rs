use lrust::decimal::{decimal_text, parse_usize, right_aligned_decimal};
use lrust::text::{chars_of, string_of};

fn text(v: &[char]) -> String {
    v.iter().collect()
}

#[test]
fn decimal_rendering() {
    assert_eq!(text(&decimal_text(0)), "0");
    assert_eq!(text(&decimal_text(907)), "907");
    assert_eq!(text(&decimal_text(u64::MAX)), "18446744073709551615");
    assert_eq!(text(&right_aligned_decimal(42, 6)), "    42");
    assert_eq!(text(&right_aligned_decimal(1234567, 6)), "1234567");
}

#[test]
fn decimal_parsing() {
    let p = |s: &str| parse_usize(&s.chars().collect::<Vec<char>>());
    assert_eq!(p("17"), Some(17));
    assert_eq!(p("+5"), Some(5));
    assert_eq!(p("007"), Some(7));
    assert_eq!(p(""), None);
    assert_eq!(p("+"), None);
    assert_eq!(p("-1"), None);
    assert_eq!(p("1x"), None);
    assert_eq!(p(" 1"), None);
    assert_eq!(p(&usize::MAX.to_string()), Some(usize::MAX));
    assert_eq!(p("99999999999999999999999"), None);
}

#[test]
fn text_round_trip() {
    let v = chars_of("h\u{e9}llo");
    assert_eq!(v, vec!['h', '\u{e9}', 'l', 'l', 'o']);
    assert_eq!(string_of(&v), "h\u{e9}llo");
}

#[test]
fn decimal_round_trip() {
    for n in [0u64, 9, 10, 65535, 4294967296] {
        assert_eq!(parse_usize(&decimal_text(n)), Some(n as usize));
    }
}
