use bwlimit::text::{
    chars_of, contains, decimal_chars, lines, parse_digits_capped, parse_u64, split, starts_with, trimmed,
};

fn s(v: &[char]) -> String {
    v.iter().collect()
}

fn all(v: &[Vec<char>]) -> Vec<String> {
    v.iter().map(|x| s(x)).collect()
}

#[test]
fn lines_follow_std() {
    for text in ["", "a", "a\n", "a\r\nb", "a\r\r\nb\r", "\n\n", "x\ny\n\nz", "end\r"] {
        let expected: Vec<String> = text.lines().map(|l| l.to_string()).collect();
        assert_eq!(all(&lines(&chars_of(text))), expected, "text {:?}", text);
    }
}

#[test]
fn split_follows_std() {
    for text in ["", ",", "a,b", ",a,,b,", "no commas"] {
        let expected: Vec<String> = text.split(',').map(|l| l.to_string()).collect();
        assert_eq!(all(&split(&chars_of(text), ',')), expected, "text {:?}", text);
    }
}

#[test]
fn trimmed_follows_std() {
    for text in ["", "  ", " a b ", "\t\u{a0}x\u{3000}\n", "\u{85}y\u{2009}", "plain"] {
        assert_eq!(s(&trimmed(&chars_of(text))), text.trim(), "text {:?}", text);
    }
}

#[test]
fn parse_u64_follows_std() {
    for text in ["0", "42", "+7", "-1", "", "+", "12a", "18446744073709551615",
        "18446744073709551616", "007", " 1", "١"] {
        assert_eq!(parse_u64(&chars_of(text)), text.parse::<u64>().ok(), "text {:?}", text);
    }
}

#[test]
fn parse_digits_capped_reads_bare_digits() {
    assert_eq!(parse_digits_capped(&chars_of(""), 100), Some(0));
    assert_eq!(parse_digits_capped(&chars_of("0099"), 100), Some(99));
    assert_eq!(parse_digits_capped(&chars_of("100"), 100), Some(100));
    assert_eq!(parse_digits_capped(&chars_of("101"), 100), Some(101));
    assert_eq!(parse_digits_capped(&chars_of("99999999999999999999999999999999999999999"), 100), Some(101));
    assert_eq!(parse_digits_capped(&chars_of("+1"), 100), None);
    assert_eq!(parse_digits_capped(&chars_of("9999999999999999999999x"), 100), None);
}

#[test]
fn decimal_chars_follow_display() {
    for n in [0u64, 7, 10, 99, 100, 1234567890, u64::MAX] {
        assert_eq!(s(&decimal_chars(n)), n.to_string());
    }
}

#[test]
fn searching() {
    assert!(contains(&chars_of("login items: Foo, BwLimit"), &chars_of("BwLimit")));
    assert!(!contains(&chars_of("BwLimi"), &chars_of("BwLimit")));
    assert!(contains(&chars_of("abc"), &chars_of("")));
    assert!(starts_with(&chars_of("Device: en0"), &chars_of("Device: ")));
    assert!(!starts_with(&chars_of("Dev"), &chars_of("Device: ")));
}
