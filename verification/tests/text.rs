use lakeside::decimal::u64_to_decimal;
use lakeside::text::{
    char_is_whitespace, chars_eq_ignore_ascii_case, chars_lex_le, chars_of, string_from_chars, trim,
};

#[test]
fn whitespace_table_matches_std() {
    for n in 0u32..=0x10FFFF {
        if let Some(c) = char::from_u32(n) {
            assert_eq!(char_is_whitespace(c), c.is_whitespace(), "U+{:04X}", n);
        }
    }
}

#[test]
fn trim_matches_std() {
    for s in ["  abc ", "\t\n x y \u{3000}", "", "   ", "abc", "\u{a0}a\u{2009}"] {
        assert_eq!(trim(s), s.trim());
    }
}

#[test]
fn chars_round_trip() {
    let s = "Grill & Chill ⚡";
    let cs = chars_of(s);
    assert_eq!(cs.len(), s.chars().count());
    assert_eq!(string_from_chars(&cs), s);
}

#[test]
fn ascii_case_insensitive_equality() {
    let eq = |a: &str, b: &str| chars_eq_ignore_ascii_case(&chars_of(a), &chars_of(b));
    assert!(eq("Ticket_Code", "ticket_code"));
    assert!(!eq("ticket", "tickets"));
    assert!(!eq("Ä", "ä"));
    for (a, b) in [("ABC", "abc"), ("x1", "X2"), ("", "")] {
        assert_eq!(eq(a, b), a.eq_ignore_ascii_case(b));
    }
}

#[test]
fn lexicographic_order_matches_string_order() {
    let words = ["", "A", "AB", "B", "a", "ä", "Z9", "Z10", "€", "😀"];
    for a in words {
        for b in words {
            let le = chars_lex_le(&chars_of(a), &chars_of(b));
            assert_eq!(le, a.to_string() <= b.to_string(), "{a:?} {b:?}");
        }
    }
}

#[test]
fn decimal_text_matches_display() {
    for n in [0u64, 7, 10, 42, 1212, 99999, u64::MAX] {
        assert_eq!(u64_to_decimal(n), n.to_string());
    }
}
