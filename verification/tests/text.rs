use money_core::text::{
    align_left, align_right, fmt_cents, join_comma, parse_i64, parse_u32, str_contains, trim,
};

#[test]
fn integer_text_like_std_parse() {
    assert_eq!(parse_i64("42"), Some(42));
    assert_eq!(parse_i64("+42"), Some(42));
    assert_eq!(parse_i64("-0042"), Some(-42));
    assert_eq!(parse_i64("-9223372036854775808"), Some(i64::MIN));
    assert_eq!(parse_i64("9223372036854775807"), Some(i64::MAX));
    assert_eq!(parse_i64("9223372036854775808"), None);
    assert_eq!(parse_i64("-"), None);
    assert_eq!(parse_i64(""), None);
    assert_eq!(parse_i64("1x"), None);
    assert_eq!(parse_u32("+7"), Some(7));
    assert_eq!(parse_u32("-7"), None);
    assert_eq!(parse_u32("4294967295"), Some(u32::MAX));
    assert_eq!(parse_u32("4294967296"), None);
    for s in ["0", "17", "+3", "-3", "x", "", "99999999999"] {
        assert_eq!(parse_u32(s), s.parse::<u32>().ok());
        assert_eq!(parse_i64(s), s.parse::<i64>().ok());
    }
}

#[test]
fn trimming_unicode_white_space() {
    assert_eq!(trim("  hoy \t"), "hoy");
    assert_eq!(trim("\u{3000}ayer\u{00A0}"), "ayer");
    assert_eq!(trim("   "), "");
    assert_eq!(trim("a b"), "a b");
    for s in [" x ", "\n\r y", "z", "", "\u{2003}w\u{205F}"] {
        assert_eq!(trim(s), s.trim());
    }
}

#[test]
fn substring_search_and_joining() {
    assert!(str_contains("error: invalid_grant here", "invalid_grant"));
    assert!(!str_contains("invalid", "invalid_grant"));
    assert!(str_contains("abc", ""));
    assert_eq!(join_comma(&["a".to_string(), "b".to_string(), "c".to_string()]), "a, b, c");
    assert_eq!(join_comma(&[]), "");
}

#[test]
fn columns_and_money() {
    assert_eq!(align_left("ab", 4), "ab  ");
    assert_eq!(align_right("ab", 4), "  ab");
    assert_eq!(align_left("abcdef", 4), "abcdef");
    assert_eq!(fmt_cents(35050), "350.50");
    assert_eq!(fmt_cents(-5), "-0.05");
    assert_eq!(fmt_cents(0), "0.00");
}
