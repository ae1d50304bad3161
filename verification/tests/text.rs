use score_sync::text::{
    decimal_len, parse_trimmed_i32, parse_trimmed_u32, parse_trimmed_u8, push_decimal, push_padded_decimal,
    push_signed_decimal, str_to_chars, string_from_chars, trim_bounds,
};

#[test]
fn decimals() {
    let mut s = String::new();
    push_decimal(&mut s, 0);
    push_decimal(&mut s, 907);
    assert_eq!(s, "0907");
    let mut t = String::from("x");
    push_padded_decimal(&mut t, 7, 3);
    push_padded_decimal(&mut t, 12345, 3);
    assert_eq!(t, "x00712345");
    let mut u = String::new();
    push_signed_decimal(&mut u, -42);
    push_signed_decimal(&mut u, i64::MIN);
    assert_eq!(u, format!("-42{}", i64::MIN));
    assert_eq!(decimal_len(0), 1);
    assert_eq!(decimal_len(99), 2);
    assert_eq!(decimal_len(u128::MAX), 39);
}

#[test]
fn parsing_matches_std() {
    for s in ["42", " 42 ", "+7", "-0", "-2147483648", "2147483648", "", " ", "1 2", "0x1", "٣", "\u{3000}5\u{3000}"] {
        assert_eq!(parse_trimmed_i32(s), s.trim().parse::<i32>().ok(), "{s:?}");
        assert_eq!(parse_trimmed_u32(s), s.trim().parse::<u32>().ok(), "{s:?}");
        assert_eq!(parse_trimmed_u8(s), s.trim().parse::<u8>().ok(), "{s:?}");
    }
    assert_eq!(parse_trimmed_u8("255"), Some(255));
    assert_eq!(parse_trimmed_u8("256"), None);
    assert_eq!(parse_trimmed_u32("4294967295"), Some(u32::MAX));
}

#[test]
fn trimming_matches_std() {
    for s in ["  a b  ", "\t\n x\u{a0}", "", "   ", "abc"] {
        let v = str_to_chars(s);
        let (lo, hi) = trim_bounds(&v);
        assert_eq!(string_from_chars(&v[lo..hi]), s.trim());
    }
}
