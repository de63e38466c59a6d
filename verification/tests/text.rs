use interceptor_rs::text::{
    append_decimal, append_decimal_int, chars_of, contains, find_char, parse_unsigned, rfind_char,
    same_text, starts_with, trimmed, IntError,
};

fn text_of(v: &[char]) -> String {
    v.iter().collect()
}

#[test]
fn texts_are_searched_by_character() {
    let v = chars_of("a\u{e9}:b:c");
    assert_eq!(text_of(&v), "a\u{e9}:b:c");
    assert_eq!(find_char(&v, ':', 0), 2);
    assert_eq!(find_char(&v, ':', 3), 4);
    assert_eq!(find_char(&v, '/', 0), 6);
    assert_eq!(rfind_char(&v, ':'), Some(4));
    assert_eq!(rfind_char(&v, '/'), None);
    assert!(starts_with("abc", "ab"));
    assert!(starts_with("abc", ""));
    assert!(!starts_with("ab", "abc"));
    assert!(contains("a broken pipe", "broken pipe"));
    assert!(contains("", ""));
    assert!(!contains("broken pip", "broken pipe"));
    assert!(same_text("x", "x") && !same_text("x", "X"));
}

#[test]
fn white_space_is_trimmed_on_both_sides() {
    assert_eq!(text_of(&trimmed(&chars_of("\u{2003} 7 s\t\n"))), "7 s");
    assert_eq!(text_of(&trimmed(&chars_of("  "))), "");
}

#[test]
fn unsigned_integers_are_read_as_std_reads_them() {
    for s in [
        "", "+", "-", "0", "-0", "+7", "007", "65535", "65536", "65536x", "6553x", "x65536", " 1",
        "18446744073709551615", "18446744073709551616", "99999999999999999999x",
    ] {
        let v = chars_of(s);
        assert_eq!(parse_unsigned(&v, 65535).ok(), s.parse::<u16>().ok().map(u64::from), "{s}");
        assert_eq!(parse_unsigned(&v, u64::MAX).ok(), s.parse::<u64>().ok(), "{s}");
    }
    assert_eq!(parse_unsigned(&chars_of(""), 9), Err(IntError::Empty));
    assert_eq!(parse_unsigned(&chars_of("1x"), 9), Err(IntError::InvalidDigit));
    assert_eq!(parse_unsigned(&chars_of("10"), 9), Err(IntError::PosOverflow));
}

#[test]
fn decimals_are_written_as_std_writes_them() {
    for n in [0u64, 9, 10, 4096, u64::MAX] {
        let mut s = String::from("n=");
        append_decimal(&mut s, n);
        assert_eq!(s, format!("n={n}"));
    }
    for n in [0i32, -1, i32::MIN, i32::MAX] {
        let mut s = String::new();
        append_decimal_int(&mut s, n);
        assert_eq!(s, n.to_string());
    }
}
