use gorgon::text::{
    contains, join, parse_hex, push_decimal, push_hex_padded, push_signed, same_text, starts_with,
    strip_prefix,
};

fn written(f: impl Fn(&mut String)) -> String {
    let mut s = String::from(">");
    f(&mut s);
    s
}

#[test]
fn numbers_are_written() {
    assert_eq!(written(|s| push_decimal(s, 0)), ">0");
    assert_eq!(written(|s| push_decimal(s, u64::MAX)), ">18446744073709551615");
    assert_eq!(written(|s| push_signed(s, -42)), ">-42");
    assert_eq!(written(|s| push_signed(s, i64::MIN)), ">-9223372036854775808");
    assert_eq!(written(|s| push_hex_padded(s, 0xDEAD_BEEF, 10)), ">00deadbeef");
    assert_eq!(
        written(|s| push_hex_padded(s, u128::MAX, 32)),
        ">ffffffffffffffffffffffffffffffff"
    );
}

#[test]
fn hexadecimal_is_read_as_std_reads_it() {
    for s in ["0", "ff", "FF", "+1f", "", "+", "-1", "g", "00000000000000000000000000000000000001", "1_0"] {
        assert_eq!(parse_hex(s), u128::from_str_radix(s, 16).ok());
    }
    let most = "f".repeat(32);
    assert_eq!(parse_hex(&most), Some(u128::MAX));
    let more = "1".repeat(33);
    assert_eq!(parse_hex(&more), u128::from_str_radix(&more, 16).ok());
}

#[test]
fn texts_are_searched() {
    assert!(contains("plughw:ES9", "ES9") && contains("x", "") && !contains("ES", "ES9"));
    assert!(starts_with("plughw:x", "plughw:") && !starts_with("hw:x", "plughw:"));
    assert_eq!(strip_prefix("/cv/p", "/cv/"), Some("p".to_string()));
    assert_eq!(strip_prefix("/cv", "/cv/"), None);
    assert!(same_text("é", "é") && !same_text("a", "ab"));
    let parts: Vec<String> = vec!["a".to_string(), "b".to_string(), "c".to_string()];
    assert_eq!(join(&parts, ", "), "a, b, c");
    assert_eq!(join(&[], ", "), "");
}
