use passman::text::{contains, hex_encode, starts_with, str_eq, take_chars, u64_decimal};

#[test]
fn hex_and_decimal() {
    assert_eq!(hex_encode(&[0x00, 0x0f, 0xa0, 0xff]), "000fa0ff");
    assert_eq!(hex_encode(&[]), "");
    assert_eq!(u64_decimal(0), "0");
    assert_eq!(u64_decimal(15), "15");
    assert_eq!(u64_decimal(u64::MAX), "18446744073709551615");
}

#[test]
fn text_searches() {
    assert!(contains("hello world", "o w"));
    assert!(contains("abc", ""));
    assert!(!contains("abc", "abcd"));
    assert!(starts_with("abcdef", "abc"));
    assert!(!starts_with("ab", "abc"));
    assert!(str_eq("é", "é"));
    assert!(!str_eq("a", "b"));
    assert_eq!(take_chars("ééé", 2), "éé");
    assert_eq!(take_chars("ab", 5), "ab");
}
