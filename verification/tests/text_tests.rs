use rgrab::text::{
    i64_to_string, is_alphanumeric, is_whitespace, parse_i64, str_eq, to_lowercase, to_uppercase,
    usize_to_string,
};

#[test]
fn integers_parse_like_i64_from_str() {
    assert_eq!(parse_i64("0"), Some(0));
    assert_eq!(parse_i64("+42"), Some(42));
    assert_eq!(parse_i64("-9223372036854775808"), Some(i64::MIN));
    assert_eq!(parse_i64("9223372036854775807"), Some(i64::MAX));
    assert_eq!(parse_i64("9223372036854775808"), None);
    assert_eq!(parse_i64(""), None);
    assert_eq!(parse_i64("-"), None);
    assert_eq!(parse_i64(" 1"), None);
    assert_eq!(parse_i64("1_000"), None);
}

#[test]
fn integers_print_in_decimal() {
    assert_eq!(i64_to_string(0), "0");
    assert_eq!(i64_to_string(-120), "-120");
    assert_eq!(i64_to_string(i64::MIN), "-9223372036854775808");
    assert_eq!(usize_to_string(1234567), "1234567");
}

#[test]
fn whitespace_is_exactly_the_unicode_white_space_set() {
    for code in 0u32..=0x10FFFF {
        if let Some(c) = char::from_u32(code) {
            assert_eq!(is_whitespace(c), c.is_whitespace(), "U+{:04X}", code);
        }
    }
    assert!(is_whitespace(' '));
    assert!(is_whitespace('\t'));
    assert!(is_whitespace('\n'));
    assert!(is_whitespace('\u{3000}'));
    assert!(!is_whitespace('\u{200b}'));
    assert!(!is_whitespace('a'));
}

#[test]
fn alphanumeric_in_ascii_is_letters_and_digits() {
    for code in 0u32..128 {
        let c = char::from_u32(code).unwrap();
        assert_eq!(is_alphanumeric(c), c.is_ascii_alphanumeric(), "U+{:04X}", code);
    }
    assert!(is_alphanumeric('a'));
    assert!(is_alphanumeric('Z'));
    assert!(is_alphanumeric('7'));
    assert!(!is_alphanumeric('_'));
    assert!(!is_alphanumeric('='));
    assert!(!is_alphanumeric(' '));
    assert!(is_alphanumeric('京'));
}

#[test]
fn no_whitespace_is_alphanumeric() {
    for code in 0u32..=0x10FFFF {
        if let Some(c) = char::from_u32(code) {
            if is_whitespace(c) {
                assert!(!is_alphanumeric(c), "U+{:04X}", code);
            }
        }
    }
}

#[test]
fn case_mapping_of_ascii_changes_only_letters() {
    assert_eq!(to_uppercase("error: code=42, path=/a_b"), "ERROR: CODE=42, PATH=/A_B");
    assert_eq!(to_lowercase("WARN: Code=42, Path=/A_B"), "warn: code=42, path=/a_b");
    assert_eq!(to_uppercase("TRACE"), "TRACE");
    assert_eq!(to_lowercase("info"), "info");
    let all: String = (0u8..128).map(|b| b as char).collect();
    assert_eq!(to_uppercase(&all), all.to_ascii_uppercase());
    assert_eq!(to_lowercase(&all), all.to_ascii_lowercase());
}

#[test]
fn case_mapping_beyond_ascii_follows_unicode() {
    assert_eq!(to_uppercase("straße"), "STRASSE");
    assert_eq!(to_lowercase("ÅNGSTRÖM"), "ångström");
}

#[test]
fn strings_are_equal_when_their_characters_are() {
    assert!(str_eq("", ""));
    assert!(str_eq("héllo", "héllo"));
    assert!(!str_eq("héllo", "hello"));
    assert!(!str_eq("abc", "ab"));
    assert!(!str_eq("", "a"));
}
