use opennav::text::{
    contains_sub, encode_plus, find_sub, first_token_str, has_space_str, str_eq, str_leq,
    token_rest_str, trim_str,
};

#[test]
fn trimming_strips_both_ends_only() {
    assert_eq!(trim_str("  a b \t\n"), "a b");
    assert_eq!(trim_str("abc"), "abc");
    assert_eq!(trim_str("   "), "");
    assert_eq!(trim_str(""), "");
}

#[test]
fn first_token_skips_leading_blanks() {
    assert_eq!(first_token_str("  firefox %u"), "firefox");
    assert_eq!(first_token_str("firefox"), "firefox");
    assert_eq!(first_token_str("   "), "");
}

#[test]
fn token_rest_drops_token_and_separator() {
    assert_eq!(token_rest_str("gh rust lang"), "rust lang");
    assert_eq!(token_rest_str("gh   rust"), "rust");
    assert_eq!(token_rest_str("gh"), "");
}

#[test]
fn substring_search_finds_the_first_occurrence() {
    assert_eq!(find_sub("https://x.com", "://"), Some(5));
    assert_eq!(find_sub("a{}b{}c", "{}"), Some(1));
    assert_eq!(find_sub("plain", "://"), None);
    assert!(contains_sub("a://b", "://"));
    assert!(!contains_sub("ab", "://"));
}

#[test]
fn string_equality_is_by_characters() {
    assert!(str_eq("abc", "abc"));
    assert!(!str_eq("abc", "abd"));
    assert!(!str_eq("abc", "ab"));
    assert!(str_eq("", ""));
}

#[test]
fn lexicographic_order_is_by_scalar_value() {
    assert!(str_leq("Alpha", "Beta"));
    assert!(!str_leq("Beta", "Alpha"));
    assert!(str_leq("abc", "abc"));
    assert!(str_leq("ab", "abc"));
    assert!(!str_leq("abc", "ab"));
}

#[test]
fn query_encoding_turns_spaces_into_plus() {
    assert_eq!(encode_plus("rust lang book"), "rust+lang+book");
    assert_eq!(encode_plus("one"), "one");
    assert_eq!(encode_plus(""), "");
    assert_eq!(encode_plus("tab\there"), "tab\there");
}

#[test]
fn whitespace_detection_covers_the_blank_characters() {
    assert!(has_space_str("a b"));
    assert!(has_space_str("a\tb"));
    assert!(!has_space_str("a.b:c"));
}
