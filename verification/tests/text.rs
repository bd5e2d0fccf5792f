use gauge::text::{contains, split_once, starts_with, str_eq, strip_prefix, trim_str};

#[test]
fn trim_matches_std_whitespace() {
    for s in ["  a b  ", "\u{2003}x\u{85}", "", "   ", "\u{200B}z"] {
        assert_eq!(trim_str(s), s.trim());
    }
}

#[test]
fn substring_and_prefix_helpers() {
    assert!(contains("permission_group", "group"));
    assert!(contains("abc", ""));
    assert!(!contains("ab", "abc"));
    assert!(starts_with("user:x", "user:"));
    assert!(!starts_with("use", "user:"));
    assert_eq!(strip_prefix("user:x", "user:"), Some("x".to_string()));
    assert_eq!(strip_prefix("x", "user:"), None);
    assert_eq!(split_once("a:b:c", ':'), Some(("a".to_string(), "b:c".to_string())));
    assert_eq!(split_once("abc", ':'), None);
    assert!(str_eq("é", "é"));
    assert!(!str_eq("a", "b"));
}
