use tangl::text::{
    char_is_whitespace, chars_of, join_text, remove_text, same_text, split_text, string_of,
    strip_chars, text_contains, text_ends_with, text_less, text_starts_with, trim_text,
};

#[test]
fn whitespace_is_what_std_trims() {
    for code in 0u32..=0x10FFFF {
        if let Some(c) = char::from_u32(code) {
            assert_eq!(char_is_whitespace(c), c.is_whitespace(), "{:x}", code);
        }
    }
}

#[test]
fn trim_text_matches_std_trim() {
    for text in ["", " ", "  a b \t\n", "a", "\u{3000}x\u{a0}", " * main"] {
        assert_eq!(trim_text(text), text.trim());
    }
}

#[test]
fn split_and_join() {
    assert_eq!(split_text("", '/'), vec![""]);
    assert_eq!(split_text("a//b/", '/'), vec!["a", "", "b", ""]);
    let parts = vec!["a".to_string(), "".to_string(), "b".to_string()];
    assert_eq!(join_text(&parts, '/'), "a//b");
    assert_eq!(join_text(&Vec::new(), '/'), "");
}

#[test]
fn strip_and_remove() {
    assert_eq!(strip_chars("* _a/_b*", '*', '_'), " a/b");
    assert_eq!(remove_text("feature/x/feature/y", "feature/"), "x/y");
    assert_eq!(remove_text("aaa", "aa"), "a");
    assert_eq!(remove_text("abc", ""), "abc");
}

#[test]
fn comparisons() {
    assert!(same_text("abc", "abc"));
    assert!(!same_text("abc", "abd"));
    assert!(text_starts_with("foo/abc", "foo/a"));
    assert!(!text_starts_with("fo", "foo"));
    assert!(text_starts_with("x", ""));
}

#[test]
fn searching_and_ordering() {
    assert!(text_contains("a DERIVATION FINISHED b", "DERIVATION FINISHED"));
    assert!(!text_contains("DERIVATION", "DERIVATION FINISHED"));
    assert!(text_contains("abc", ""));
    assert!(text_contains("aab", "ab"));
    assert!(text_ends_with("foo/", "/"));
    assert!(!text_ends_with("foo", "/"));
    assert!(text_ends_with("", ""));
    for (a, b) in [("a", "b"), ("", "a"), ("ab", "abc"), ("Z", "a"), ("a", "a"), ("b", "a"), ("é", "z")] {
        assert_eq!(text_less(a, b), a < b, "{} {}", a, b);
    }
    let chars = chars_of("héllo");
    assert_eq!(chars.len(), 5);
    assert_eq!(string_of(&chars, 1, 3), "él");
}
