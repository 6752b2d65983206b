use word_sieve::{find, has_letter, is_space, same_text, split_once, to_lowercase, trim};

#[test]
fn to_lowercase_maps_ascii_capitals_only() {
    assert_eq!(to_lowercase("Crane"), "crane");
    assert_eq!(to_lowercase("ABCDEFGHIJKLMNOPQRSTUVWXYZ"), "abcdefghijklmnopqrstuvwxyz");
    assert_eq!(to_lowercase("already lower"), "already lower");
    assert_eq!(to_lowercase("@[`{ 09"), "@[`{ 09");
    assert_eq!(to_lowercase("\u{c9}T\u{c9}"), "\u{c9}t\u{c9}");
    assert_eq!(to_lowercase(""), "");
}

#[test]
fn to_lowercase_agrees_with_the_standard_library() {
    for word in ["Hello, World!", "MiXeD", "\u{df}\u{1e9e}\u{130}I", "a\u{0}Z\u{7f}"] {
        assert_eq!(to_lowercase(word), word.to_ascii_lowercase());
    }
}

#[test]
fn same_text_compares_characters() {
    assert!(same_text("", ""));
    assert!(same_text("crane", "crane"));
    assert!(!same_text("crane", "cranE"));
    assert!(!same_text("crane", "cran"));
    assert!(!same_text("cran", "crane"));
    assert!(same_text("na\u{ef}ve", "na\u{ef}ve"));
}

#[test]
fn has_letter_looks_at_every_position() {
    assert!(has_letter("crane", 'c'));
    assert!(has_letter("crane", 'e'));
    assert!(!has_letter("crane", 'z'));
    assert!(!has_letter("", 'a'));
    assert!(has_letter("na\u{ef}ve", '\u{ef}'));
}

#[test]
fn is_space_agrees_with_the_standard_library() {
    for code in 0u32..0x11000 {
        if let Some(c) = char::from_u32(code) {
            assert_eq!(is_space(c), c.is_whitespace(), "U+{:04X}", code);
        }
    }
    assert!(!is_space('\u{180e}'));
    assert!(!is_space('\u{200b}'));
    assert!(!is_space('\u{10ffff}'));
}

#[test]
fn trim_removes_white_space_at_both_ends_only() {
    assert_eq!(trim("  crane\n"), "crane");
    assert_eq!(trim("crane"), "crane");
    assert_eq!(trim("\t a b \r\n"), "a b");
    assert_eq!(trim("   "), "");
    assert_eq!(trim(""), "");
    assert_eq!(trim("\u{a0}\u{3000}x\u{2009}"), "x");
    assert_eq!(trim("\u{200b}x"), "\u{200b}x");
}

#[test]
fn trim_agrees_with_the_standard_library() {
    for text in [" a ", "\n\n", "x\u{85}", "\u{1680}y\u{205f}z\u{2028}", "p a at 3 \r\n"] {
        assert_eq!(trim(text), text.trim());
    }
}

#[test]
fn find_returns_the_first_occurrence() {
    assert_eq!(find("a at b at c", " at "), Some(1));
    assert_eq!(find("abcabc", "bc"), Some(1));
    assert_eq!(find("abc", "abc"), Some(0));
    assert_eq!(find("abc", "c"), Some(2));
    assert_eq!(find("abc", "d"), None);
    assert_eq!(find("ab", "abc"), None);
    assert_eq!(find("abc", ""), Some(0));
    assert_eq!(find("", ""), Some(0));
    assert_eq!(find("aaa", "aa"), Some(0));
    assert_eq!(find("\u{e9}\u{e9}x", "x"), Some(2));
}

#[test]
fn split_once_splits_at_the_first_occurrence() {
    assert_eq!(split_once("guess crane 0,1", " "), Some(("guess", "crane 0,1")));
    assert_eq!(split_once("a at b at c", " at "), Some(("a", "b at c")));
    assert_eq!(split_once("01,", ","), Some(("01", "")));
    assert_eq!(split_once(",", ","), Some(("", "")));
    assert_eq!(split_once("abc", ","), None);
    assert_eq!(split_once("", " "), None);
    assert_eq!(split_once("\u{e9}t\u{e9} x", " "), Some(("\u{e9}t\u{e9}", "x")));
}

#[test]
fn split_once_agrees_with_the_standard_library() {
    for (text, pattern) in [("a b c", " "), ("a at  at b", " at "), ("x", "x"), ("no", "yes")] {
        assert_eq!(split_once(text, pattern), text.split_once(pattern));
    }
}
