use easement::text::{
    bytes_in, join_texts, joined, number_text, same_text, signed_text, split_lines, trim, truncate,
};

#[test]
fn texts_are_compared_and_measured() {
    assert!(same_text("Grüße", "Grüße"));
    assert!(!same_text("a", "b") && !same_text("a", "aa"));
    assert_eq!(bytes_in("Grüße"), 7);
    assert_eq!(joined("ab", "cd"), "abcd");
}

#[test]
fn white_space_is_trimmed() {
    for (raw, inner) in [
        ("", ""),
        (" \t\r\n\u{b}\u{c}\u{85}\u{1680}\u{2028}\u{2029}\u{202f}\u{205f}\u{3000}", ""),
        (" a b ", "a b"),
        ("\u{200b}a", "\u{200b}a"),
        ("a\u{feff}", "a\u{feff}"),
    ] {
        assert_eq!(trim(raw), inner);
        assert_eq!(trim(raw), raw.trim());
    }
}

#[test]
fn lines_are_split() {
    assert_eq!(split_lines("a\r\n\n  b c \n\t\nd"), ["a", "b c", "d"]);
    assert!(split_lines("\n \n").is_empty());
    assert!(split_lines("").is_empty());
}

#[test]
fn long_texts_are_cut_at_characters() {
    assert_eq!(truncate("abc", 3), "abc");
    assert_eq!(truncate("abcd", 3), "abc...");
    assert_eq!(truncate("aü€😀", 10), "aü€😀");
    for (max, cut) in [(9, "aü€..."), (6, "aü€..."), (5, "aü..."), (3, "aü..."), (2, "a..."), (0, "...")] {
        assert_eq!(truncate("aü€😀", max), cut);
    }
}

#[test]
fn texts_are_joined() {
    let parts = |items: &[&str]| items.iter().map(|s| s.to_string()).collect::<Vec<_>>();
    assert_eq!(join_texts(&parts(&[]), ", "), "");
    assert_eq!(join_texts(&parts(&["a"]), ", "), "a");
    assert_eq!(join_texts(&parts(&["a", "", "b"]), ", "), "a, , b");
}

#[test]
fn numbers_are_written() {
    assert_eq!(number_text(0), "0");
    assert_eq!(number_text(u64::MAX), "18446744073709551615");
    assert_eq!(signed_text(-1), "-1");
    assert_eq!(signed_text(i32::MIN), "-2147483648");
    assert_eq!(signed_text(127), "127");
}
