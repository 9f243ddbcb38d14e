use git_compare::text::{
    chars_of, join, remove_char, replace_char, same_text, starts_with, string_of, trim,
};

#[test]
fn chars_of_a_text() {
    assert_eq!(chars_of("a\u{e9}\u{1f600}"), vec!['a', '\u{e9}', '\u{1f600}']);
    assert_eq!(chars_of(""), Vec::<char>::new());
}

#[test]
fn string_of_a_range() {
    let chars = vec!['h', 'e', 'l', 'l', 'o'];
    assert_eq!(string_of(&chars, 1, 4), "ell");
    assert_eq!(string_of(&chars, 0, 5), "hello");
    assert_eq!(string_of(&chars, 2, 2), "");
}

#[test]
fn trim_matches_std() {
    let cases = [
        "",
        " ",
        "a",
        "  a  ",
        "\t\n a b \r\n",
        "\u{3000}wide\u{a0}",
        "no-space",
        " \u{200b} ",
        "   \n\t  ",
        "x ",
        " x",
    ];
    for case in cases {
        assert_eq!(trim(case), case.trim());
    }
}

#[test]
fn trim_exact() {
    assert_eq!(trim("  two words \n"), "two words");
}

#[test]
fn replace_char_matches_std() {
    assert_eq!(replace_char("a\nb\n\nc", '\n', '\t'), "a\tb\t\tc");
    assert_eq!(replace_char("abc", 'x', 'y'), "abc");
    assert_eq!(replace_char("", 'x', 'y'), "");
    assert_eq!(replace_char("a\nb", '\n', '\t'), "a\nb".replace('\n', "\t"));
}

#[test]
fn remove_char_matches_std() {
    assert_eq!(remove_char("\"a\" \"b\"", '"'), "a b");
    assert_eq!(remove_char("\"\"\"", '"'), "");
    assert_eq!(remove_char("none", '"'), "none");
    assert_eq!(remove_char("x\"y", '"'), "x\"y".replace('"', ""));
}

#[test]
fn join_with_separator() {
    let pieces = vec!["a".to_string(), "".to_string(), "b".to_string()];
    assert_eq!(join(&pieces, ", "), "a, , b");
    assert_eq!(join(&vec!["one".to_string()], ", "), "one");
    assert_eq!(join(&Vec::new(), ", "), "");
    assert_eq!(join(&pieces, ""), "ab");
}

#[test]
fn starts_with_matches_std() {
    let cases = [("http://x", "http"), ("htt", "http"), ("", ""), ("a", ""), ("", "a"), ("=1", "="),
        ("1=", "="), ("\u{e9}t\u{e9}", "\u{e9}")];
    for (text, prefix) in cases {
        assert_eq!(starts_with(text, prefix), text.starts_with(prefix));
    }
}

#[test]
fn same_text_compares_characters() {
    assert!(same_text("abc", "abc"));
    assert!(same_text("", ""));
    assert!(!same_text("abc", "abd"));
    assert!(!same_text("abc", "ab"));
    assert!(!same_text("", "a"));
}
