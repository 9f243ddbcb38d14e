use git_compare::sheet::{
    cell_kind, parse_boolean, parse_formula, parse_text, parse_url, split, CellKind,
};

#[test]
fn split_at_a_character() {
    assert_eq!(split("a,b,,c", ","), vec!["a", "b", "", "c"]);
    assert_eq!(split(",a,", ","), vec!["", "a", ""]);
    assert_eq!(split("abc", ","), vec!["abc"]);
    assert_eq!(split("", ","), vec![""]);
}

#[test]
fn split_at_a_longer_separator() {
    assert_eq!(split("a::b::c", "::"), vec!["a", "b", "c"]);
    assert_eq!(split("a:::b", "::"), vec!["a", ":b"]);
    assert_eq!(split("aaa", "aa"), vec!["", "a"]);
    assert_eq!(split("aaaa", "aa"), vec!["", "", ""]);
    assert_eq!(split("ab", "abc"), vec!["ab"]);
}

#[test]
fn split_at_the_empty_separator() {
    assert_eq!(split("abc", ""), vec!["", "a", "b", "c", ""]);
    assert_eq!(split("", ""), vec!["", ""]);
}

#[test]
fn split_matches_std() {
    let texts = ["", "a", "a,b", ",", ",,", "a,,b,", "x\u{e9}y\u{e9}\u{e9}z", "ababab", "aXbXXc",
        "line one\nline two\n", "\r\n\r\n"];
    let separators = [",", "\u{e9}", "ab", "aba", "X", "XX", "\n", "\r\n", "", "bab", "a"];
    for text in texts {
        for separator in separators {
            let expected: Vec<&str> = text.split(separator).collect();
            assert_eq!(split(text, separator), expected);
        }
    }
}

#[test]
fn parse_text_lines_and_columns() {
    assert_eq!(
        parse_text("a,b\nc,d,e\n", "\n", ","),
        vec![vec!["a", "b"], vec!["c", "d", "e"], vec![""]]
    );
    assert_eq!(parse_text("", "\n", ","), vec![vec![""]]);
    assert_eq!(parse_text("1;2||3;;4", "||", ";"), vec![vec!["1", "2"], vec!["3", "", "4"]]);
}

#[test]
fn parse_formula_needs_a_leading_equals_sign() {
    assert_eq!(parse_formula("=SUM(A1:A3)"), Some("=SUM(A1:A3)"));
    assert_eq!(parse_formula("="), Some("="));
    assert_eq!(parse_formula(" =1"), None);
    assert_eq!(parse_formula("1=1"), None);
    assert_eq!(parse_formula(""), None);
}

#[test]
fn parse_boolean_is_exact() {
    assert_eq!(parse_boolean("TRUE"), Some(true));
    assert_eq!(parse_boolean("FALSE"), Some(false));
    assert_eq!(parse_boolean("true"), None);
    assert_eq!(parse_boolean("False"), None);
    assert_eq!(parse_boolean("TRUE "), None);
    assert_eq!(parse_boolean(""), None);
}

#[test]
fn parse_url_needs_a_leading_http() {
    assert_eq!(parse_url("http://example.com"), Some("http://example.com"));
    assert_eq!(parse_url("https://example.com"), Some("https://example.com"));
    assert_eq!(parse_url("http"), Some("http"));
    assert_eq!(parse_url("ftp://example.com"), None);
    assert_eq!(parse_url("HTTP://example.com"), None);
    assert_eq!(parse_url("htt"), None);
}

#[test]
fn cell_kind_in_order() {
    assert_eq!(cell_kind("12.5", true), CellKind::Number);
    assert_eq!(cell_kind("TRUE", true), CellKind::Number);
    assert_eq!(cell_kind("TRUE", false), CellKind::Boolean(true));
    assert_eq!(cell_kind("FALSE", false), CellKind::Boolean(false));
    assert_eq!(cell_kind("=A1", false), CellKind::Formula);
    assert_eq!(cell_kind("http://example.com", false), CellKind::Url);
    assert_eq!(cell_kind("=http", false), CellKind::Formula);
    assert_eq!(cell_kind("plain", false), CellKind::Text);
    assert_eq!(cell_kind("", false), CellKind::Text);
}

#[test]
fn split_pieces_join_back() {
    let texts = ["", "a", "a,b", ",,", "a,,b,", "ababab", "line one\nline two\n"];
    let separators = [",", "ab", "aba", "\n", "", "a"];
    for text in texts {
        for separator in separators {
            let pieces: Vec<String> =
                split(text, separator).into_iter().map(|piece| piece.to_string()).collect();
            assert!(!pieces.is_empty());
            assert_eq!(git_compare::text::join(&pieces, separator), text);
        }
    }
}
