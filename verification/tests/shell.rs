use crok::util::shell::{shell_split, ShellBit, ShellParseError};

fn texts(line: &str) -> String {
    let bits = shell_split(line).unwrap();
    let texts: Vec<&str> = bits.iter().map(|b| b.as_str()).collect();
    format!("{:?}", texts)
}

#[test]
fn test_shell_split() {
    assert_eq!(texts(""), r#"[]"#);
    assert_eq!(texts("a"), r#"["a"]"#);
    assert_eq!(texts("a b"), r#"["a", "b"]"#);
    assert_eq!(texts("a b c"), r#"["a", "b", "c"]"#);
    assert_eq!(texts("a 'b' c"), r#"["a", "b", "c"]"#);
    assert_eq!(texts("a 'b c' d"), r#"["a", "b c", "d"]"#);
    assert_eq!(texts(r#"a "b" c"#), r#"["a", "b", "c"]"#);
    assert_eq!(texts(r#"a "b c" d"#), r#"["a", "b c", "d"]"#);
    assert_eq!(texts(r#"a "b\"c" d"#), r#"["a", "b\"c", "d"]"#);
    assert_eq!(texts(r#"a "b\'c" d"#), r#"["a", "b\\'c", "d"]"#);
    assert_eq!(texts(r#"a "b\nc" d"#), r#"["a", "b\nc", "d"]"#);
    assert_eq!(texts(r#"a "a\\b" d"#), r#"["a", "a\\\\b", "d"]"#);
    assert_eq!(texts(r#"a 'a\\b' d"#), r#"["a", "a\\\\b", "d"]"#);
}

#[test]
fn test_shell_split_errors() {
    assert_eq!(
        shell_split("a 'b").unwrap_err(),
        ShellParseError::UnmatchedQuote('\'')
    );
    assert_eq!(
        shell_split("a \"b c").unwrap_err(),
        ShellParseError::UnmatchedQuote('"')
    );
    assert_eq!(
        shell_split("a '").unwrap_err(),
        ShellParseError::UnmatchedQuote('\'')
    );
}

#[test]
fn hex_escapes_are_read_or_refused() {
    assert_eq!(texts(r"a\x41b"), r#"["aAb"]"#);
    assert_eq!(texts(r#""\xe9""#), r#"["é"]"#);
    assert_eq!(
        shell_split(r"\xg1").unwrap_err(),
        ShellParseError::InvalidHexEscape('g')
    );
    assert_eq!(
        shell_split(r"\x1z").unwrap_err(),
        ShellParseError::InvalidHexEscape('z')
    );
    assert_eq!(texts(r"a\x4"), r#"["a"]"#);
    assert_eq!(texts("a\\"), r#"["a"]"#);
}

#[test]
fn named_escapes_are_resolved() {
    assert_eq!(texts(r"\a\b\f\n\r\t\v\e\0"), format!("{:?}", vec!["\x07\x08\x0c\n\r\t\x0b\x1b\0"]));
}

#[test]
fn words_know_how_they_were_quoted() {
    let bits = shell_split("'a' \"b\" c").unwrap();
    assert!(matches!(&bits[0], ShellBit::Literal(s) if s == "a"));
    assert!(matches!(&bits[1], ShellBit::Quoted(s) if s == "b"));
    assert!(matches!(&bits[2], ShellBit::Quoted(s) if s == "c"));
    assert!(bits[0].is_text("a"));
    assert!(!bits[0].is_text("b"));
}

#[test]
fn single_quotes_preserve_words() {
    assert_eq!(texts("'$a b' '\\n' '' "), r#"["$a b", "\\n", ""]"#);
}

#[test]
fn split_errors_are_described() {
    assert_eq!(ShellParseError::UnmatchedQuote('"').message(), "unmatched quote (\")");
    assert_eq!(ShellParseError::InvalidHexEscape('g').message(), "invalid hex escape (g)");
}

#[test]
fn double_quotes_preserve_words() {
    let words = shell_split("\"a b\" \"$c\" \"'d'\" ").unwrap();
    assert_eq!(
        words,
        vec![
            ShellBit::Quoted("a b".to_string()),
            ShellBit::Quoted("$c".to_string()),
            ShellBit::Quoted("'d'".to_string()),
        ]
    );
}
