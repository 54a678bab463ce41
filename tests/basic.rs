use tsparse::tsquery::basic::{parse_comment, parse_identifier, parse_string, ParseError};

#[test]
fn parse_identifier_test() {
    assert_eq!(parse_identifier("abc"), Ok(("", "abc")));
    assert_eq!(parse_identifier("abc1"), Ok(("", "abc1")));
    assert_eq!(parse_identifier("a-b"), Ok(("", "a-b")));
    assert_eq!(parse_identifier("a_c"), Ok(("", "a_c")));
}

#[test]
fn string_test() {
    assert_eq!(parse_string(r#""abc""#), Ok(("", "abc")));
}

#[test]
fn basic_comment_test() {
    assert_eq!(parse_comment(";abcdef\n"), Ok(("", ())));
    assert_eq!(parse_comment(";\n"), Ok(("", ())));
    assert_eq!(parse_comment(";a\n;b\n;c\n"), Ok(("", ())));
}

#[test]
fn identifier_stops_at_other_characters() {
    assert_eq!(parse_identifier("_x-1 rest"), Ok((" rest", "_x-1")));
    assert_eq!(parse_identifier("a:b"), Ok((":b", "a")));
    assert_eq!(parse_identifier("1abc"), Err(ParseError::Syntax(0)));
    assert_eq!(parse_identifier("-a"), Err(ParseError::Syntax(0)));
    assert_eq!(parse_identifier(""), Err(ParseError::Syntax(0)));
}

#[test]
fn identifier_takes_only_ascii_letters() {
    assert_eq!(parse_identifier("aé"), Ok(("é", "a")));
    assert_eq!(parse_identifier("éa"), Err(ParseError::Syntax(0)));
}

#[test]
fn string_errors() {
    assert_eq!(parse_string(r#""""#), Err(ParseError::Syntax(1)));
    assert_eq!(parse_string(r#""ab"#), Err(ParseError::Syntax(3)));
    assert_eq!(parse_string(r#""a b""#), Err(ParseError::Syntax(2)));
    assert_eq!(parse_string("abc"), Err(ParseError::Syntax(0)));
    assert_eq!(parse_string(r#""a1"x"#), Ok(("x", "a1")));
}

#[test]
fn comment_edge_cases() {
    assert_eq!(parse_comment("abc"), Ok(("abc", ())));
    assert_eq!(parse_comment(""), Ok(("", ())));
    assert_eq!(parse_comment(";a\r\n  x"), Ok(("x", ())));
    assert_eq!(parse_comment(";a\n x ;b\n"), Ok(("x ;b\n", ())));
    assert_eq!(parse_comment(";no line end"), Ok(("", ())));
    assert_eq!(parse_comment(";a\r"), Ok(("", ())));
    assert_eq!(parse_comment(";a\n;b\rc"), Ok(("c", ())));
    assert_eq!(parse_comment(" ;a\n"), Ok((" ;a\n", ())));
}
