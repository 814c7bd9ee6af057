use promql_lexer::{parse_string_literal, recognize_number_literal, Error, ParserError, StringLiteral};

#[test]
fn test_parse_string() {
    let str_parse = vec![
        (r#" `abcd` "#, r#"abcd"#),
        (r#" `111\`222` "#, r#"111\`222"#),
        (r#" `1` "#, r#"1"#),
        (r#" '111\'222' "#, r#"111\'222"#),
        (r#" '1' "#, r#"1"#),
        (r#" "1" "#, r#"1"#),
        (r#" "abcd" "#, r#"abcd"#),
        (r#" "ab cd _ 123" "#, r#"ab cd _ 123"#),
        (r#" "111\"222" "#, r#"111\"222"#),
        (r#"`these are unescaped: \n \\ \t`"#, r#"these are unescaped: \n \\ \t"#),
    ];
    for (input, output) in str_parse.iter() {
        assert_eq!(
            parse_string_literal(input),
            Ok((
                "",
                StringLiteral {
                    value: output.to_string()
                }
            ))
        );
    }
}

fn number_value(input: &str) -> (&str, f64) {
    let (rest, text) = recognize_number_literal(input).unwrap();
    (rest, text.parse::<f64>().unwrap())
}

#[test]
fn test_parse_number() {
    let num_parse = vec![
        (r#"1.23"#, 1.23f64),
        (r#"-1.23"#, -1.23f64),
        (r#"1e4"#, 10000f64),
        (r#"1e-4"#, 0.0001f64),
        (r#"-1e4"#, -10000f64),
        (r#"-1e-4"#, -0.0001f64),
    ];
    for (input, output) in num_parse.iter() {
        let (rest, value) = number_value(input);
        assert_eq!(rest, "");
        assert!((value - output).abs() <= f64::EPSILON);
    }
}

#[test]
fn number_literal_integer() {
    assert_eq!(recognize_number_literal("10000"), Ok(("", "10000")));
    assert_eq!(number_value("10000"), ("", 10000f64));
}

#[test]
fn number_literal_leaves_the_rest() {
    assert_eq!(recognize_number_literal("1.5e3 + x"), Ok((" + x", "1.5e3")));
    assert_eq!(recognize_number_literal(".5"), Ok(("", ".5")));
}

#[test]
fn number_literal_exceptions() {
    assert_eq!(recognize_number_literal("NaN"), Ok(("", "NaN")));
    assert_eq!(recognize_number_literal("inf"), Ok(("", "inf")));
}

#[test]
fn number_literal_rejects_non_numbers() {
    assert_eq!(
        recognize_number_literal("abc"),
        Err(Error::Nom("abc", nom::error::ErrorKind::Float))
    );
    assert_eq!(
        recognize_number_literal(" 1"),
        Err(Error::Nom(" 1", nom::error::ErrorKind::Float))
    );
    assert_eq!(
        recognize_number_literal("1e"),
        Err(Error::Nom("1e", nom::error::ErrorKind::Float))
    );
}

#[test]
fn escaped_double_quote_is_kept() {
    assert_eq!(
        parse_string_literal(r#""111\"222""#),
        Ok(("", StringLiteral::new(r#"111\"222"#.to_string())))
    );
}

#[test]
fn unterminated_literal_fails() {
    assert_eq!(
        parse_string_literal(r#""abc"#),
        Err(Error::Nom("", nom::error::ErrorKind::Tag))
    );
}

#[test]
fn wrapped_literal_parses_as_bare() {
    let bare = parse_string_literal(r#""abcd""#);
    let wrapped = parse_string_literal("  \"abcd\"  ");
    assert_eq!(bare, Ok(("", StringLiteral::new("abcd".to_string()))));
    assert_eq!(wrapped, bare);
}

#[test]
fn each_delimiter_keeps_interior() {
    for d in ['"', '\'', '`'] {
        let x = format!("a b\\\\c\\n\\{}é", d);
        let input = format!("{}{}{}", d, x, d);
        assert_eq!(parse_string_literal(&input), Ok(("", StringLiteral::new(x))));
    }
}

#[test]
fn empty_literal_is_empty_value() {
    assert_eq!(
        parse_string_literal("''"),
        Ok(("", StringLiteral::new(String::new())))
    );
}

#[test]
fn inner_whitespace_is_kept() {
    assert_eq!(
        parse_string_literal("' a ' rest"),
        Ok(("rest", StringLiteral::new(" a ".to_string())))
    );
}

#[test]
fn bad_escape_fails_at_backslash() {
    assert_eq!(
        parse_string_literal(r#""ab\qc""#),
        Err(Error::Nom(r#"\qc""#, nom::error::ErrorKind::Escaped))
    );
    assert_eq!(
        parse_string_literal(r#"'a\"'"#),
        Err(Error::Nom(r#"\"'"#, nom::error::ErrorKind::Escaped))
    );
    assert_eq!(
        parse_string_literal("\"ab\\"),
        Err(Error::Nom("\\", nom::error::ErrorKind::Escaped))
    );
}

#[test]
fn missing_delimiter_fails_after_whitespace() {
    assert_eq!(
        parse_string_literal("  abc"),
        Err(Error::Nom("abc", nom::error::ErrorKind::Tag))
    );
    assert_eq!(parse_string_literal(""), Err(Error::Nom("", nom::error::ErrorKind::Tag)));
}

#[test]
fn semantic_errors_are_carried() {
    let e: Error<&str> = Error::from_parser_error(ParserError::InvalidOffsetExpr);
    assert_eq!(e, Error::Parser(ParserError::InvalidOffsetExpr));
    let d = humantime::parse_duration("5x").unwrap_err();
    let e: Error<&str> = Error::from_parser_error(ParserError::InvalidDuration(d.clone()));
    assert_eq!(e, Error::Parser(ParserError::InvalidDuration(d)));
}

#[test]
fn first_error_wins() {
    let inner: Error<&str> = Error::from_error_kind("x", nom::error::ErrorKind::Tag);
    assert_eq!(inner, Error::Nom("x", nom::error::ErrorKind::Tag));
    let kept = Error::append("yx", nom::error::ErrorKind::Alt, inner);
    let kept = Error::add_context("zyx", "string literal", kept);
    assert_eq!(kept, Error::Nom("x", nom::error::ErrorKind::Tag));
    let semantic: Error<&str> = Error::Parser(ParserError::RangeOnlyVectorSelectors);
    assert_eq!(
        Error::append("a", nom::error::ErrorKind::Tag, semantic),
        Error::Parser(ParserError::RangeOnlyVectorSelectors)
    );
}

#[test]
fn exponent_literals() {
    let (rest, v) = number_value("1e-4");
    assert_eq!(rest, "");
    assert!((v - 0.0001).abs() <= f64::EPSILON);
    let (rest, v) = number_value("-1e4");
    assert_eq!(rest, "");
    assert!((v - -10000.0).abs() <= f64::EPSILON);
}
