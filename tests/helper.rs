use promql_lexer::{parse_label_name, parse_metric_name, skip_space, ws, Error};

#[test]
fn test_parse_metric_name() {
    let ok_metric_name = vec![
        "instance",
        "a",
        "__a__",
        "__name__",
        "method_code:http_errors:rate5m",
    ];
    for input in ok_metric_name.iter() {
        assert_eq!(parse_metric_name(input), Ok(("", *input)));
    }
}

#[test]
fn label_names_match_whole_input() {
    assert_eq!(parse_label_name("__name__"), Ok(("", "__name__")));
    assert_eq!(parse_label_name("a"), Ok(("", "a")));
}

#[test]
fn label_name_rejects_leading_digit() {
    assert_eq!(
        parse_label_name("1abc"),
        Err(Error::Nom("1abc", nom::error::ErrorKind::IsA))
    );
}

#[test]
fn label_name_stops_at_colon() {
    assert_eq!(
        parse_label_name("method_code:http_errors:rate5m"),
        Ok((":http_errors:rate5m", "method_code"))
    );
}

#[test]
fn metric_name_may_start_with_colon() {
    assert_eq!(parse_metric_name(":a1 rest"), Ok((" rest", ":a1")));
}

#[test]
fn name_parsers_reject_empty_input() {
    assert_eq!(parse_label_name(""), Err(Error::Nom("", nom::error::ErrorKind::IsA)));
    assert_eq!(parse_metric_name(""), Err(Error::Nom("", nom::error::ErrorKind::IsA)));
}

#[test]
fn name_stops_before_non_ascii() {
    assert_eq!(parse_label_name("abé"), Ok(("é", "ab")));
    assert_eq!(
        parse_metric_name("éa"),
        Err(Error::Nom("éa", nom::error::ErrorKind::IsA))
    );
}

#[test]
fn skip_space_drops_leading_whitespace_only() {
    assert_eq!(skip_space(" \t\r\nabc "), "abc ");
    assert_eq!(skip_space("abc"), "abc");
    assert_eq!(skip_space("   "), "");
}

#[test]
fn ws_trims_both_sides() {
    assert_eq!(ws(parse_label_name, "  up  {"), Ok(("{", "up")));
    assert_eq!(ws(parse_label_name, "up"), Ok(("", "up")));
}

#[test]
fn ws_passes_the_inner_error_on() {
    assert_eq!(
        ws(parse_label_name, "  9x"),
        Err(Error::Nom("9x", nom::error::ErrorKind::IsA))
    );
}
