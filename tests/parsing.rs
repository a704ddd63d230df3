use json_parser::parser::{parse, ParseError};
use json_parser::scanner::{scan, Token};
use json_parser::value::JValue;

fn s(text: &str) -> String {
    text.to_string()
}

fn tokens(text: &str) -> Vec<Token> {
    scan(s(text)).unwrap()
}

fn parse_all(ts: &Vec<Token>) -> (Result<JValue, ParseError>, usize) {
    let mut pos: usize = 0;
    let r = parse(ts, &mut pos);
    (r, pos)
}

fn num(text: &str) -> JValue {
    JValue::JNumber(s(text))
}

#[test]
fn parse_empty_tokens_expects_a_value() {
    assert_eq!(parse_all(&vec![]).0, Err(ParseError::ExpectedValue(0)));
}

#[test]
fn parse_empty_object() {
    assert_eq!(parse_all(&tokens("{}")), (Ok(JValue::JObject(vec![])), 2));
}

#[test]
fn parse_empty_array() {
    assert_eq!(parse_all(&tokens("[]")), (Ok(JValue::JArray(vec![])), 2));
}

#[test]
fn parse_scalars() {
    assert_eq!(parse_all(&tokens("true")), (Ok(JValue::JBool(true)), 1));
    assert_eq!(parse_all(&tokens("false")), (Ok(JValue::JBool(false)), 1));
    assert_eq!(parse_all(&tokens("null")), (Ok(JValue::JNull), 1));
    assert_eq!(parse_all(&tokens("-4.25")), (Ok(num("-4.25")), 1));
    assert_eq!(parse_all(&tokens("\"hi\"")), (Ok(JValue::JString(s("hi"))), 1));
}

#[test]
fn parse_leaves_cursor_after_the_value() {
    let ts = tokens("1 2");
    let mut pos: usize = 0;
    assert_eq!(parse(&ts, &mut pos), Ok(num("1")));
    assert_eq!(pos, 1);
    assert_eq!(parse(&ts, &mut pos), Ok(num("2")));
    assert_eq!(pos, 2);
    assert_eq!(parse(&ts, &mut pos), Err(ParseError::ExpectedValue(2)));
}

#[test]
fn parse_duplicate_keys_last_wins() {
    assert_eq!(
        parse_all(&tokens("{\"a\": 1, \"a\": 2}")).0,
        Ok(JValue::JObject(vec![(s("a"), num("2"))]))
    );
}

#[test]
fn parse_duplicate_key_keeps_first_position() {
    assert_eq!(
        parse_all(&tokens("{\"a\": 1, \"b\": 2, \"a\": 3}")).0,
        Ok(JValue::JObject(vec![(s("a"), num("3")), (s("b"), num("2"))]))
    );
}

#[test]
fn parse_missing_colon_names_the_key() {
    assert_eq!(
        parse_all(&tokens("{\"key\" \"value\"}")).0,
        Err(ParseError::MissingColon(s("key"), 2))
    );
}

#[test]
fn parse_array_trailing_comma_is_rejected() {
    assert_eq!(parse_all(&tokens("[1, 2,]")).0, Err(ParseError::ExpectedValue(5)));
}

#[test]
fn parse_object_trailing_comma_is_rejected() {
    assert_eq!(
        parse_all(&tokens("{\"a\": 1,}")).0,
        Err(ParseError::InvalidObject(5))
    );
}

#[test]
fn parse_object_key_must_be_a_string() {
    assert_eq!(parse_all(&tokens("{1: 2}")).0, Err(ParseError::InvalidObject(1)));
    assert_eq!(parse_all(&tokens("{")).0, Err(ParseError::InvalidObject(1)));
}

#[test]
fn parse_object_missing_separator() {
    assert_eq!(
        parse_all(&tokens("{\"a\": 1 \"b\": 2}")).0,
        Err(ParseError::ExpectedCommaOrBrace(4))
    );
    assert_eq!(
        parse_all(&tokens("{\"a\": 1")).0,
        Err(ParseError::ExpectedCommaOrBrace(4))
    );
}

#[test]
fn parse_object_value_missing() {
    assert_eq!(parse_all(&tokens("{\"a\": }")).0, Err(ParseError::ExpectedValue(3)));
}

#[test]
fn parse_array_missing_separator() {
    assert_eq!(parse_all(&tokens("[1 2]")).0, Err(ParseError::ArrayNotSeparated(2)));
}

#[test]
fn parse_array_end_of_input() {
    assert_eq!(parse_all(&tokens("[")).0, Err(ParseError::UnexpectedEndOfArray(1)));
    assert_eq!(parse_all(&tokens("[1")).0, Err(ParseError::UnexpectedEndOfArray(2)));
    assert_eq!(parse_all(&tokens("[1,")).0, Err(ParseError::UnexpectedEndOfArray(3)));
}

#[test]
fn parse_unexpected_leading_token() {
    assert_eq!(parse_all(&tokens("]")).0, Err(ParseError::ExpectedValue(0)));
    assert_eq!(parse_all(&tokens(":")).0, Err(ParseError::ExpectedValue(0)));
    assert_eq!(parse_all(&tokens("[,]")).0, Err(ParseError::ExpectedValue(1)));
}

#[test]
fn parse_nested_structure() {
    let ts = tokens(
        "{\"key\": [\"value1\", \"value2\"], \"flag\": true, \"nullable\": null, \"number\": 12.46, \"nested\": {\"nested_key\": []}}",
    );
    let (r, pos) = parse_all(&ts);
    assert_eq!(pos, ts.len());
    assert_eq!(
        r,
        Ok(JValue::JObject(vec![
            (
                s("key"),
                JValue::JArray(vec![JValue::JString(s("value1")), JValue::JString(s("value2"))])
            ),
            (s("flag"), JValue::JBool(true)),
            (s("nullable"), JValue::JNull),
            (s("number"), num("12.46")),
            (s("nested"), JValue::JObject(vec![(s("nested_key"), JValue::JArray(vec![]))])),
        ]))
    );
}

#[test]
fn parse_deeply_nested_arrays() {
    let (r, _) = parse_all(&tokens("[[[1], []], [\"x\"]]"));
    assert_eq!(
        r,
        Ok(JValue::JArray(vec![
            JValue::JArray(vec![JValue::JArray(vec![num("1")]), JValue::JArray(vec![])]),
            JValue::JArray(vec![JValue::JString(s("x"))]),
        ]))
    );
}

#[test]
fn parse_written_document_takes_every_token() {
    let ts = tokens("{ \"a\" : [ 1 , -2.5 , \"x\\\"y\" ] , \"b\" : { } , \"c\" : false } ");
    let (r, pos) = parse_all(&ts);
    assert_eq!(pos, ts.len());
    assert_eq!(
        r,
        Ok(JValue::JObject(vec![
            (
                s("a"),
                JValue::JArray(vec![num("1"), num("-2.5"), JValue::JString(s("x\\\"y"))])
            ),
            (s("b"), JValue::JObject(vec![])),
            (s("c"), JValue::JBool(false)),
        ]))
    );
}
