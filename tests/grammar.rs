use jsonparser::json::{
    decimal_value, parse_bool, parse_json1, parse_null, parse_number, parse_quote, parse_string,
};
use jsonparser::JsonValue::{JsonBool, JsonNull, JsonNumber, JsonString};
use jsonparser::{parse_json, ParseResult, Parser};

#[test]
fn test_parse_null() {
    assert_eq!(
        parse_null().parse("null_hello".to_string()),
        Some(ParseResult {
            value: JsonNull,
            s: "_hello".to_owned(),
        })
    );
    assert_eq!(parse_null().parse("hello".to_string()), None,);
}

#[test]
fn test_parse_bool() {
    assert_eq!(
        parse_bool().parse("true_hello".to_string()),
        Some(ParseResult {
            value: JsonBool(true),
            s: "_hello".to_owned(),
        })
    );
    assert_eq!(
        parse_bool().parse("false_hello".to_string()),
        Some(ParseResult {
            value: JsonBool(false),
            s: "_hello".to_owned(),
        })
    );
    assert_eq!(parse_bool().parse("foo_hello".to_string()), None,);
}

#[test]
fn test_parse_string() {
    assert_eq!(
        parse_string().parse("\"hello\"friend".to_string()),
        Some(ParseResult {
            value: JsonString("hello".to_string()),
            s: "friend".to_owned(),
        })
    );
    assert_eq!(parse_bool().parse("\"hello".to_string()), None,);
}

#[test]
fn test_parse_number() {
    assert_eq!(
        parse_number().parse("1234hello".to_string()),
        Some(ParseResult {
            value: JsonNumber(1234),
            s: "hello".to_owned(),
        })
    );
}

#[test]
fn test_parse_json() {
    assert_eq!(parse_json("null".to_string()), Some(JsonNull),);
    assert_eq!(parse_json("true".to_string()), Some(JsonBool(true)),);
    assert_eq!(parse_json("1234".to_string()), Some(JsonNumber(1234)),);
    assert_eq!(
        parse_json("\"foo\"".to_string()),
        Some(JsonString("foo".to_string())),
    );
}

#[test]
fn parse_json_false_and_empty_string() {
    assert_eq!(parse_json("false".to_string()), Some(JsonBool(false)));
    assert_eq!(parse_json("\"\"".to_string()), Some(JsonString(String::new())));
    assert_eq!(parse_json("0".to_string()), Some(JsonNumber(0)));
    assert_eq!(parse_json("007".to_string()), Some(JsonNumber(7)));
}

#[test]
fn parse_json_rejects_trailing_and_unsupported_input() {
    assert_eq!(parse_json("1234trailing".to_string()), None);
    assert_eq!(parse_json("\"unterminated".to_string()), None);
    assert_eq!(parse_json("[1,2]".to_string()), None);
    assert_eq!(parse_json("".to_string()), None);
    assert_eq!(parse_json(" null".to_string()), None);
    assert_eq!(parse_json("null ".to_string()), None);
    assert_eq!(parse_json("-1".to_string()), None);
    assert_eq!(parse_json("1.5".to_string()), None);
    assert_eq!(parse_json("{}".to_string()), None);
}

#[test]
fn number_at_the_edge_of_sixty_four_bits() {
    assert_eq!(
        parse_json("18446744073709551615".to_string()),
        Some(JsonNumber(u64::MAX))
    );
    assert_eq!(parse_json("18446744073709551616".to_string()), None);
    assert_eq!(parse_json("99999999999999999999".to_string()), None);
    assert_eq!(decimal_value("18446744073709551615"), Some(u64::MAX));
    assert_eq!(decimal_value("18446744073709551616"), None);
    assert_eq!(decimal_value(""), Some(0));
    assert_eq!(decimal_value("042"), Some(42));
}

#[test]
fn number_needs_a_leading_digit() {
    assert_eq!(parse_number().parse("abc".to_string()), None);
    assert_eq!(parse_number().parse("".to_string()), None);
}

#[test]
fn string_keeps_backslashes_and_stops_at_first_quote() {
    assert_eq!(
        parse_string().parse("\"a\\\"b\"".to_string()),
        Some(ParseResult {
            value: JsonString("a\\".to_string()),
            s: "b\"".to_owned(),
        })
    );
    assert_eq!(parse_string().parse("\"hello".to_string()), None);
    assert_eq!(parse_string().parse("hello\"".to_string()), None);
}

#[test]
fn quote_parser_matches_one_quote() {
    assert_eq!(
        parse_quote().parse("\"x".to_string()),
        Some(ParseResult {
            value: "\"".to_string(),
            s: "x".to_owned(),
        })
    );
}

#[test]
fn scalar_parser_order() {
    assert_eq!(
        parse_json1().parse("nullx".to_string()),
        Some(ParseResult {
            value: JsonNull,
            s: "x".to_owned(),
        })
    );
    assert_eq!(
        parse_json1().parse("12\"a\"".to_string()),
        Some(ParseResult {
            value: JsonNumber(12),
            s: "\"a\"".to_owned(),
        })
    );
    assert_eq!(parse_json1().parse("nul".to_string()), None);
}

#[test]
fn reparsing_canonical_text_gives_same_result() {
    let first = parse_json1().parse("0042rest".to_string()).unwrap();
    assert_eq!(first.value, JsonNumber(42));
    let again = parse_json1().parse(format!("42{}", first.s)).unwrap();
    assert_eq!(again, first);

    let first = parse_json1().parse("\"ab\"cd".to_string()).unwrap();
    let again = parse_json1().parse(format!("\"ab\"{}", first.s)).unwrap();
    assert_eq!(again, first);

    let first = parse_json1().parse("false,".to_string()).unwrap();
    let again = parse_json1().parse(format!("false{}", first.s)).unwrap();
    assert_eq!(again, first);
}
