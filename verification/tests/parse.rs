use yoga_json::parser::{JsonTree, PurustJsonParser};
use yoga_json::value::ErrorName;

fn u(s: &str) -> Vec<u16> {
    s.encode_utf16().collect()
}

fn parse(s: &str) -> Result<JsonTree, (ErrorName, String)> {
    parse_units(u(s))
}

fn parse_units(units: Vec<u16>) -> Result<JsonTree, (ErrorName, String)> {
    PurustJsonParser::new(units).parse().map_err(|e| (e.name, String::from_utf16(&e.message).unwrap()))
}

fn syntax(message: &str) -> Result<JsonTree, (ErrorName, String)> {
    Err((ErrorName::SyntaxError, message.to_string()))
}

fn num(s: &str) -> JsonTree {
    JsonTree::Number(u(s))
}

#[test]
fn parse_scalars() {
    assert_eq!(parse("null"), Ok(JsonTree::Null));
    assert_eq!(parse(" true "), Ok(JsonTree::Bool(true)));
    assert_eq!(parse("\tfalse\r\n"), Ok(JsonTree::Bool(false)));
    assert_eq!(parse("-0"), Ok(num("-0")));
    assert_eq!(parse("12.50E+003"), Ok(num("12.50E+003")));
    assert_eq!(parse("\"hi\""), Ok(JsonTree::Str(u("hi"))));
}

#[test]
fn parse_nested() {
    let expected = JsonTree::Object(vec![(
        u("a"),
        JsonTree::Array(vec![
            num("1"),
            num("-2.5e3"),
            JsonTree::Bool(true),
            JsonTree::Bool(false),
            JsonTree::Null,
            JsonTree::Str(u("x")),
            JsonTree::Object(vec![]),
            JsonTree::Array(vec![]),
        ]),
    )]);
    assert_eq!(parse("  {\"a\" : [1, -2.5e3, true, false, null, \"x\", { }, [ ]]} "), Ok(expected));
}

#[test]
fn parse_duplicate_keys_keep_first_place_and_last_value() {
    let expected = JsonTree::Object(vec![(u("a"), num("3")), (u("b"), num("2"))]);
    assert_eq!(parse("{\"a\":1,\"b\":2,\"a\":3}"), Ok(expected));
}

#[test]
fn parse_string_escapes() {
    assert_eq!(parse("\"\\ud83d\\ude00\""), Ok(JsonTree::Str(vec![0xd83d, 0xde00])));
    assert_eq!(parse("\"\\ud800\""), Ok(JsonTree::Str(vec![0xd800])));
    assert_eq!(parse("\"\\u00E9\\/\\\\\\\"\""), Ok(JsonTree::Str(vec![0xe9, 0x2f, 0x5c, 0x22])));
    assert_eq!(parse("\"\\b\\f\\n\\r\\t\""), Ok(JsonTree::Str(vec![8, 12, 10, 13, 9])));
    assert_eq!(parse_units(vec![34, 0xdc00, 34]), Ok(JsonTree::Str(vec![0xdc00])));
}

#[test]
fn parse_errors_at_end() {
    assert_eq!(parse(""), syntax("Unexpected end of JSON input in JSON at position 0"));
    assert_eq!(parse("  "), syntax("Unexpected end of JSON input in JSON at position 2"));
    assert_eq!(parse("["), syntax("Unexpected end of JSON input in JSON at position 1"));
    assert_eq!(parse("{"), syntax("Expected double-quoted property name in JSON at position 1"));
}

#[test]
fn parse_errors_in_arrays_and_objects() {
    assert_eq!(parse("[1,]"), syntax("Unexpected token in JSON at position 3"));
    assert_eq!(parse("[1 2]"), syntax("Expected ',' or ']' after array element in JSON at position 3"));
    assert_eq!(parse("{\"a\" 1}"), syntax("Expected ':' after property name in JSON at position 5"));
    assert_eq!(parse("{1:2}"), syntax("Expected double-quoted property name in JSON at position 1"));
    assert_eq!(
        parse("{\"a\":1 \"b\"}"),
        syntax("Expected ',' or '}' after property value in JSON at position 7")
    );
    assert_eq!(parse("{\"a\":1,}"), syntax("Expected double-quoted property name in JSON at position 7"));
}

#[test]
fn parse_errors_in_numbers() {
    assert_eq!(parse("01"), syntax("Unexpected non-whitespace character after JSON in JSON at position 1"));
    assert_eq!(parse("-"), syntax("Invalid number in JSON at position 1"));
    assert_eq!(parse("-a"), syntax("Invalid number in JSON at position 1"));
    assert_eq!(parse("1."), syntax("Unterminated fractional number in JSON at position 2"));
    assert_eq!(parse("1e"), syntax("Exponent part is missing a number in JSON at position 2"));
    assert_eq!(parse("1e+"), syntax("Exponent part is missing a number in JSON at position 3"));
}

#[test]
fn parse_errors_in_literals_and_strings() {
    assert_eq!(parse("tru"), syntax("Unexpected token in JSON at position 3"));
    assert_eq!(parse("nul"), syntax("Unexpected token in JSON at position 3"));
    assert_eq!(parse("x"), syntax("Unexpected token in JSON at position 0"));
    assert_eq!(parse("\"abc"), syntax("Unterminated string in JSON at position 4"));
    assert_eq!(parse("\"a\u{1}\""), syntax("Bad control character in string literal in JSON at position 3"));
    assert_eq!(parse("\"\\x\""), syntax("Bad escaped character in JSON at position 3"));
    assert_eq!(parse("\"\\u12G4\""), syntax("Bad Unicode escape in JSON at position 5"));
    assert_eq!(parse("\"\\"), syntax("Unterminated string in JSON at position 2"));
    assert_eq!(parse("[1] x"), syntax("Unexpected non-whitespace character after JSON in JSON at position 4"));
}

#[test]
fn parse_deep_nesting_without_recursion() {
    let depth = 100_000;
    let text = format!("{}{}", "[".repeat(depth), "]".repeat(depth));
    let mut tree = parse(&text).unwrap();
    let mut levels = 0;
    while let JsonTree::Array(mut items) = tree {
        levels += 1;
        match items.pop() {
            Some(inner) => tree = inner,
            None => break,
        }
    }
    assert_eq!(levels, depth);
}
