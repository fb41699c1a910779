use yoga_json::decode::{purust_json_decode, purust_json_spellings, purust_json_value};
use yoga_json::parser::{JsonTree, PurustJsonParser};
use yoga_json::value::{JsNumber, JsValue};

fn u(s: &str) -> Vec<u16> {
    s.encode_utf16().collect()
}

fn tree(s: &str) -> JsonTree {
    PurustJsonParser::new(u(s)).parse().unwrap()
}

fn number(text: &str, integral: Option<&str>) -> JsNumber {
    JsNumber { text: u(text), finite: true, integral: integral.map(u) }
}

#[test]
fn spellings_in_document_order() {
    let t = tree("{\"a\": [1, {\"b\": -2.5}], \"c\": 3e2, \"d\": \"4\"}");
    assert_eq!(purust_json_spellings(&t), vec![u("1"), u("-2.5"), u("3e2")]);
    assert_eq!(purust_json_spellings(&tree("\"x\"")), Vec::<Vec<u16>>::new());
}

#[test]
fn value_takes_numbers_in_order() {
    let t = tree("[1, [2], {\"k\": 3}]");
    let numbers = vec![number("1", Some("1")), number("2", Some("2")), number("3", Some("3"))];
    let expected = JsValue::Array(vec![
        JsValue::Number(number("1", Some("1"))),
        JsValue::Array(vec![JsValue::Number(number("2", Some("2")))]),
        JsValue::Object(vec![(u("k"), JsValue::Number(number("3", Some("3"))))]),
    ]);
    assert_eq!(purust_json_value(t, &numbers), expected);
}

#[test]
fn decode_revives_big_members() {
    let t = tree("{\"big\": 10, \"x\": [1.5, null, true, \"s\"]}");
    let numbers = vec![number("10", Some("10")), number("1.5", None)];
    let v = purust_json_decode(t, &numbers).unwrap();
    let JsValue::Object(fs) = v else { panic!() };
    assert_eq!(fs[0].0, u("big"));
    match &fs[0].1 {
        JsValue::BigInt(b) => assert_eq!(b.to_decimal(), u("10")),
        other => panic!("{:?}", other),
    }
    assert_eq!(
        fs[1],
        (
            u("x"),
            JsValue::Array(vec![
                JsValue::Number(number("1.5", None)),
                JsValue::Null,
                JsValue::Bool(true),
                JsValue::Str(u("s")),
            ])
        )
    );
}

#[test]
fn decode_reports_reviver_errors() {
    let t = tree("{\"big\": 1.5}");
    let e = purust_json_decode(t, &vec![number("1.5", None)]).unwrap_err();
    assert_eq!(e.message, u("The number cannot be converted to a BigInt because it is not an integer"));
}

#[test]
fn deep_value_without_recursion() {
    let depth = 100_000;
    let text = format!("{}1{}", "[".repeat(depth), "]".repeat(depth));
    let t = tree(&text);
    assert_eq!(purust_json_spellings(&t), vec![u("1")]);
    let mut v = purust_json_value(t, &vec![number("1", Some("1"))]);
    let mut levels = 0;
    while let JsValue::Array(mut items) = v {
        levels += 1;
        v = items.pop().unwrap();
    }
    assert_eq!(levels, depth);
    assert_eq!(v, JsValue::Number(number("1", Some("1"))));
}
