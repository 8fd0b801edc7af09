use fnhost::decode::decode_value;
use fnhost::value::number_text_valid;
use fnhost::json::to_json_text;
use fnhost::value::CanonicalValue;

fn num(s: &str) -> CanonicalValue {
    CanonicalValue::Number(s.to_string())
}

fn text(s: &str) -> CanonicalValue {
    CanonicalValue::Text(s.to_string())
}

#[test]
fn encodes_scalars() {
    assert_eq!(to_json_text(&CanonicalValue::Null), "null");
    assert_eq!(to_json_text(&CanonicalValue::Bool(true)), "true");
    assert_eq!(to_json_text(&CanonicalValue::Bool(false)), "false");
    assert_eq!(to_json_text(&num("2")), "2");
    assert_eq!(to_json_text(&num("-3.25e10")), "-3.25e10");
    assert_eq!(to_json_text(&text("hi")), "\"hi\"");
}

#[test]
fn encodes_string_escapes() {
    assert_eq!(to_json_text(&text("a\"b")), "\"a\\\"b\"");
    assert_eq!(to_json_text(&text("a\\b")), "\"a\\\\b\"");
    assert_eq!(to_json_text(&text("a\nb\rc\td")), "\"a\\nb\\rc\\td\"");
    assert_eq!(to_json_text(&text("x\u{1}y\u{1f}z")), "\"x\\u0001y\\u001fz\"");
    assert_eq!(to_json_text(&text("a\u{8}b\u{c}c")), "\"a\\bb\\fc\"");
    assert_eq!(to_json_text(&text("héllo")), "\"héllo\"");
}

#[test]
fn encodes_arrays_and_objects() {
    assert_eq!(to_json_text(&CanonicalValue::Array(vec![])), "[]");
    assert_eq!(to_json_text(&CanonicalValue::Object(vec![])), "{}");
    let arr = CanonicalValue::Array(vec![CanonicalValue::Null, CanonicalValue::Bool(true), num("2.5")]);
    assert_eq!(to_json_text(&arr), "[null,true,2.5]");
    let obj = CanonicalValue::Object(vec![
        ("a".to_string(), num("1")),
        ("b".to_string(), text("x")),
        ("c".to_string(), CanonicalValue::Array(vec![num("7")])),
    ]);
    assert_eq!(to_json_text(&obj), "{\"a\":1,\"b\":\"x\",\"c\":[7]}");
}

#[test]
fn decodes_scalars() {
    assert_eq!(decode_value("null"), Some(CanonicalValue::Null));
    assert_eq!(decode_value("true"), Some(CanonicalValue::Bool(true)));
    assert_eq!(decode_value("false"), Some(CanonicalValue::Bool(false)));
    assert_eq!(decode_value("42"), Some(num("42")));
    assert_eq!(decode_value("-1.5e-3"), Some(num("-1.5e-3")));
    assert_eq!(decode_value("\"hi\""), Some(text("hi")));
}

#[test]
fn decodes_escapes() {
    assert_eq!(decode_value("\"a\\\"b\\\\c\\nd\\re\\tf\""), Some(text("a\"b\\c\nd\re\tf")));
    assert_eq!(decode_value("\"x\\u0001y\""), Some(text("x\u{1}y")));
    assert_eq!(decode_value("\"a\\bb\\fc\""), Some(text("a\u{8}b\u{c}c")));
}

#[test]
fn decodes_nested_structures() {
    assert_eq!(decode_value("[]"), Some(CanonicalValue::Array(vec![])));
    assert_eq!(decode_value("{}"), Some(CanonicalValue::Object(vec![])));
    let got = decode_value("{\"a\":[1,null,\"x\"],\"b\":{\"c\":false}}");
    let want = CanonicalValue::Object(vec![
        (
            "a".to_string(),
            CanonicalValue::Array(vec![num("1"), CanonicalValue::Null, text("x")]),
        ),
        (
            "b".to_string(),
            CanonicalValue::Object(vec![("c".to_string(), CanonicalValue::Bool(false))]),
        ),
    ]);
    assert_eq!(got, Some(want));
}

#[test]
fn round_trips_through_the_codec() {
    let samples = vec![
        CanonicalValue::Null,
        CanonicalValue::Bool(true),
        num("0"),
        num("-12.75e2"),
        text(""),
        text("line\nbreak \"quoted\" \\slash\\ \u{2} \u{8} \u{c} ünïcode"),
        CanonicalValue::Array(vec![]),
        CanonicalValue::Array(vec![
            num("1"),
            CanonicalValue::Array(vec![text("deep"), CanonicalValue::Null]),
            CanonicalValue::Object(vec![("k".to_string(), num("9"))]),
        ]),
        CanonicalValue::Object(vec![
            ("empty".to_string(), CanonicalValue::Object(vec![])),
            ("list".to_string(), CanonicalValue::Array(vec![CanonicalValue::Bool(false)])),
        ]),
    ];
    for v in samples {
        let encoded = to_json_text(&v);
        let decoded = decode_value(&encoded);
        assert_eq!(decoded, Some(v));
    }
}

#[test]
fn rejects_text_that_is_not_canonical() {
    assert_eq!(decode_value(""), None);
    assert_eq!(decode_value("nul"), None);
    assert_eq!(decode_value("truthy"), None);
    assert_eq!(decode_value(" null"), None);
    assert_eq!(decode_value("null "), None);
    assert_eq!(decode_value("[1,"), None);
    assert_eq!(decode_value("[1,]"), None);
    assert_eq!(decode_value("{\"a\"1}"), None);
    assert_eq!(decode_value("{\"a\":1"), None);
    assert_eq!(decode_value("\"unterminated"), None);
    // a non-canonical escape for a printable character
    assert_eq!(decode_value("\"\\u0041\""), None);
    // backspace and form feed have short escapes, so the long form is refused
    assert_eq!(decode_value("\"\\u0008\""), None);
    assert_eq!(decode_value("\"\\u000c\""), None);
    // an upper-case hexadecimal escape is not canonical either
    assert_eq!(decode_value("\"\\u000B\""), None);
    // a literal control character must be escaped
    assert_eq!(decode_value("\"a\u{1}b\""), None);
}

#[test]
fn accepts_canonical_number_texts() {
    assert!(number_text_valid("0"));
    assert!(number_text_valid("7"));
    assert!(number_text_valid("-7"));
    assert!(number_text_valid("10203"));
    assert!(number_text_valid("0.5"));
    assert!(number_text_valid("-12.75"));
    assert!(number_text_valid("1e30"));
    assert!(number_text_valid("2.5e-3"));
    assert!(number_text_valid("6E+10"));
}

#[test]
fn rejects_other_number_texts() {
    assert!(!number_text_valid(""));
    assert!(!number_text_valid("-"));
    assert!(!number_text_valid("01"));
    assert!(!number_text_valid("1."));
    assert!(!number_text_valid(".5"));
    assert!(!number_text_valid("+1"));
    assert!(!number_text_valid("1e"));
    assert!(!number_text_valid("1e+"));
    assert!(!number_text_valid("1x"));
    assert!(!number_text_valid("1.2.3"));
}

#[test]
fn number_constructor_guards_well_formedness() {
    assert_eq!(
        CanonicalValue::number("2".to_string()),
        Some(CanonicalValue::Number("2".to_string()))
    );
    assert_eq!(CanonicalValue::number("2x".to_string()), None);
}
