use taplo_schema::json::{JsonNumber, JsonValue};
use taplo_schema::jsontext::to_json_text;

fn from_serde(v: &serde_json::Value) -> JsonValue {
    match v {
        serde_json::Value::Null => JsonValue::Null,
        serde_json::Value::Bool(b) => JsonValue::Bool(*b),
        serde_json::Value::Number(n) => JsonValue::Number(if let Some(u) = n.as_u64() {
            JsonNumber::PosInt(u)
        } else if let Some(i) = n.as_i64() {
            JsonNumber::NegInt(i)
        } else {
            JsonNumber::Float { text: n.to_string(), zero: n.as_f64() == Some(0.0) }
        }),
        serde_json::Value::String(s) => JsonValue::String(s.clone()),
        serde_json::Value::Array(items) => JsonValue::Array(items.iter().map(from_serde).collect()),
        serde_json::Value::Object(map) => JsonValue::Object(
            map.iter().map(|(k, v)| (k.clone(), from_serde(v))).collect(),
        ),
    }
}

#[test]
fn json_text_is_compact_and_escapes_what_json_requires() {
    let v = JsonValue::Object(vec![
        ("a".to_owned(), JsonValue::Array(vec![
            JsonValue::Number(JsonNumber::PosInt(1)),
            JsonValue::Number(JsonNumber::NegInt(-2)),
            JsonValue::Number(JsonNumber::Float { text: "1.5".to_owned(), zero: false }),
            JsonValue::Bool(true),
            JsonValue::Null,
            JsonValue::String("x\"\\\n\u{1}é".to_owned()),
        ])),
        ("b".to_owned(), JsonValue::Object(vec![])),
        ("c".to_owned(), JsonValue::Array(vec![])),
    ]);
    assert_eq!(
        to_json_text(&v),
        "{\"a\":[1,-2,1.5,true,null,\"x\\\"\\\\\\u000a\\u0001é\"],\"b\":{},\"c\":[]}"
    );
}

#[test]
fn json_text_reads_back_as_the_same_value() {
    for text in [
        r#"{"name":"taplo","version":[1,2,3],"nested":{"ok":true,"none":null,"ratio":0.25,"neg":-7}}"#,
        r#"["tab\there","line\nbreak","quote\"","unicode \u2603"]"#,
        r#""just a string""#,
        "18446744073709551615",
        "-9223372036854775808",
    ] {
        let parsed: serde_json::Value = serde_json::from_str(text).unwrap();
        let written = to_json_text(&from_serde(&parsed));
        let reread: serde_json::Value = serde_json::from_str(&written).unwrap();
        assert_eq!(reread, parsed, "{written}");
    }
}
