use json_parser::{parse, serialize, JsonValue};

fn s(t: &str) -> String {
    t.to_string()
}

#[test]
fn scalars_are_written() {
    let v = JsonValue::Array(vec![
        JsonValue::Null,
        JsonValue::Boolean(true),
        JsonValue::Boolean(false),
        JsonValue::Number(s("-1.25")),
        JsonValue::String(s("hi")),
    ]);
    assert_eq!(serialize(&v), r#"[null, true, false, -1.25, "hi"]"#);
}

#[test]
fn objects_are_written_in_order() {
    let v = JsonValue::Object(vec![
        (s("b"), JsonValue::Number(s("1"))),
        (s("a"), JsonValue::Array(vec![])),
    ]);
    assert_eq!(serialize(&v), r#"{"b": 1, "a": []}"#);
    assert_eq!(v.to_string(), r#"{"b": 1, "a": []}"#);
}

#[test]
fn special_characters_are_escaped() {
    let v = JsonValue::Array(vec![JsonValue::String(s("q\"b\\n\nr\rt\tx\u{8}y\u{c}"))]);
    assert_eq!(serialize(&v), r#"["q\"b\\n\nr\rt\tx\by\f"]"#);
}

#[test]
fn round_trip_of_a_tree() {
    let v = JsonValue::Object(vec![
        (s("name"), JsonValue::String(s("tab\there \"quoted\""))),
        (s("list"), JsonValue::Array(vec![
            JsonValue::Number(s("1e5")),
            JsonValue::Object(vec![]),
            JsonValue::Array(vec![JsonValue::Null]),
        ])),
        (s("flag"), JsonValue::Boolean(false)),
    ]);
    let text = serialize(&v);
    let back = parse(&text).unwrap();
    assert_eq!(serialize(&back), text);
    match &back {
        JsonValue::Object(m) => {
            assert_eq!(m.len(), 3);
            match &m[0].1 {
                JsonValue::String(t) => assert_eq!(t, "tab\there \"quoted\""),
                other => panic!("expected a string, got {:?}", other),
            }
        }
        other => panic!("expected an object, got {:?}", other),
    }
}

#[test]
fn round_trip_of_parsed_text() {
    let text = r#"{"a": [1, 2.5, {"b": null}], "c": "d"}"#;
    assert_eq!(serialize(&parse(text).unwrap()), text);
}

#[test]
fn other_control_characters_are_written_as_code_escapes() {
    let v = JsonValue::Array(vec![JsonValue::String(s("\u{0}a\u{1}\u{b}\u{1f}\u{7f}z"))]);
    assert_eq!(serialize(&v), r#"["\u0000a\u0001\u000b\u001f\u007fz"]"#);
}

#[test]
fn control_characters_round_trip() {
    let text_in = "\u{1}\u{2}\t\n\u{e}\u{1b}\u{7f}\"\\ok";
    let v = JsonValue::Object(vec![(s("k\u{5}"), JsonValue::String(s(text_in)))]);
    let text = serialize(&v);
    assert!(!text.chars().any(|c| (c as u32) < 0x20 || c == '\u{7f}'));
    let back = parse(&text).unwrap();
    match &back {
        JsonValue::Object(m) => {
            assert_eq!(m[0].0, "k\u{5}");
            match &m[0].1 {
                JsonValue::String(t) => assert_eq!(t, text_in),
                other => panic!("expected a string, got {:?}", other),
            }
        }
        other => panic!("expected an object, got {:?}", other),
    }
}
