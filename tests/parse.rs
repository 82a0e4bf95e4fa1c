use json_parser::{parse, serialize, JsonValue, ParseError, Parser};

fn nested(open: char, close: char, levels: usize) -> String {
    let mut s = String::new();
    for _ in 0..levels {
        s.push(open);
    }
    for _ in 0..levels {
        s.push(close);
    }
    s
}

#[test]
fn empty_object_parses_and_writes_back() {
    let v = parse("{}").unwrap();
    match &v {
        JsonValue::Object(m) => assert!(m.is_empty()),
        other => panic!("expected an object, got {:?}", other),
    }
    assert_eq!(serialize(&v), "{}");
}

#[test]
fn empty_array_parses_and_writes_back() {
    let v = parse("[]").unwrap();
    match &v {
        JsonValue::Array(a) => assert!(a.is_empty()),
        other => panic!("expected an array, got {:?}", other),
    }
    assert_eq!(serialize(&v), "[]");
}

#[test]
fn duplicate_key_keeps_one_entry_with_last_value() {
    let v = parse(r#"{"a":1,"a":2}"#).unwrap();
    match &v {
        JsonValue::Object(m) => {
            assert_eq!(m.len(), 1);
            assert_eq!(m[0].0, "a");
            match &m[0].1 {
                JsonValue::Number(t) => assert_eq!(t, "2"),
                other => panic!("expected a number, got {:?}", other),
            }
        }
        other => panic!("expected an object, got {:?}", other),
    }
}

#[test]
fn duplicate_key_keeps_first_position() {
    let v = parse(r#"{"a":1,"b":2,"a":3}"#).unwrap();
    assert_eq!(serialize(&v), r#"{"a": 3, "b": 2}"#);
}

#[test]
fn trailing_comma_in_array() {
    assert_eq!(parse("[1,2,]").unwrap_err(), ParseError::TrailingComma(5));
}

#[test]
fn trailing_comma_in_object() {
    assert_eq!(parse(r#"{"a":1,}"#).unwrap_err(), ParseError::TrailingComma(7));
}

#[test]
fn twenty_levels_parse() {
    assert!(parse(&nested('[', ']', 20)).is_ok());
    assert!(parse(&nested('[', ']', 1)).is_ok());
}

#[test]
fn twenty_one_levels_fail() {
    assert_eq!(parse(&nested('[', ']', 21)).unwrap_err(), ParseError::MaxDepthExceeded(20));
}

#[test]
fn twenty_one_object_levels_fail() {
    let mut s = String::new();
    for _ in 0..21 {
        s.push_str("{\"k\":");
    }
    s.push('1');
    for _ in 0..21 {
        s.push('}');
    }
    assert_eq!(parse(&s).unwrap_err(), ParseError::MaxDepthExceeded(100));
}

#[test]
fn deep_adversarial_input_fails_without_overflow() {
    let s: String = std::iter::repeat('[').take(10000).collect();
    assert_eq!(parse(&s).unwrap_err(), ParseError::MaxDepthExceeded(20));
}

#[test]
fn leading_zero_inside_document() {
    assert_eq!(parse("[01]").unwrap_err(), ParseError::LeadingZero(3));
    assert_eq!(parse("[-01]").unwrap_err(), ParseError::LeadingZero(4));
    assert_eq!(parse("[00]").unwrap_err(), ParseError::LeadingZero(3));
    assert!(parse("[0]").is_ok());
    assert!(parse("[0.5]").is_ok());
    assert!(parse("[-0]").is_ok());
    assert_eq!(parse("[01.5]").unwrap()
        .to_string(), "[01.5]");
}

#[test]
fn leading_zero_as_a_value() {
    assert_eq!(Parser::new("01").parse_value(0).unwrap_err(), ParseError::LeadingZero(2));
    assert_eq!(Parser::new("-01").parse_value(0).unwrap_err(), ParseError::LeadingZero(3));
    assert_eq!(Parser::new("00").parse_value(0).unwrap_err(), ParseError::LeadingZero(2));
    assert!(Parser::new("0").parse_value(0).is_ok());
    assert!(Parser::new("0.5").parse_value(0).is_ok());
}

#[test]
fn bare_scalar_document_is_rejected() {
    assert_eq!(parse("01").unwrap_err(), ParseError::UnexpectedToken(0));
    assert_eq!(parse("  0").unwrap_err(), ParseError::UnexpectedToken(2));
    assert_eq!(parse("").unwrap_err(), ParseError::UnexpectedEndOfInput);
    assert_eq!(parse("   ").unwrap_err(), ParseError::UnexpectedEndOfInput);
}

#[test]
fn unterminated_string() {
    assert_eq!(parse(r#"["unterminated]"#).unwrap_err(), ParseError::UnexpectedEndOfInput);
}

#[test]
fn escaped_tab_is_accepted() {
    let v = parse(r#"{"a":"x\ty"}"#).unwrap();
    match &v {
        JsonValue::Object(m) => match &m[0].1 {
            JsonValue::String(t) => assert_eq!(t, "x\ty"),
            other => panic!("expected a string, got {:?}", other),
        },
        other => panic!("expected an object, got {:?}", other),
    }
}

#[test]
fn raw_tab_is_rejected() {
    assert_eq!(parse("{\"a\":\"x\ty\"}").unwrap_err(), ParseError::UnexpectedToken(7));
}

#[test]
fn raw_newline_and_return_are_rejected() {
    assert_eq!(parse("[\"a\nb\"]").unwrap_err(), ParseError::UnexpectedToken(3));
    assert_eq!(parse("[\"a\rb\"]").unwrap_err(), ParseError::UnexpectedToken(3));
}

#[test]
fn escapes_map_to_characters() {
    let v = parse(r#"["\"\\\/\b\f\n\r\tAé"]"#).unwrap();
    match &v {
        JsonValue::Array(a) => match &a[0] {
            JsonValue::String(t) => assert_eq!(t, "\"\\/\u{8}\u{c}\n\r\tA\u{e9}"),
            other => panic!("expected a string, got {:?}", other),
        },
        other => panic!("expected an array, got {:?}", other),
    }
}

#[test]
fn unicode_escapes_give_code_points() {
    let v = parse(r#"["\u0041\u00e9\u00E9x"]"#).unwrap();
    match &v {
        JsonValue::Array(a) => match &a[0] {
            JsonValue::String(t) => assert_eq!(t, "A\u{e9}\u{e9}x"),
            other => panic!("expected a string, got {:?}", other),
        },
        other => panic!("expected an array, got {:?}", other),
    }
}

#[test]
fn bad_escapes_are_rejected() {
    assert_eq!(parse(r#"["\x"]"#).unwrap_err(), ParseError::UnexpectedToken(3));
    assert_eq!(parse(r#"["\u12G4"]"#).unwrap_err(), ParseError::UnexpectedToken(6));
    assert_eq!(parse(r#"["\uD800"]"#).unwrap_err(), ParseError::UnexpectedToken(2));
    assert_eq!(parse(r#"["\u12"#).unwrap_err(), ParseError::UnexpectedEndOfInput);
    assert_eq!(parse(r#"["\"#).unwrap_err(), ParseError::UnexpectedEndOfInput);
}

#[test]
fn numbers_keep_their_text() {
    let v = parse("[1.5e10, -2E-3, 0, 12, 3.25, 7e+2]").unwrap();
    assert_eq!(serialize(&v), "[1.5e10, -2E-3, 0, 12, 3.25, 7e+2]");
}

#[test]
fn malformed_numbers() {
    assert_eq!(parse("[-]").unwrap_err(), ParseError::UnexpectedToken(2));
    assert_eq!(parse("[1.]").unwrap_err(), ParseError::UnexpectedToken(3));
    assert_eq!(parse("[1.").unwrap_err(), ParseError::UnexpectedEndOfInput);
    assert_eq!(parse("[1e]").unwrap_err(), ParseError::UnexpectedToken(3));
    assert_eq!(parse("[1e+").unwrap_err(), ParseError::UnexpectedEndOfInput);
}

#[test]
fn literals() {
    let v = parse("[true, false, null]").unwrap();
    assert_eq!(serialize(&v), "[true, false, null]");
    assert_eq!(parse("[tru]").unwrap_err(), ParseError::UnexpectedToken(1));
    assert_eq!(parse("[nulls]").unwrap_err(), ParseError::UnexpectedToken(1));
    assert_eq!(parse("[trueé]").unwrap_err(), ParseError::UnexpectedToken(1));
}

#[test]
fn unexpected_characters() {
    assert_eq!(parse("[x]").unwrap_err(), ParseError::UnexpectedToken(1));
    assert_eq!(parse(r#"{"a" 1}"#).unwrap_err(), ParseError::UnexpectedToken(5));
    assert_eq!(parse("{1:2}").unwrap_err(), ParseError::UnexpectedToken(1));
    assert_eq!(parse("[1] x").unwrap_err(), ParseError::UnexpectedToken(4));
    assert_eq!(parse("[1 2]").unwrap_err(), ParseError::UnexpectedEndOfInput);
}

#[test]
fn positions_count_characters() {
    assert_eq!(parse("[\"é\", x]").unwrap_err(), ParseError::UnexpectedToken(6));
}

#[test]
fn whitespace_around_items() {
    let v = parse(" \t\n{ \"a\" : [ 1 , 2 ] ,\r\n \"b\" : { } }  ").unwrap();
    assert_eq!(serialize(&v), r#"{"a": [1, 2], "b": {}}"#);
}

#[test]
fn nested_shape_mirrors_input() {
    let v = parse(r#"{"x": [1, {"y": [true]}], "z": null}"#).unwrap();
    match &v {
        JsonValue::Object(m) => {
            assert_eq!(m.len(), 2);
            assert_eq!(m[0].0, "x");
            assert_eq!(m[1].0, "z");
            match &m[0].1 {
                JsonValue::Array(a) => {
                    assert_eq!(a.len(), 2);
                    assert!(matches!(&a[1], JsonValue::Object(inner) if inner.len() == 1));
                }
                other => panic!("expected an array, got {:?}", other),
            }
            assert!(matches!(m[1].1, JsonValue::Null));
        }
        other => panic!("expected an object, got {:?}", other),
    }
}

#[test]
fn cursor_operations() {
    let mut p = Parser::new(" \té!");
    assert_eq!(p.peek(), Some(' '));
    p.skip_whitespace();
    assert_eq!(p.peek(), Some('é'));
    assert_eq!(p.consume(), Some('é'));
    assert_eq!(p.peek(), Some('!'));
    p.skip_whitespace();
    assert_eq!(p.consume(), Some('!'));
    assert_eq!(p.consume(), None);
    assert_eq!(p.peek(), None);
}

#[test]
fn same_whitespace_at_every_gap_reads_the_same() {
    let w = " \t\n\r";
    let text = format!(
        "{w}[{w}1{w},{w}{{{w}\"a\"{w}:{w}null{w},{w}\"b\"{w}:{w}[{w}]{w}}}{w},{w}\"s\"{w}]{w}"
    );
    let v = parse(&text).unwrap();
    assert_eq!(serialize(&v), r#"[1, {"a": null, "b": []}, "s"]"#);
}
