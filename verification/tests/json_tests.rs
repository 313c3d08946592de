use transcript_context::json::JsonValue;
use transcript_context::json_parse::{parse, parse_str};
use transcript_context::errors::ParseError;

fn select(src: &str, set: &rangeset::set::RangeSet<usize>) -> String {
    let mut out = String::new();
    for r in set.iter() {
        out.push_str(&src[r]);
    }
    out
}

#[test]
fn test_obj_index() {
    let src = "{\"foo\": \"bar\"}";

    let value = parse_str(src).unwrap();

    assert_eq!(value.get("foo").unwrap().as_bytes(), b"bar");
}

#[test]
fn test_array_index() {
    let src = "{\"foo\": [42, 14]}";

    let value = parse_str(src).unwrap();

    assert_eq!(value.get("foo.1").unwrap().as_bytes(), b"14");
}

#[test]
fn test_nested_index() {
    let src = "{\"foo\": {\"bar\": [42, 14]}}";

    let value = parse_str(src).unwrap();

    assert_eq!(value.get("foo.bar.1").unwrap().as_bytes(), b"14");
}

#[test]
fn test_key_value_without_value() {
    let src = "{\"foo\": \"bar\"\n}";

    let value = match parse_str(src).unwrap() {
        JsonValue::Object(value) => value,
        _ => panic!("expected object"),
    };

    let indices = value.elems[0].without_value();

    assert_eq!(select(src, &indices), "\"foo\": \"\"");
}

#[test]
fn test_array_without_values() {
    let src = "[42, 14]";

    let value = match parse_str(src).unwrap() {
        JsonValue::Array(value) => value,
        _ => panic!("expected object"),
    };

    let indices = value.without_values();

    assert_eq!(select(src, &indices), "[]");
}

#[test]
fn test_object_without_pairs() {
    let src = "{\"foo\": \"bar\"\n}";

    let value = match parse_str(src).unwrap() {
        JsonValue::Object(value) => value,
        _ => panic!("expected object"),
    };

    let indices = value.without_pairs();

    assert_eq!(select(src, &indices), "{\n}");
}

#[test]
fn test_redacted_one_byte() {
    let src = "\0";
    let value = parse_str(src).unwrap();
    assert_eq!(value.as_bytes(), b"\0");
}

#[test]
fn test_redacted_value() {
    let src = "\0\0\0";
    let value = parse_str(src).unwrap();
    assert_eq!(value.as_bytes(), b"\0\0\0");
}

#[test]
fn test_redacted_value_in_object() {
    let src = "{\"foo\": \0\0\0}";
    let value = parse_str(src).unwrap();
    assert_eq!(value.get("foo").unwrap().as_bytes(), b"\0\0\0");
}

#[test]
fn test_redacted_value_in_array() {
    let src = "[1, \0\0\0]";
    let value = parse_str(src).unwrap();
    assert_eq!(value.get("1").unwrap().as_bytes(), b"\0\0\0");
}

#[test]
fn redacted_from_asterisks() {
    let value = parse_str("{\"id\":***}").unwrap();
    assert!(matches!(value.get("id").unwrap(), JsonValue::Redacted(_)));
}

#[test]
fn redacted_inside_number_literal() {
    let value = parse_str("[12*]").unwrap();
    let elem = value.get("0").unwrap();
    assert!(matches!(elem, JsonValue::Redacted(_)));
    assert_eq!(elem.as_bytes(), b"12*");
}

#[test]
fn redacted_string_content() {
    let value = parse_str("{\"name\": \"***\"}").unwrap();
    assert!(matches!(value.get("name").unwrap(), JsonValue::Redacted(_)));
}

#[test]
fn parse_scalars() {
    assert!(matches!(parse_str("null").unwrap(), JsonValue::Null(_)));
    assert!(matches!(parse_str("true").unwrap(), JsonValue::Bool(_)));
    assert!(matches!(parse_str("false").unwrap(), JsonValue::Bool(_)));
    assert!(matches!(parse_str("-12.5e3").unwrap(), JsonValue::Number(_)));
    assert!(matches!(parse_str("\"hi\"").unwrap(), JsonValue::String(_)));
}

#[test]
fn parse_rejects_malformed() {
    assert!(matches!(
        parse_str("{\"a\" 1}"),
        Err(ParseError::Malformed { byte_offset: 5 })
    ));
    assert!(matches!(parse_str("01"), Err(ParseError::Malformed { .. })));
    assert!(matches!(parse_str("tru"), Err(ParseError::Malformed { .. })));
    assert!(matches!(parse_str("[1, 2"), Err(ParseError::UnexpectedEnd)));
    assert!(matches!(parse_str("\"abc"), Err(ParseError::UnexpectedEnd)));
    assert!(matches!(parse_str(""), Err(ParseError::UnexpectedEnd)));
    assert!(matches!(parse_str("[1] junk"), Err(ParseError::Malformed { .. })));
}

#[test]
fn parse_nested_structure() {
    let value = parse(b"{\"a\": [true, null, {\"b\": \"c\"}], \"d\": 7}").unwrap();
    assert_eq!(value.get("a.2.b").unwrap().as_bytes(), b"c");
    assert_eq!(value.get("d").unwrap().as_bytes(), b"7");
    assert!(value.get("missing").is_none());
    assert!(value.get("a.9").is_none());
}

#[test]
fn get_keyvalue_by_path() {
    let src = "{\"foo\": {\"bar\": 1}}";
    let value = parse_str(src).unwrap();
    let kv = value.get_keyvalue("foo.bar").unwrap();
    assert_eq!(kv.key.0.as_bytes(), b"bar");
    assert_eq!(kv.value.as_bytes(), b"1");
    let top = value.get_keyvalue("foo").unwrap();
    assert_eq!(top.key.0.as_bytes(), b"foo");
    assert!(value.get_keyvalue("nope").is_none());
}

#[test]
fn array_separators_cover_commas() {
    let src = "[42, 14]";
    let value = match parse_str(src).unwrap() {
        JsonValue::Array(a) => a,
        _ => panic!("expected array"),
    };
    assert_eq!(select(src, &value.separators()), ", ");
}

#[test]
fn offset_shifts_every_span() {
    let value = parse_str("{\"a\": [1, 2]}").unwrap();
    let start_before = value.get("a.1").unwrap().span().start;
    let shifted = value.offset(10);
    assert_eq!(shifted.get("a.1").unwrap().span().start, start_before + 10);
    assert_eq!(shifted.span().start, 10);
}

#[test]
fn span_round_trip_reparses_structurally() {
    // The bytes recovered from a parsed value's span parse back to the same
    // shape with the same leaf bytes.
    let src = "{\"a\": [1, {\"b\": null}], \"c\": \"x\"}";
    let value = parse_str(src).unwrap();
    let inner = value.get("a.1").unwrap();
    let slice = inner.as_bytes();
    let reparsed = parse(slice).unwrap();
    assert_eq!(reparsed.get("b").unwrap().as_bytes(), b"null");
    assert!(matches!(reparsed.get("b").unwrap(), JsonValue::Null(_)));
    let whole = parse(value.as_bytes()).unwrap();
    assert_eq!(whole.get("a.1.b").unwrap().as_bytes(), b"null");
    assert_eq!(whole.get("c").unwrap().as_bytes(), b"x");
}
