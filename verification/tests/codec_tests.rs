use nbreact::codec::{parse_value_line, parse_value_text, serialize_value};
use nbreact::value::JsonValue;

fn round_trip(text: &str) {
    let v = parse_value_line(text.as_bytes()).expect("should parse");
    let back = serialize_value(&v);
    assert_eq!(String::from_utf8(back).unwrap(), text);
}

#[test]
fn scalars_round_trip() {
    round_trip("null");
    round_trip("true");
    round_trip("false");
    round_trip("0");
    round_trip("-12");
    round_trip("3.5");
    round_trip("85.0");
    round_trip("\"\"");
    round_trip("\"hello\"");
}

#[test]
fn nested_values_round_trip() {
    round_trip("[]");
    round_trip("{}");
    round_trip("[1,2,3]");
    round_trip("[[],[null],{\"a\":[true]}]");
    round_trip("{\"a\":{\"b\":{\"c\":-1.25}}}");
    round_trip("{\"jsonrpc\":\"2.0\",\"method\":\"ping\",\"id\":1}");
}

#[test]
fn escapes_round_trip() {
    round_trip("\"line\\nbreak\"");
    round_trip("\"tab\\there\"");
    round_trip("\"quote\\\"backslash\\\\\"");
    round_trip("\"ctrl\\u0001byte\"");
    round_trip("\"carriage\\rreturn\"");
}

#[test]
fn unicode_text_round_trips_as_bytes() {
    round_trip("\"caf\u{e9} \u{2603}\"");
}

#[test]
fn serialize_then_parse_yields_equal_value() {
    let v = JsonValue::Obj(vec![
        (b"xs".to_vec(), JsonValue::Arr(vec![
            JsonValue::Num(b"1".to_vec()),
            JsonValue::Str(b"two\nlines".to_vec()),
            JsonValue::Null,
        ])),
        (b"ok".to_vec(), JsonValue::Bool(true)),
    ]);
    let bytes = serialize_value(&v);
    let parsed = parse_value_line(&bytes).expect("canonical form should parse");
    assert_eq!(parsed, v);
}

#[test]
fn parsed_envelope_reserializes_to_same_line() {
    let line = "{\"jsonrpc\":\"2.0\",\"result\":{},\"error\":null,\"id\":null}";
    let v = parse_value_line(line.as_bytes()).unwrap();
    assert_eq!(String::from_utf8(serialize_value(&v)).unwrap(), line);
}

#[test]
fn malformed_inputs_rejected() {
    assert!(parse_value_line(b"").is_none());
    assert!(parse_value_line(b"nul").is_none());
    assert!(parse_value_line(b"{\"a\":}").is_none());
    assert!(parse_value_line(b"[1,]").is_none());
    assert!(parse_value_line(b"\"open").is_none());
    assert!(parse_value_line(b"1.").is_none());
    assert!(parse_value_line(b"{}extra").is_none());
}

#[test]
fn serializer_output_is_single_line() {
    let v = JsonValue::Obj(vec![(
        b"text".to_vec(),
        JsonValue::Str(b"a\nb\rc".to_vec()),
    )]);
    let bytes = serialize_value(&v);
    assert!(!bytes.contains(&b'\n'));
    assert!(!bytes.contains(&b'\r'));
}

#[test]
fn whitespace_between_tokens_ignored() {
    let v = parse_value_text(b"[ 1 ,\t2 ,\n {\"a b\" : \"c d\"} ]").expect("should parse");
    let back = serialize_value(&v);
    assert_eq!(String::from_utf8(back).unwrap(), "[1,2,{\"a b\":\"c d\"}]");
}

#[test]
fn whitespace_inside_escaped_string_kept() {
    let v = parse_value_text(b" \"sp \\\" ace\" ").expect("should parse");
    let back = serialize_value(&v);
    assert_eq!(String::from_utf8(back).unwrap(), "\"sp \\\" ace\"");
}
