use serde_json::Value;
use toon_lsp::cli::convert::{
    decode_failure, decode_output_text, decode_toon, detect_input_format, encode_failure, encode_input_text,
    encode_json, encode_yaml,
};
use toon_lsp::cli::error::CliError;
use toon_lsp::cli::{InputFormat, OutputFormat};

fn json(text: &str) -> Value {
    serde_json::from_str(text).expect("valid JSON")
}

#[test]
fn test_encode_decode_roundtrip() {
    let value = r#"{"name": "test", "count": 42, "active": true}"#;
    let toon = encode_json(value).expect("encode failed");
    let decoded = decode_toon(&toon).expect("decode failed");
    assert_eq!(json(value), json(&decoded));
}

#[test]
fn test_encode_simple_object() {
    let value = r#"{"key": "value"}"#;
    let toon = encode_json(value).expect("encode failed");
    assert!(toon.contains("key"));
    assert!(toon.contains("value"));
}

#[test]
fn test_decode_simple_object() {
    let toon = "key: value\n";
    let value = decode_toon(toon).expect("decode failed");
    assert_eq!(json(&value), json(r#"{"key": "value"}"#));
}

#[test]
fn encode_json_writes_an_inline_array() {
    let value = r#"{"tags": ["reading", "gaming", "coding"]}"#;
    assert_eq!(encode_json(value).expect("encode failed"), "tags[3]: reading,gaming,coding");
}

#[test]
fn encode_yaml_reads_yaml_text() {
    let toon = encode_yaml("tags:\n  - reading\n  - gaming\n").expect("encode failed");
    assert_eq!(toon, "tags[2]: reading,gaming");
    assert_eq!(encode_input_text("name: Ada\n", InputFormat::Yaml).expect("encode failed"), "name: Ada");
}

#[test]
fn unreadable_input_keeps_the_reader_error() {
    assert!(matches!(encode_json("{not json"), Err(CliError::Json(_))));
    assert!(matches!(encode_input_text("a: [1", InputFormat::Yaml), Err(CliError::Yaml(_))));
}

#[test]
fn decode_toon_writes_compact_json() {
    let value = decode_toon("tags[3]: reading,gaming,coding").expect("decode failed");
    assert_eq!(value, r#"{"tags":["reading","gaming","coding"]}"#);
}

#[test]
fn decode_toon_reports_a_refused_document() {
    match decode_toon("items[3]: a,b") {
        Err(CliError::Decode(m)) => assert!(m.starts_with("Failed to decode TOON to JSON: ")),
        other => panic!("expected a decode error, got {:?}", other),
    }
}

#[test]
fn decode_output_in_each_format() {
    let toon = "name: Ada\nage: 36";
    assert_eq!(decode_output_text(toon, OutputFormat::Json, false).unwrap(), r#"{"name":"Ada","age":36}"#);
    assert_eq!(
        decode_output_text(toon, OutputFormat::Json, true).unwrap(),
        "{\n  \"name\": \"Ada\",\n  \"age\": 36\n}"
    );
    assert_eq!(decode_output_text(toon, OutputFormat::Yaml, false).unwrap(), "name: Ada\nage: 36\n");
}

#[test]
fn decode_output_turns_a_refusal_into_a_validation_error() {
    match decode_output_text("items[3]: a,b", OutputFormat::Json, false) {
        Err(CliError::Validation(m)) => assert!(m.starts_with("Decode error: Failed to decode TOON to JSON: ")),
        other => panic!("expected a validation error, got {:?}", other),
    }
}

#[test]
fn failures_carry_the_outside_message() {
    match decode_failure("bad input") {
        CliError::Decode(m) => assert_eq!(m, "Failed to decode TOON to JSON: bad input"),
        other => panic!("expected a decode error, got {:?}", other),
    }
    match encode_failure("bad value") {
        CliError::Encode(m) => assert_eq!(m, "Failed to encode JSON to TOON: bad value"),
        other => panic!("expected an encode error, got {:?}", other),
    }
}

#[test]
fn input_format_follows_the_file_extension() {
    let path = |p: &str| Some(p.to_string());
    assert_eq!(detect_input_format(&path("data.JSON"), InputFormat::Yaml), InputFormat::Json);
    assert_eq!(detect_input_format(&path("conf/app.yml"), InputFormat::Json), InputFormat::Yaml);
    assert_eq!(detect_input_format(&path("conf/app.Yaml"), InputFormat::Json), InputFormat::Yaml);
    assert_eq!(detect_input_format(&path("notes.txt"), InputFormat::Yaml), InputFormat::Yaml);
    assert_eq!(detect_input_format(&path("-"), InputFormat::Yaml), InputFormat::Yaml);
    assert_eq!(detect_input_format(&None, InputFormat::Json), InputFormat::Json);
    assert_eq!(detect_input_format(&path(".json"), InputFormat::Yaml), InputFormat::Yaml);
}
