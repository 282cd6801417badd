use toon_lsp::toon::decoder::decode;
use toon_lsp::toon::error::DecodeError;
use toon_lsp::toon::value::JsonValue;

fn entries(v: &JsonValue) -> &Vec<(String, JsonValue)> {
    match v {
        JsonValue::Object(e) => e,
        other => panic!("expected an object, got {:?}", other),
    }
}

fn field<'a>(v: &'a JsonValue, key: &str) -> &'a JsonValue {
    &entries(v).iter().find(|(k, _)| k == key).expect("missing key").1
}

fn items(v: &JsonValue) -> &Vec<JsonValue> {
    match v {
        JsonValue::Array(a) => a,
        other => panic!("expected an array, got {:?}", other),
    }
}

fn string(v: &JsonValue) -> &str {
    match v {
        JsonValue::String(s) => s,
        other => panic!("expected a string, got {:?}", other),
    }
}

fn message(r: Result<JsonValue, DecodeError>) -> String {
    match r {
        Err(DecodeError::Structure(m)) => m,
        other => panic!("expected a structure error, got {:?}", other),
    }
}

#[test]
fn blank_document_is_empty_object() {
    assert!(entries(&decode("").unwrap()).is_empty());
    assert!(entries(&decode("\n  \n# only a comment\n").unwrap()).is_empty());
}

#[test]
fn decodes_flat_object() {
    let v = decode("name: Alice\nage: 30\nactive: true\nnothing: null").unwrap();
    assert_eq!(entries(&v).len(), 4);
    assert_eq!(string(field(&v, "name")), "Alice");
    assert!(matches!(field(&v, "age"), JsonValue::Int(30)));
    assert!(matches!(field(&v, "active"), JsonValue::Bool(true)));
    assert!(matches!(field(&v, "nothing"), JsonValue::Null));
}

#[test]
fn nested_object() {
    let v = decode("user:\n  name: Bob\n  id: 7").unwrap();
    let user = field(&v, "user");
    assert_eq!(string(field(user, "name")), "Bob");
    assert!(matches!(field(user, "id"), JsonValue::Int(7)));
}

#[test]
fn inline_array_with_count() {
    let v = decode("tags[3]: a,b,c").unwrap();
    let tags = items(field(&v, "tags"));
    assert_eq!(tags.len(), 3);
    assert_eq!(string(&tags[2]), "c");
}

#[test]
fn inline_array_count_mismatch() {
    assert_eq!(message(decode("tags[3]: a,b")), "array length mismatch");
}

#[test]
fn tabular_array_rows_are_objects() {
    let v = decode("users[2]{id,name}:\n  1,Alice\n  2,Bob").unwrap();
    let rows = items(field(&v, "users"));
    assert_eq!(rows.len(), 2);
    assert!(matches!(field(&rows[0], "id"), JsonValue::Int(1)));
    assert_eq!(string(field(&rows[1], "name")), "Bob");
}

#[test]
fn tabular_row_width_mismatch() {
    assert_eq!(message(decode("users[1]{id,name}:\n  1")), "tabular row has 1 values but 2 columns");
}

#[test]
fn tabular_row_count_mismatch() {
    assert_eq!(
        message(decode("users[2]{id,name}:\n  1,Alice")),
        "tabular row count mismatch with header length"
    );
}

#[test]
fn expanded_array() {
    let v = decode("- a\n- b\n- 3").unwrap();
    let a = items(&v);
    assert_eq!(a.len(), 3);
    assert_eq!(string(&a[1]), "b");
    assert!(matches!(a[2], JsonValue::Int(3)));
}

#[test]
fn root_array_header() {
    let v = decode("[2]: 1,2").unwrap();
    assert_eq!(items(&v).len(), 2);
}

#[test]
fn pipe_delimiter() {
    let v = decode("xs[2|]: a,b|c").unwrap();
    let xs = items(field(&v, "xs"));
    assert_eq!(string(&xs[0]), "a,b");
    assert_eq!(string(&xs[1]), "c");
}

#[test]
fn quoted_strings_and_escapes() {
    let v = decode("s: \"a\\nb\"\nu: \"\\u0041\"\n\"odd key\": 1").unwrap();
    assert_eq!(string(field(&v, "s")), "a\nb");
    assert_eq!(string(field(&v, "u")), "A");
    assert!(matches!(field(&v, "odd key"), JsonValue::Int(1)));
}

#[test]
fn escape_errors() {
    assert_eq!(message(decode("s: \"a\\q\"")), "Invalid escape: \\q");
    assert_eq!(message(decode("s: \"\\u12\"")), "Invalid \\u escape");
    assert_eq!(message(decode("s: \"\\uD800\"")), "invalid unicode code point");
    assert_eq!(message(decode("s: \"abc")), "Unterminated quoted string");
}

#[test]
fn numbers() {
    let v = decode("h: 0x1F\nn: -0x10\nz: 007\nf: 1.5\nbig: 18446744073709551615\nneg: -12").unwrap();
    assert!(matches!(field(&v, "h"), JsonValue::Int(31)));
    assert!(matches!(field(&v, "n"), JsonValue::Int(-16)));
    assert_eq!(string(field(&v, "z")), "007");
    assert!(matches!(field(&v, "f"), JsonValue::Float(t) if t == "1.5"));
    assert!(matches!(field(&v, "big"), JsonValue::UInt(18446744073709551615)));
    assert!(matches!(field(&v, "neg"), JsonValue::Int(-12)));
}

#[test]
fn references_and_comments() {
    let v = decode("r: ${a.b} # the path\nt: x # y").unwrap();
    assert_eq!(string(field(&v, "r")), "${a.b}");
    assert_eq!(string(field(&v, "t")), "x");
}

#[test]
fn block_comment_is_blanked() {
    let v = decode("a: 1 /* note */\nb: 2").unwrap();
    assert!(matches!(field(&v, "a"), JsonValue::Int(1)));
    assert_eq!(message(decode("a: 1 /* open")), "Unterminated block comment");
}

#[test]
fn tabs_in_indentation_are_refused() {
    assert_eq!(message(decode("a:\n\tb: 1")), "Tabs not allowed in indentation");
}

#[test]
fn empty_value_is_empty_object() {
    let v = decode("a:\nb: 1").unwrap();
    assert!(entries(field(&v, "a")).is_empty());
}

#[test]
fn repeated_key_keeps_first_place() {
    let v = decode("a: 1\nb: 2\na: 3").unwrap();
    assert_eq!(entries(&v).len(), 2);
    assert_eq!(entries(&v)[0].0, "a");
    assert!(matches!(entries(&v)[0].1, JsonValue::Int(3)));
}

#[test]
fn empty_inline_array() {
    let v = decode("xs: []").unwrap();
    assert!(items(field(&v, "xs")).is_empty());
}
