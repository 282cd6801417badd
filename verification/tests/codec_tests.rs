use toon_lsp::toon::emit::{emit_json_scalar, Delimiter};
use toon_lsp::toon::encode::{encode, encode_into, encode_with_config, encode_with_indent};
use toon_lsp::toon::fold::{expand_paths, flatten_keys, fold_keys};
use toon_lsp::toon::value::JsonValue;
use toon_lsp::toon::verify::{verify_round_trip, verify_round_trip_with_scratch};
use toon_lsp::toon::ToonConfig;

fn s(t: &str) -> JsonValue {
    JsonValue::String(t.to_string())
}

fn num(n: i64) -> JsonValue {
    JsonValue::Int(n)
}

fn arr(items: Vec<JsonValue>) -> JsonValue {
    JsonValue::Array(items)
}

fn obj(entries: Vec<(&str, JsonValue)>) -> JsonValue {
    JsonValue::Object(entries.into_iter().map(|(k, v)| (k.to_string(), v)).collect())
}

/// Structural equality, objects compared as maps.
fn same(a: &JsonValue, b: &JsonValue) -> bool {
    match (a, b) {
        (JsonValue::Null, JsonValue::Null) => true,
        (JsonValue::Bool(x), JsonValue::Bool(y)) => x == y,
        (JsonValue::Int(x), JsonValue::Int(y)) => x == y,
        (JsonValue::UInt(x), JsonValue::UInt(y)) => x == y,
        (JsonValue::Float(x), JsonValue::Float(y)) => x == y,
        (JsonValue::String(x), JsonValue::String(y)) => x == y,
        (JsonValue::Array(x), JsonValue::Array(y)) => x.len() == y.len() && x.iter().zip(y).all(|(p, q)| same(p, q)),
        (JsonValue::Object(x), JsonValue::Object(y)) => {
            x.len() == y.len() && x.iter().all(|(k, v)| y.iter().any(|(k2, v2)| k == k2 && same(v, v2)))
        }
        _ => false,
    }
}

fn users() -> JsonValue {
    obj(vec![(
        "users",
        arr(vec![obj(vec![("id", num(1)), ("name", s("Alice"))]), obj(vec![("id", num(2)), ("name", s("Bob"))])]),
    )])
}

#[test]
fn flat_object() {
    let out = encode(&obj(vec![("name", s("Alice")), ("age", num(30))])).unwrap();
    assert_eq!(out, "name: Alice\nage: 30\n");
}

#[test]
fn nested_object_indents() {
    let out = encode(&obj(vec![("user", obj(vec![("name", s("Bob"))]))])).unwrap();
    assert_eq!(out, "user:\n  name: Bob\n");
}

#[test]
fn scalar_array_inline_with_count() {
    let out = encode(&obj(vec![("tags", arr(vec![s("a"), s("b"), s("c")]))])).unwrap();
    assert_eq!(out, "tags[3]: a,b,c\n");
}

#[test]
fn uniform_object_array_is_tabular() {
    let out = encode(&users()).unwrap();
    assert_eq!(out, "users[2]{id,name}:\n  1,Alice\n  2,Bob\n");
}

#[test]
fn non_uniform_object_array_falls_back_to_expanded() {
    let out = encode(&obj(vec![("rows", arr(vec![obj(vec![("x", num(1))]), obj(vec![("y", num(2))])]))])).unwrap();
    assert!(out.contains("- "), "expected expanded rows, got: {out}");
    assert!(!out.contains('{'), "must not emit tabular header, got: {out}");
}

#[test]
fn nested_values_are_not_tabular() {
    let out = encode(&obj(vec![(
        "rows",
        arr(vec![obj(vec![("a", obj(vec![("b", num(1))]))]), obj(vec![("a", obj(vec![("b", num(2))]))])]),
    )]))
    .unwrap();
    assert!(!out.contains('{'), "nested values must not be tabular: {out}");
}

#[test]
fn tabular_applies_to_array_field_inside_expanded_item() {
    let out = encode(&arr(vec![obj(vec![(
        "members",
        arr(vec![obj(vec![("id", num(1)), ("n", s("x"))]), obj(vec![("id", num(2)), ("n", s("y"))])]),
    )])]))
    .unwrap();
    assert!(out.contains("members[2]{id,n}:"), "nested array field should be tabular: {out}");
}

#[test]
fn encode_into_appends_without_clearing() {
    let mut out = String::from("prefix\n");
    encode_into(&obj(vec![("k", s("v"))]), &ToonConfig::default(), &mut out).unwrap();
    assert_eq!(out, "prefix\nk: v\n");
}

#[test]
fn encode_into_matches_encode_with_config() {
    let value = users();
    let config = ToonConfig::default();
    let owned = encode_with_config(&value, &config).unwrap();
    let mut into = String::new();
    encode_into(&value, &config, &mut into).unwrap();
    assert_eq!(owned, into);
}

#[test]
fn encode_into_preserves_existing_prefix_across_scalar_arrays() {
    let mut out = String::from("header: 1\n");
    encode_into(&obj(vec![("tags", arr(vec![s("a"), s("b")]))]), &ToonConfig::default(), &mut out).unwrap();
    assert_eq!(out, "header: 1\ntags[2]: a,b\n");
}

#[test]
fn encode_into_with_sufficient_capacity_does_not_reallocate() {
    let value = obj(vec![("k", s("v"))]);
    let config = ToonConfig::default();
    let needed = encode_with_config(&value, &config).unwrap().len();
    let mut out = String::with_capacity(needed + 64);
    let ptr_before = out.as_ptr();
    let cap_before = out.capacity();
    encode_into(&value, &config, &mut out).unwrap();
    assert_eq!(out.as_ptr(), ptr_before, "buffer should not have reallocated");
    assert_eq!(out.capacity(), cap_before, "capacity should be unchanged");
}

#[test]
fn encode_into_respects_fold_keys_config() {
    let mut config = ToonConfig::default();
    config.fold_keys = true;
    let mut out = String::new();
    encode_into(&obj(vec![("a", obj(vec![("b", obj(vec![("c", num(1))]))]))]), &config, &mut out).unwrap();
    assert_eq!(out, "a.b.c: 1\n");
}

#[test]
fn encode_into_respects_flatten_keys_config() {
    let mut config = ToonConfig::default();
    config.flatten_keys = true;
    let mut out = String::new();
    encode_into(&obj(vec![("a", obj(vec![("b", num(1)), ("c", num(2))]))]), &config, &mut out).unwrap();
    assert_eq!(out, "a.b: 1\na.c: 2\n");
}

#[test]
fn encode_into_top_level_scalar() {
    let mut out = String::new();
    encode_into(&JsonValue::Float("1.5".to_string()), &ToonConfig::default(), &mut out).unwrap();
    assert_eq!(out, "1.5\n");
}

#[test]
fn encode_into_top_level_empty_array() {
    let mut out = String::new();
    encode_into(&arr(vec![]), &ToonConfig::default(), &mut out).unwrap();
    assert_eq!(out, "[]\n");
}

#[test]
fn tabular_uses_first_row_field_order_even_when_later_rows_differ() {
    let out = encode(&obj(vec![(
        "users",
        arr(vec![obj(vec![("id", num(1)), ("name", s("Alice"))]), obj(vec![("name", s("Bob")), ("id", num(2))])]),
    )]))
    .unwrap();
    assert_eq!(out, "users[2]{id,name}:\n  1,Alice\n  2,Bob\n");
}

#[test]
fn same_length_but_different_field_names_falls_back_to_expanded() {
    let out = encode(&obj(vec![("rows", arr(vec![obj(vec![("a", num(1))]), obj(vec![("b", num(2))])]))])).unwrap();
    assert!(!out.contains('{'), "must not emit tabular header, got: {out}");
    assert!(out.contains("- a: 1"), "expected expanded rows, got: {out}");
}

#[test]
fn tabular_rejects_when_later_row_has_nested_value() {
    let out = encode(&obj(vec![(
        "rows",
        arr(vec![obj(vec![("a", num(1))]), obj(vec![("a", obj(vec![("b", num(2))]))])]),
    )]))
    .unwrap();
    assert!(!out.contains('{'), "non-scalar in later row must block tabular: {out}");
}

#[test]
fn empty_object_first_row_falls_back_to_expanded() {
    let out = encode(&obj(vec![("rows", arr(vec![obj(vec![]), obj(vec![])]))])).unwrap();
    assert!(!out.contains('{'), "empty-object rows must not be tabular: {out}");
    assert_eq!(out, "rows[2]:\n  -\n  -\n");
}

#[test]
fn encode_quotes_and_indents() {
    let value = obj(vec![
        ("greeting", s("hello world")),
        ("n", s("42")),
        ("neg", num(-7)),
        ("big", JsonValue::UInt(18446744073709551615)),
        ("nothing", JsonValue::Null),
        ("list", arr(vec![num(1), arr(vec![num(2)])])),
    ]);
    let out = encode_with_indent(&value, 4).unwrap();
    assert_eq!(
        out,
        "greeting: hello world\nn: \"42\"\nneg: -7\nbig: 18446744073709551615\nnothing: null\nlist[2]:\n    - 1\n    - [1]: 2\n"
    );
}

#[test]
fn scalar_dispatch() {
    let mut out = String::new();
    assert!(emit_json_scalar(&mut out, &JsonValue::Bool(true), Delimiter::Comma));
    assert_eq!(out, "true");
    let mut out2 = String::new();
    assert!(!emit_json_scalar(&mut out2, &obj(vec![("a", num(1))]), Delimiter::Comma));
    assert!(out2.is_empty());
}

#[test]
fn folds_single_chain() {
    let v = obj(vec![("a", obj(vec![("b", obj(vec![("c", num(1))]))]))]);
    assert!(same(&fold_keys(&v), &obj(vec![("a.b.c", num(1))])));
}

#[test]
fn folds_array_leaf() {
    let v = obj(vec![("x", obj(vec![("y", arr(vec![num(1), num(2), num(3)]))]))]);
    assert!(same(&fold_keys(&v), &obj(vec![("x.y", arr(vec![num(1), num(2), num(3)]))])));
}

#[test]
fn folds_empty_object_leaf() {
    let v = obj(vec![("a", obj(vec![("b", obj(vec![]))]))]);
    assert!(same(&fold_keys(&v), &obj(vec![("a.b", obj(vec![]))])));
}

#[test]
fn multi_key_stops_chain() {
    let v = obj(vec![("a", obj(vec![("b", num(1)), ("c", num(2))]))]);
    assert!(same(&fold_keys(&v), &obj(vec![("a", obj(vec![("b", num(1)), ("c", num(2))]))])));
}

#[test]
fn non_identifier_segment_not_folded() {
    let v = obj(vec![("a-b", obj(vec![("c", num(1))]))]);
    assert!(same(&fold_keys(&v), &obj(vec![("a-b", obj(vec![("c", num(1))]))])));
}

#[test]
fn collision_suppresses_fold() {
    let v = obj(vec![("a", obj(vec![("b", obj(vec![("c", num(1))]))])), ("a.b.c", num(2))]);
    let f = fold_keys(&v);
    assert!(same(&f, &obj(vec![("a", obj(vec![("b.c", num(1))])), ("a.b.c", num(2))])));
}

#[test]
fn fold_then_expand_is_lossless() {
    let v = obj(vec![
        ("a", obj(vec![("b", obj(vec![("c", num(1))]))])),
        ("x", obj(vec![("y", arr(vec![num(1), num(2), num(3)]))])),
    ]);
    let f = fold_keys(&v);
    assert!(same(&f, &obj(vec![("a.b.c", num(1)), ("x.y", arr(vec![num(1), num(2), num(3)]))])));
    assert!(same(&expand_paths(&f), &v));
}

#[test]
fn expand_splits_nested_dotted() {
    let v = obj(vec![("a.b.c", num(1))]);
    assert!(same(&expand_paths(&v), &obj(vec![("a", obj(vec![("b", obj(vec![("c", num(1))]))]))])));
}

#[test]
fn expand_merges_shared_prefixes() {
    let v = obj(vec![("a.b", num(1)), ("a.c", num(2)), ("a-b.c", num(3))]);
    let e = expand_paths(&v);
    assert!(same(&e, &obj(vec![("a", obj(vec![("b", num(1)), ("c", num(2))])), ("a-b.c", num(3))])));
}

#[test]
fn flatten_lifts_sibling_keys() {
    let v = obj(vec![("a", obj(vec![("b", num(1)), ("c", num(2))]))]);
    assert!(same(&flatten_keys(&v), &obj(vec![("a.b", num(1)), ("a.c", num(2))])));
}

#[test]
fn flatten_avoids_prefix_conflicts() {
    let v = obj(vec![("a", obj(vec![("b", num(1))])), ("a.b", num(2))]);
    assert!(same(&flatten_keys(&v), &obj(vec![("a", obj(vec![("b", num(1))])), ("a.b", num(2))])));
}

#[test]
fn flatten_then_expand_is_lossless() {
    let v = obj(vec![("a", obj(vec![("b", obj(vec![("c", num(1)), ("d", num(2))]))])), ("x", num(3))]);
    let f = flatten_keys(&v);
    assert!(same(&expand_paths(&f), &v));
}

#[test]
fn identical_encoding_matches() {
    let value = obj(vec![("name", s("Alice")), ("age", num(30))]);
    let mut out = String::new();
    encode_into(&value, &ToonConfig::default(), &mut out).unwrap();
    let mut scratch = String::new();
    assert!(verify_round_trip_with_scratch(&out, &value, &ToonConfig::default(), &mut scratch).is_ok());
}

#[test]
fn different_value_mismatches() {
    let encoded = "name: Alice\nage: 30\n";
    let expected = obj(vec![("name", s("Bob")), ("age", num(30))]);
    let mut scratch = String::new();
    assert!(verify_round_trip_with_scratch(encoded, &expected, &ToonConfig::default(), &mut scratch).is_err());
}

#[test]
fn scalar_number_round_trip() {
    let value = JsonValue::Float("1.5".to_string());
    let mut out = String::new();
    encode_into(&value, &ToonConfig::default(), &mut out).unwrap();
    let mut scratch = String::new();
    assert!(verify_round_trip_with_scratch(&out, &value, &ToonConfig::default(), &mut scratch).is_ok());
}

#[test]
fn verify_round_trip_without_scratch_matches() {
    let value = obj(vec![("tags", arr(vec![s("a"), s("b"), s("c")]))]);
    let mut out = String::new();
    encode_into(&value, &ToonConfig::default(), &mut out).unwrap();
    assert!(verify_round_trip(&out, &value, &ToonConfig::default()).is_ok());
}

#[test]
fn verify_round_trip_without_scratch_mismatches() {
    let expected = obj(vec![("a", num(1))]);
    assert!(verify_round_trip("a: 2\n", &expected, &ToonConfig::default()).is_err());
}

#[test]
fn mismatch_error_message_is_descriptive() {
    let expected = obj(vec![("a", num(1))]);
    let err = verify_round_trip("a: 2\n", &expected, &ToonConfig::default()).unwrap_err();
    let text = err.display_text();
    assert!(text.contains("does not match canonical encoding"), "unexpected error message: {text}");
}

#[test]
fn trailing_whitespace_difference_is_a_mismatch() {
    let value = obj(vec![("a", num(1))]);
    let mut canonical = String::new();
    encode_into(&value, &ToonConfig::default(), &mut canonical).unwrap();
    let trimmed = canonical.trim_end_matches('\n');
    let with_trailing_space = format!("{trimmed} \n");
    assert!(verify_round_trip(&with_trailing_space, &value, &ToonConfig::default()).is_err());
}

#[test]
fn respects_custom_config_delimiter() {
    let mut config = ToonConfig::default();
    config.delimiter = Delimiter::Pipe;
    let value = obj(vec![("tags", arr(vec![s("a"), s("b"), s("c")]))]);
    let mut out = String::new();
    encode_into(&value, &config, &mut out).unwrap();
    assert_eq!(out, "tags[3]: a|b|c\n");
    assert!(verify_round_trip(&out, &value, &config).is_ok());
    assert!(verify_round_trip(&out, &value, &ToonConfig::default()).is_err());
}

#[test]
fn scratch_buffer_is_cleared_and_reused_across_calls() {
    let mut scratch = String::new();
    let big = users();
    let mut big_encoded = String::new();
    encode_into(&big, &ToonConfig::default(), &mut big_encoded).unwrap();
    assert!(verify_round_trip_with_scratch(&big_encoded, &big, &ToonConfig::default(), &mut scratch).is_ok());
    let small = obj(vec![("a", num(1))]);
    let mut small_encoded = String::new();
    encode_into(&small, &ToonConfig::default(), &mut small_encoded).unwrap();
    assert!(verify_round_trip_with_scratch(&small_encoded, &small, &ToonConfig::default(), &mut scratch).is_ok());
    assert_eq!(scratch, small_encoded);
}

#[test]
fn empty_object_round_trip() {
    let value = obj(vec![]);
    let mut out = String::new();
    encode_into(&value, &ToonConfig::default(), &mut out).unwrap();
    assert!(verify_round_trip(&out, &value, &ToonConfig::default()).is_ok());
}

#[test]
fn encode_then_decode_gives_the_value_back() {
    let value = users();
    let text = encode(&value).unwrap();
    let back = toon_lsp::toon::decoder::decode(&text).unwrap();
    assert!(same(&back, &value));
}
