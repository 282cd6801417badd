use toon_lsp::lsp::diagnostics::{unsafe_number_message, validate_document, WarningKind};
use toon_lsp::parser::parse;

fn messages(source: &str) -> Vec<String> {
    let ast = parse(source).expect("should parse");
    validate_document(&ast, &Vec::new()).iter().map(|w| w.message().unwrap_or_default()).collect()
}

#[test]
fn test_validate_document_references() {
    let source = "db:\n  port: 5432\nservice:\n  db_port: ${db.invalid_port}";
    let diags = messages(source);
    assert_eq!(diags.len(), 1);
    assert!(diags[0].contains("Unresolved reference"));
    assert!(diags[0].contains("db.invalid_port"));
}

#[test]
fn test_validate_document_env_vars() {
    let source = "service:\n  api_key: ${env:NONEXISTENT_ENV_VAR_XYZ}";
    let diags = messages(source);
    assert_eq!(diags.len(), 1);
    assert!(diags[0].contains("Environment variable"));
    assert!(diags[0].contains("NONEXISTENT_ENV_VAR_XYZ"));
}

#[test]
fn test_validate_document_cycle() {
    let source = "a: ${b}\nb: ${a}";
    let diags = messages(source);
    assert_eq!(diags.len(), 2);
    assert!(diags[0].contains("Cyclic reference"));
}

#[test]
fn test_validate_document_duplicate_keys() {
    let source = "key: 1\nkey: 2\n";
    let diags = messages(source);
    assert_eq!(diags.len(), 1);
    assert!(diags[0].contains("Duplicate key"));
    assert!(diags[0].contains("key"));
}

#[test]
fn test_validate_document_array_types() {
    let source = "arr[2]: 1, \"two\"\n";
    let diags = messages(source);
    assert_eq!(diags.len(), 1);
    assert!(diags[0].contains("Inconsistent type in array"));
}

#[test]
fn test_validate_document_numeric_bounds() {
    let source = "num: 9007199254740992\n";
    let ast = parse(source).expect("should parse");
    let diags = validate_document(&ast, &Vec::new());
    assert_eq!(diags.len(), 1);
    assert!(matches!(diags[0].kind, WarningKind::UnsafeInteger { .. }));
    let message = unsafe_number_message(&format!("{}", 9007199254740992u64 as f64));
    assert!(message.contains("exceeds safe JavaScript/JSON integer limits"));
}

#[test]
fn set_environment_variable_resolves_without_warning() {
    let ast = parse("key: ${env:SOME_VAR}").expect("should parse");
    let env = vec![("SOME_VAR".to_string(), "x".to_string())];
    assert!(validate_document(&ast, &env).is_empty());
}

#[test]
fn references_fit_any_type_in_lists_and_columns() {
    let source = "n: 1\nitems[3]: 1, ${n}, 3\n";
    assert!(messages(source).is_empty());
    let table = "n: 1\nrows[2]{a}:\n  ${n}\n  \"x\"\n";
    assert!(messages(table).is_empty());
}
