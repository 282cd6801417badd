use toon_lsp::lsp::inlay_hints::{collect_inlay_hints, hints_are_placeable};
use toon_lsp::lsp::utf16::{LspPosition, LspRange};
use toon_lsp::parser::parse_with_errors;

fn hints_for(source: &str, range: Option<LspRange>) -> Vec<toon_lsp::lsp::inlay_hints::TypeHint> {
    let (ast, _) = parse_with_errors(source);
    let ast = ast.expect("should parse");
    assert!(hints_are_placeable(&ast, source));
    collect_inlay_hints(&ast, source, range, &Vec::new(), &Vec::new())
}

#[test]
fn test_inlay_hints_for_object() {
    let hints = hints_for("user:\n  name: Alice\n  age: 30", None);
    assert!(!hints.is_empty());
}

#[test]
fn test_inlay_hints_for_array() {
    let hints = hints_for("items:\n  - one\n  - two\n  - three", None);
    assert!(!hints.is_empty());
}

#[test]
fn test_inlay_hints_empty_document() {
    let hints = hints_for("", None);
    assert!(hints.is_empty());
}

#[test]
fn test_inlay_hints_simple_value() {
    let hints = hints_for("name: Alice", None);
    assert!(hints.is_empty());
}

#[test]
fn inlay_hint_labels_and_positions() {
    let hints = hints_for("user:\n  name: Alice\n  age: 30\nx: null", None);
    assert_eq!(hints.len(), 2);
    assert_eq!(hints[0].label, "  ─ 2 entries ─");
    assert_eq!(hints[0].tooltip, "Value type: 2 entries");
    assert_eq!(hints[1].label, "  ─ null ─");
    assert_eq!(hints[1].position, LspPosition { line: 3, character: 7 });
}

#[test]
fn inlay_hints_limited_to_a_range() {
    let range = LspRange { start: LspPosition { line: 3, character: 0 }, end: LspPosition { line: 3, character: 9 } };
    let hints = hints_for("user:\n  name: Alice\n  age: 30\nx: null", Some(range));
    assert_eq!(hints.len(), 1);
    assert_eq!(hints[0].label, "  ─ null ─");
}

#[test]
fn inlay_hint_shows_a_resolved_reference() {
    let source = "a: 5\nb: ${a}";
    let (ast, _) = parse_with_errors(source);
    let ast = ast.expect("should parse");
    assert!(hints_are_placeable(&ast, source));
    let hints = collect_inlay_hints(&ast, source, None, &Vec::new(), &Vec::new());
    assert_eq!(hints.len(), 1);
    assert_eq!(hints[0].label, " = 5");
    assert_eq!(hints[0].tooltip, "Resolved: 5");
    assert_eq!(hints[0].position, LspPosition { line: 1, character: 7 });
}

#[test]
fn inlay_hint_shows_an_environment_value() {
    let source = "home: ${env:HOME}\nmissing: ${nowhere}";
    let (ast, _) = parse_with_errors(source);
    let ast = ast.expect("should parse");
    let env = vec![("HOME".to_string(), "/root".to_string())];
    let hints = collect_inlay_hints(&ast, source, None, &env, &Vec::new());
    assert_eq!(hints.len(), 1);
    assert_eq!(hints[0].label, " = /root");
    assert_eq!(hints[0].tooltip, "Resolved: /root");
}
