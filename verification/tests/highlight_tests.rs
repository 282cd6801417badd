use toon_lsp::lsp::document_highlight::collect_document_highlights;
use toon_lsp::parser::parse_with_errors;

#[test]
fn test_highlight_single_occurrence() {
    let source = "name: Alice";
    let (ast, _) = parse_with_errors(source);
    let ast = ast.expect("should parse");

    let highlights = collect_document_highlights(&ast, source, 0, 0);
    assert_eq!(highlights.len(), 1);
    assert!(highlights[0].write);
}

#[test]
fn test_highlight_distinct_paths() {
    let source = "name: Alice\nuser:\n  name: Bob";
    let (ast, _) = parse_with_errors(source);
    let ast = ast.expect("should parse");

    let highlights = collect_document_highlights(&ast, source, 0, 0);
    assert_eq!(highlights.len(), 1);
    assert!(highlights[0].write);
}

#[test]
fn test_highlight_not_on_key() {
    let source = "name: Alice";
    let (ast, _) = parse_with_errors(source);
    let ast = ast.expect("should parse");

    let highlights = collect_document_highlights(&ast, source, 0, 7);
    assert!(highlights.is_empty());
}

#[test]
fn test_highlight_reference_usages() {
    let source = "db:\n  port: 5432\nconnection: ${db.port}";
    let (ast, _) = parse_with_errors(source);
    let ast = ast.expect("should parse");

    let highlights = collect_document_highlights(&ast, source, 1, 2);
    assert_eq!(highlights.len(), 2);
}

#[test]
fn highlight_from_a_reference_marks_definition_and_reference() {
    let source = "db:\n  port: 5432\nconnection: ${db.port}";
    let (ast, _) = parse_with_errors(source);
    let ast = ast.expect("should parse");

    let highlights = collect_document_highlights(&ast, source, 2, 14);
    assert_eq!(highlights.len(), 2);
    assert!(!highlights[0].write);
    assert!(highlights[1].write);
}
