use toon_lsp::lsp::completion::{determine_completion_context, get_completions_at_position, CompletionContext, CompletionKind};
use toon_lsp::lsp::folding::collect_folding_ranges;
use toon_lsp::lsp::selection_ranges::{get_selection_range, get_selection_ranges};
use toon_lsp::lsp::symbols::{ast_to_document_symbols, details_are_safe, DocSymbolKind};
use toon_lsp::parser::parse_with_errors;

#[test]
fn test_completion_after_colon() {
    let source = "enabled: ";
    let (ast, _) = parse_with_errors(source);
    if let Some(ast) = ast {
        let completions = get_completions_at_position(&ast, source, 0, 9);
        let labels: Vec<&str> = completions.iter().map(|c| c.label.as_str()).collect();
        assert!(labels.contains(&"true"));
        assert!(labels.contains(&"false"));
    }
}

#[test]
fn test_completion_at_key_position() {
    let source = "name: Alice\n";
    let (ast, _) = parse_with_errors(source);
    let ast = ast.expect("should parse");
    let completions = get_completions_at_position(&ast, source, 1, 0);
    let labels: Vec<&str> = completions.iter().map(|c| c.label.as_str()).collect();
    assert!(labels.contains(&"name") || completions.is_empty());
}

#[test]
fn completion_contexts() {
    assert_eq!(determine_completion_context("a: ", 0, 3), CompletionContext::AfterColon);
    assert_eq!(determine_completion_context("  ab", 0, 4), CompletionContext::KeyPosition);
    assert_eq!(determine_completion_context("a: b", 0, 4), CompletionContext::Unknown);
    assert_eq!(determine_completion_context("a: b", 5, 0), CompletionContext::KeyPosition);
}

#[test]
fn completions_offer_path_and_top_level_keys() {
    let source = "a: 1\nb:\n  c: 2\n  \n";
    let (ast, _) = parse_with_errors(source);
    let ast = ast.expect("should parse");
    let completions = get_completions_at_position(&ast, source, 3, 2);
    let labels: Vec<&str> = completions.iter().map(|c| c.label.as_str()).collect();
    assert!(labels.contains(&"a"));
    assert!(labels.contains(&"b"));
    assert!(completions.iter().all(|c| c.kind == CompletionKind::Property));
    assert!(completions.iter().all(|c| c.detail.as_deref() == Some("key")));
    let unknown = get_completions_at_position(&ast, source, 0, 4);
    let labels: Vec<&str> = unknown.iter().map(|c| c.label.as_str()).collect();
    assert_eq!(labels, vec!["true", "false", "null", "a", "b"]);
}

#[test]
fn test_folding_single_line() {
    let source = "key: value";
    let (ast, _) = parse_with_errors(source);
    let ast = ast.expect("should parse");
    let ranges = collect_folding_ranges(&ast);
    assert!(ranges.is_empty() || ranges.len() <= 1);
}

#[test]
fn test_folding_multiline_object() {
    let source = "parent:\n  child: value";
    let (ast, _) = parse_with_errors(source);
    let ast = ast.expect("should parse");
    let ranges = collect_folding_ranges(&ast);
    assert!(!ranges.is_empty());
}

#[test]
fn test_get_selection_range_hierarchy() {
    let source = "user:\n  name: Alice";
    let (ast, _) = parse_with_errors(source);
    let ast = ast.expect("should parse");
    let spans = get_selection_range(&ast, source, 1, 2).expect("should find range");
    assert_eq!(spans[0].start.line, 1);
    assert_eq!(spans[0].start.column, 2);
    assert_eq!(spans[0].end.line, 1);
    assert_eq!(spans[0].end.column, 6);
    assert!(spans.len() > 1, "should have parent");
    assert_eq!(spans[1].start.line, 1);
    assert_eq!(spans[1].start.column, 2);
    assert_eq!(spans[1].end.line, 1);
    assert_eq!(spans[1].end.column, 13);
    assert_eq!(*spans.last().unwrap(), ast.span());
    let all = get_selection_ranges(&ast, source, &vec![(1, 2), (9, 0)]);
    assert_eq!(all.len(), 2);
    assert!(all[0].is_some());
    assert!(all[1].is_none());
}

#[test]
fn test_simple_document_symbols() {
    let (ast, _) = parse_with_errors("key: value");
    let ast = ast.expect("should parse");
    assert!(details_are_safe(&ast));
    let symbols = ast_to_document_symbols(&ast, &Vec::new());
    assert_eq!(symbols.len(), 1);
    assert_eq!(symbols[0].name, "key");
}

#[test]
fn test_nested_document_symbols() {
    let (ast, _) = parse_with_errors("parent:\n  child: value");
    let ast = ast.expect("should parse");
    let symbols = ast_to_document_symbols(&ast, &Vec::new());
    assert_eq!(symbols.len(), 1);
    assert_eq!(symbols[0].name, "parent");
    assert!(symbols[0].children.is_some());
}

#[test]
fn document_symbols_of_arrays_and_scalars() {
    let (ast, _) = parse_with_errors("items[2]{a}:\n  1\n  2\nn: 2");
    let ast = ast.expect("should parse");
    let symbols = ast_to_document_symbols(&ast, &Vec::new());
    assert_eq!(symbols.len(), 2);
    assert_eq!(symbols[0].kind, DocSymbolKind::Array);
    assert_eq!(symbols[0].detail, "array (2 items)");
    let children = symbols[0].children.as_ref().expect("an object item");
    assert_eq!(children.len(), 2);
    assert_eq!(children[0].name, "[0]");
    assert_eq!(children[1].name, "[1]");
    assert_eq!(children[0].detail, "object with 1 entries");
    assert_eq!(symbols[1].kind, DocSymbolKind::Key);
    assert_eq!(symbols[1].detail, "2");
    assert!(symbols[1].children.is_none());
}
