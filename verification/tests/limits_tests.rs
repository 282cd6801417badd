use toon_lsp::ast::AstNode;
use toon_lsp::parser::{parse, parse_with_errors, ParseErrorKind};

#[test]
fn test_max_nesting_depth_object() {
    let mut input = String::from("root:\n");
    for level in 0..150 {
        let indent = "  ".repeat(level + 1);
        input.push_str(&format!("{}level{}:\n", indent, level));
    }
    input.push_str(&format!("{}value: deep\n", "  ".repeat(151)));
    let result = parse(&input);
    assert!(result.is_err(), "Should reject excessive nesting");
    let err = result.unwrap_err();
    assert_eq!(err.kind, ParseErrorKind::MaxDepthExceeded);
}

#[test]
fn test_max_nesting_depth_array() {
    let mut input = String::from("root:\n");
    for level in 0..150 {
        let indent = "  ".repeat(level + 1);
        input.push_str(&format!("{}- \n", indent));
        if level < 149 {
            input.push_str(&format!("{}  nested:\n", indent));
        }
    }
    let result = parse(&input);
    assert!(result.is_err(), "Should reject excessive array nesting");
    let err = result.unwrap_err();
    assert_eq!(err.kind, ParseErrorKind::MaxDepthExceeded);
}

#[test]
fn test_nesting_depth_within_limit() {
    let mut input = String::from("root:\n");
    for level in 0..127 {
        let indent = "  ".repeat(level + 1);
        input.push_str(&format!("{}level{}:\n", indent, level));
    }
    input.push_str(&format!("{}value: deep\n", "  ".repeat(128)));
    let result = parse(&input);
    assert!(result.is_ok(), "Should accept nesting within limit");
}

#[test]
fn test_document_too_large() {
    let large_input = "a".repeat(11 * 1024 * 1024);
    let result = parse(&large_input);
    assert!(result.is_err(), "Should reject oversized document");
    let err = result.unwrap_err();
    assert_eq!(err.kind, ParseErrorKind::DocumentTooLarge);
}

#[test]
fn test_document_size_within_limit() {
    let input = "key: value\n".repeat(9_000);
    let result = parse(&input);
    assert!(result.is_ok(), "Should accept document within size limit");
}

#[test]
fn test_too_many_array_items() {
    let mut input = String::from("items:\n");
    for i in 0..100_001 {
        input.push_str(&format!("  - item{}\n", i));
    }
    let result = parse(&input);
    assert!(result.is_err(), "Should reject oversized array");
    let err = result.unwrap_err();
    assert_eq!(err.kind, ParseErrorKind::TooManyArrayItems);
}

#[test]
fn test_array_items_within_limit() {
    let mut input = String::from("items:\n");
    for i in 0..100_000 {
        input.push_str(&format!("  - item{}\n", i));
    }
    let result = parse(&input);
    assert!(result.is_ok(), "Should accept array at limit");
}

#[test]
fn test_too_many_object_entries() {
    let mut input = String::new();
    for i in 0..10_001 {
        input.push_str(&format!("key{}: value{}\n", i, i));
    }
    let result = parse(&input);
    assert!(result.is_err(), "Should reject oversized object");
    let err = result.unwrap_err();
    assert_eq!(err.kind, ParseErrorKind::TooManyObjectEntries);
}

#[test]
fn test_object_entries_within_limit() {
    let mut input = String::new();
    for i in 0..10_000 {
        input.push_str(&format!("key{}: value{}\n", i, i));
    }
    let result = parse(&input);
    assert!(result.is_ok(), "Should accept object at limit");
}

#[test]
fn test_large_deeply_nested_structure() {
    let mut input = String::from("root:\n");
    for depth in 0..150 {
        let indent = "  ".repeat(depth + 1);
        input.push_str(&format!("{}level{}:\n", indent, depth));
        for item in 0..1000 {
            input.push_str(&format!("{}item{}: value\n", indent, item));
        }
    }
    let result = parse(&input);
    assert!(result.is_err(), "Should reject combined attack");
    let err = result.unwrap_err();
    assert!(
        matches!(err.kind, ParseErrorKind::DocumentTooLarge | ParseErrorKind::MaxDepthExceeded),
        "Expected DocumentTooLarge or MaxDepthExceeded, got {:?}",
        err.kind
    );
}

#[test]
fn test_error_recovery_respects_depth_limit() {
    let mut input = String::from("root:\n");
    for level in 0..150 {
        let indent = "  ".repeat(level + 1);
        input.push_str(&format!("{}level{}:\n", indent, level));
    }
    input.push_str(&format!("{}value: deep\n", "  ".repeat(151)));
    let (_ast, errors) = parse_with_errors(&input);
    assert!(!errors.is_empty());
    assert!(
        errors.iter().any(|e| e.kind == ParseErrorKind::MaxDepthExceeded),
        "Expected MaxDepthExceeded error, got: {:?}",
        errors
    );
}

fn container_depth(node: &AstNode) -> usize {
    match node {
        AstNode::Document { children, .. } => children.iter().map(container_depth).max().unwrap_or(0),
        AstNode::Object { entries, .. } => 1 + entries.iter().map(|e| container_depth(&e.value)).max().unwrap_or(0),
        AstNode::Array { items, .. } => 1 + items.iter().map(container_depth).max().unwrap_or(0),
        _ => 0,
    }
}

fn nested_levels_then(levels: usize, last_line: &str) -> String {
    let mut input = String::from("root:\n");
    for level in 0..levels {
        let indent = "  ".repeat(level + 1);
        input.push_str(&format!("{}level{}:\n", indent, level));
    }
    input.push_str(&format!("{}{}\n", "  ".repeat(levels + 1), last_line));
    input
}

#[test]
fn deepest_accepted_document_nests_limit_plus_two_containers() {
    let input = nested_levels_then(127, "arr[2]: 1,2");
    let ast = parse(&input).expect("within the nesting limit");
    assert_eq!(container_depth(&ast), 130);
}

#[test]
fn one_level_more_is_refused() {
    let input = nested_levels_then(128, "arr[2]: 1,2");
    let err = parse(&input).unwrap_err();
    assert_eq!(err.kind, ParseErrorKind::MaxDepthExceeded);
}

#[test]
fn tabular_row_holds_one_entry_per_header_field() {
    let fields: Vec<String> = (0..10_001).map(|i| format!("f{}", i)).collect();
    let cells: Vec<String> = (0..10_001).map(|i| format!("{}", i)).collect();
    let input = format!("rows[1]{{{}}}:\n  {}\n", fields.join(","), cells.join(","));
    let ast = parse(&input).expect("a wide row parses");
    let AstNode::Document { children, .. } = &ast else { panic!("document expected") };
    let AstNode::Object { entries, .. } = &children[0] else { panic!("object expected") };
    let AstNode::Array { items, .. } = &entries[0].value else { panic!("array expected") };
    let AstNode::Object { entries: row, .. } = &items[0] else { panic!("row expected") };
    assert_eq!(row.len(), 10_001);
}

#[test]
fn recovering_parse_reports_the_object_size_limit() {
    let src: String = (0..10_001).map(|i| format!("key{i}: value{i}\n")).collect();
    let (ast, errors) = parse_with_errors(&src);
    assert!(ast.is_none());
    assert!(errors.iter().any(|e| e.kind == ParseErrorKind::TooManyObjectEntries));
}
