use toon_lsp::ast::AstNode;
use toon_lsp::lsp::formatting::{fits_indentation, float_literals, format_document, ToonFormattingOptions};
use toon_lsp::parser::parse_with_errors;

fn parse(source: &str) -> AstNode {
    let (ast, errors) = parse_with_errors(source);
    assert!(errors.is_empty(), "Parse errors: {:?}", errors);
    ast.expect("Expected valid AST")
}

fn format(ast: &AstNode, opts: ToonFormattingOptions) -> Option<String> {
    assert!(fits_indentation(ast, &opts));
    format_document(ast, opts, &Vec::new())
}

#[test]
fn test_format_2_space_indent() {
    let ast = parse("user:\n    name: Alice\n    age: 30");
    let opts = ToonFormattingOptions { indent_size: 2, use_tabs: false };
    let result = format(&ast, opts).expect("Formatting failed");
    assert!(result.contains("user:"), "Missing 'user:' key");
    assert!(result.contains("  name: Alice"), "Expected 2-space indent for 'name'");
    assert!(result.contains("  age: 30"), "Expected 2-space indent for 'age'");
}

#[test]
fn test_format_4_space_indent() {
    let ast = parse("user:\n  name: Alice\n  age: 30");
    let opts = ToonFormattingOptions { indent_size: 4, use_tabs: false };
    let result = format(&ast, opts).expect("Formatting failed");
    assert!(result.contains("user:"), "Missing 'user:' key");
    assert!(result.contains("    name: Alice"), "Expected 4-space indent for 'name'");
    assert!(result.contains("    age: 30"), "Expected 4-space indent for 'age'");
}

#[test]
fn test_format_tab_indent() {
    let ast = parse("user:\n  name: Alice\n  age: 30");
    let opts = ToonFormattingOptions { indent_size: 2, use_tabs: true };
    let result = format(&ast, opts).expect("Formatting failed");
    assert!(result.contains("user:"), "Missing 'user:' key");
    assert!(result.contains("\tname: Alice"), "Expected tab indent for 'name'");
    assert!(result.contains("\tage: 30"), "Expected tab indent for 'age'");
}

#[test]
fn test_format_preserves_inline_array() {
    let ast = parse("values[3]:");
    let result = format(&ast, ToonFormattingOptions::default()).expect("Formatting failed");
    assert!(result.contains("values"), "Missing 'values' key");
    assert!(result.contains("["), "Expected opening bracket");
    assert!(result.contains("]"), "Expected closing bracket");
}

#[test]
fn test_format_preserves_expanded_array() {
    let ast = parse("items:\n  - first\n  - second\n  - third");
    let result = format(&ast, ToonFormattingOptions::default()).expect("Formatting failed");
    assert!(result.contains("items:"), "Missing 'items:' key");
    assert!(result.contains("  - first"), "Expected expanded format for 'first'");
    assert!(result.contains("  - second"), "Expected expanded format for 'second'");
    assert!(result.contains("  - third"), "Expected expanded format for 'third'");
}

#[test]
fn test_format_preserves_tabular_array() {
    let ast = parse("data[2]{x,y}:\n  1,2\n  3,4");
    let result = format(&ast, ToonFormattingOptions::default()).expect("Formatting failed");
    assert!(result.contains("data"), "Missing 'data' key");
    assert!(result.contains("|"), "Expected pipe delimiters in tabular format");
    assert!(result.contains("1"), "Expected value '1'");
    assert!(result.contains("2"), "Expected value '2'");
    assert!(result.contains("3"), "Expected value '3'");
    assert!(result.contains("4"), "Expected value '4'");
}

#[test]
fn test_format_produces_equivalent_ast() {
    let ast = parse("user:\n   name: Bob\n   age:30\n   active:true");
    let formatted = format(&ast, ToonFormattingOptions::default()).expect("Formatting failed");
    let (new_ast_opt, errors) = parse_with_errors(&formatted);
    assert!(errors.is_empty(), "Formatted output has parse errors: {:?}", errors);
    let new_ast = new_ast_opt.expect("Expected valid AST");
    assert_eq!(ast.kind(), new_ast.kind(), "AST kinds don't match");
}

#[test]
fn test_format_empty_document() {
    let ast = parse("");
    let result = format(&ast, ToonFormattingOptions::default());
    assert!(result.is_some(), "Should handle empty document");
    let formatted = result.unwrap();
    assert!(formatted.is_empty() || formatted == "\n", "Empty document should format to empty or newline");
}

#[test]
fn test_format_assumes_valid_ast() {
    let ast = parse("valid: data");
    let result = format(&ast, ToonFormattingOptions::default());
    assert!(result.is_some(), "Should format valid AST");
}

#[test]
fn format_uses_float_renderings() {
    let ast = parse("ratio: 1.50");
    assert_eq!(float_literals(&ast), vec!["1.50".to_string()]);
    let table = vec![("1.50".to_string(), "1.5".to_string())];
    assert_eq!(format_document(&ast, ToonFormattingOptions::default(), &table).unwrap(), "ratio: 1.5\n");
    assert_eq!(format_document(&ast, ToonFormattingOptions::default(), &Vec::new()).unwrap(), "ratio: 1.50\n");
}

#[test]
fn editor_options_clamp_the_tab_size() {
    assert_eq!(ToonFormattingOptions::from_editor(0, true), ToonFormattingOptions { indent_size: 1, use_tabs: false });
    assert_eq!(ToonFormattingOptions::from_editor(4, false), ToonFormattingOptions { indent_size: 4, use_tabs: true });
    assert_eq!(ToonFormattingOptions::from_editor(20, true), ToonFormattingOptions { indent_size: 8, use_tabs: false });
}

#[test]
fn indentation_that_overflows_does_not_fit() {
    let ast = parse("a:\n  b:\n    c: 1");
    assert!(fits_indentation(&ast, &ToonFormattingOptions { indent_size: 8, use_tabs: false }));
    assert!(!fits_indentation(&ast, &ToonFormattingOptions { indent_size: u32::MAX, use_tabs: false }));
}
