use toon_lsp::lsp::code_lens::collect_code_lenses;
use toon_lsp::lsp::document_links::{collect_document_links, detect_url};
use toon_lsp::lsp::linked_editing::{collect_linked_editing_ranges, regex_escape};
use toon_lsp::lsp::workspace_symbols::collect_workspace_symbols;
use toon_lsp::parser::parse_with_errors;

fn ast_of(source: &str) -> toon_lsp::ast::AstNode {
    let (ast, _) = parse_with_errors(source);
    ast.expect("should parse")
}

#[test]
fn test_code_lens_multiple_references() {
    let ast = ast_of("name: Alice\nuser:\n  name: Bob");
    let lenses = collect_code_lenses(&ast);
    assert!(!lenses.is_empty());
    let name_lens = lenses.iter().find(|l| l.key == "name");
    assert!(name_lens.is_some());
    assert!(name_lens.unwrap().title.contains("2 references"));
}

#[test]
fn test_code_lens_single_key() {
    let ast = ast_of("unique: value");
    let lenses = collect_code_lenses(&ast);
    assert!(lenses.is_empty());
}

#[test]
fn test_code_lens_empty_document() {
    let ast = ast_of("");
    let lenses = collect_code_lenses(&ast);
    assert!(lenses.is_empty());
}

#[test]
fn test_code_lens_three_references() {
    let ast = ast_of("id: 1\ndata:\n  id: 2\nmore:\n  id: 3");
    let lenses = collect_code_lenses(&ast);
    assert!(!lenses.is_empty());
    let id_lens = lenses.iter().find(|l| l.key == "id");
    assert!(id_lens.is_some());
    assert!(id_lens.unwrap().title.contains("3 references"));
    assert_eq!(id_lens.unwrap().count, 3);
    assert_eq!(id_lens.unwrap().span.start.line, 0);
}

#[test]
fn test_linked_editing_single_occurrence() {
    let source = "name: Alice";
    let ast = ast_of(source);
    let ranges = collect_linked_editing_ranges(&ast, source, 0, 0);
    assert!(ranges.is_none());
}

#[test]
fn test_linked_editing_multiple_occurrences() {
    let source = "name: Alice\nuser:\n  name: Bob";
    let ast = ast_of(source);
    let ranges = collect_linked_editing_ranges(&ast, source, 0, 0);
    assert!(ranges.is_some());
    let linked = ranges.unwrap();
    assert_eq!(linked.ranges.len(), 2);
    assert!(linked.word_pattern.is_some());
}

#[test]
fn test_linked_editing_not_on_key() {
    let source = "name: Alice\nname: Bob";
    let ast = ast_of(source);
    let ranges = collect_linked_editing_ranges(&ast, source, 0, 7);
    assert!(ranges.is_none());
}

#[test]
fn test_linked_editing_nested() {
    let source = "data:\n  id: 1\n  nested:\n    id: 2";
    let ast = ast_of(source);
    let ranges = collect_linked_editing_ranges(&ast, source, 1, 2);
    assert!(ranges.is_some());
    let linked = ranges.unwrap();
    assert_eq!(linked.ranges.len(), 2);
}

#[test]
fn test_linked_editing_three_occurrences() {
    let source = "id: 1\ndata:\n  id: 2\nmore:\n  id: 3";
    let ast = ast_of(source);
    let ranges = collect_linked_editing_ranges(&ast, source, 0, 0);
    assert!(ranges.is_some());
    let linked = ranges.unwrap();
    assert_eq!(linked.ranges.len(), 3);
    assert_eq!(linked.word_pattern.as_deref(), Some("\\bid\\b"));
}

#[test]
fn regex_escape_marks_special_characters() {
    assert_eq!(regex_escape("a.b[0]"), "a\\.b\\[0\\]");
    assert_eq!(regex_escape("plain"), "plain");
}

#[test]
fn test_detect_http_url() {
    let source = "website: https://example.com";
    let (ast, _) = parse_with_errors(source);
    let ast = ast.expect("should parse");

    let links = collect_document_links(&ast);
    assert_eq!(links.len(), 1);
    assert_eq!(Some(links[0].target.as_str()), Some("https://example.com/"));
}

#[test]
fn test_detect_ftp_url() {
    let source = "data: ftp://files.example.com";
    let (ast, _) = parse_with_errors(source);
    let ast = ast.expect("should parse");

    let links = collect_document_links(&ast);
    assert_eq!(links.len(), 1);
    assert_eq!(Some(links[0].target.as_str()), Some("ftp://files.example.com/"));
}

#[test]
fn test_no_link_in_non_url_string() {
    let source = "name: Alice";
    let (ast, _) = parse_with_errors(source);
    let ast = ast.expect("should parse");

    let links = collect_document_links(&ast);
    assert!(links.is_empty());
}

#[test]
fn test_detect_file_path() {
    let source = "config: /etc/config.toml";
    let (ast, _) = parse_with_errors(source);
    let ast = ast.expect("should parse");

    let links = collect_document_links(&ast);
    assert_eq!(links.len(), 1);
}

#[test]
fn test_multiple_links() {
    let source = "homepage: https://example.com\napi: https://api.example.com";
    let (ast, _) = parse_with_errors(source);
    let ast = ast.expect("should parse");

    let links = collect_document_links(&ast);
    assert_eq!(links.len(), 2);
}

#[test]
fn quoted_urls_and_paths_are_links_too() {
    let ast = ast_of("website: \"https://example.com\"\nconfig: \"/etc/config.toml\"");
    let links = collect_document_links(&ast);
    assert_eq!(links.len(), 2);
    assert_eq!(links[0].tooltip, "Open https://example.com");
    assert_eq!(detect_url("/etc/config.toml").as_deref(), Some("file:///etc/config.toml"));
    assert_eq!(detect_url("  https://example.com  ").as_deref(), Some("https://example.com/"));
    assert_eq!(detect_url("mailto:someone"), None);
}

#[test]
fn unquoted_url_value_keeps_its_slashes_and_dots() {
    let ast = ast_of("website: https://example.com");
    let links = collect_document_links(&ast);
    assert_eq!(links[0].tooltip, "Open https://example.com");
}

#[test]
fn test_workspace_symbols() {
    let ast = ast_of("name: Alice\nage: 30");
    let symbols = collect_workspace_symbols(&ast);
    assert_eq!(symbols.len(), 2);
}

#[test]
fn workspace_symbols_carry_their_containers() {
    let ast = ast_of("server:\n  host: x\nlist[1]{a}:\n  1");
    let symbols = collect_workspace_symbols(&ast);
    let names: Vec<(&str, Option<&str>)> =
        symbols.iter().map(|s| (s.name.as_str(), s.container_name.as_deref())).collect();
    assert_eq!(names, vec![("server", None), ("host", Some("server")), ("list", None), ("a", Some("list[0]"))]);
}
