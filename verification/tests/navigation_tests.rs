use toon_lsp::ast::AstNode;
use toon_lsp::lsp::ast_utils::{
    collect_all_keys, collect_parent_keys, collect_sibling_keys, find_key_definitions, find_node_at_position,
};
use toon_lsp::lsp::goto::get_definition_at_position;
use toon_lsp::lsp::hover::{get_hover_at_position, hover_is_safe};
use toon_lsp::lsp::references::find_references_at_position;
use toon_lsp::lsp::rename::{prepare_rename, rename_key, RenameEdit};
use toon_lsp::parser::parse_with_errors;

fn parsed(source: &str) -> AstNode {
    let (ast, _) = parse_with_errors(source);
    ast.expect("should parse")
}

fn no_floats() -> Vec<(String, String)> {
    Vec::new()
}

#[test]
fn test_find_node_at_root() {
    let ast = parsed("name: Alice");
    let result = find_node_at_position(&ast, 0, 0, 0);
    assert!(result.is_some());
}

#[test]
fn test_find_node_on_key() {
    let ast = parsed("name: Alice");
    let result = find_node_at_position(&ast, 0, 2, 2);
    assert!(result.is_some());
    let result = result.unwrap();
    assert!(result.on_key.is_some());
    assert_eq!(result.on_key.unwrap().key, "name");
}

#[test]
fn test_find_node_on_value() {
    let ast = parsed("name: Alice");
    let result = find_node_at_position(&ast, 0, 6, 6);
    assert!(result.is_some());
    let result = result.unwrap();
    assert!(result.on_key.is_none());
    assert!(matches!(result.node, AstNode::String { .. }));
}

#[test]
fn find_node_path_records_keys_and_indices() {
    let source = "list[2]: a,b";
    let ast = parsed(source);
    let offset = source.find('b').unwrap() as u32;
    let found = find_node_at_position(&ast, 0, offset, offset).expect("inside the document");
    assert!(matches!(found.node, AstNode::String { value, .. } if value == "b"));
    let keys: Vec<Option<&str>> = found.path.iter().map(|e| e.key).collect();
    let indices: Vec<Option<usize>> = found.path.iter().map(|e| e.index).collect();
    assert_eq!(keys, vec![None, None, Some("list"), None]);
    assert_eq!(indices, vec![None, None, None, Some(1)]);
    assert_eq!(collect_parent_keys(&found.path), vec!["list"]);
}

#[test]
fn find_node_outside_document_is_none() {
    let ast = parsed("name: Alice");
    assert!(find_node_at_position(&ast, 5, 0, 500).is_none());
}

#[test]
fn test_collect_sibling_keys() {
    let ast = parsed("name: Alice\nage: 30\ncity: Boston");
    if let AstNode::Document { children, .. } = &ast {
        if let Some(AstNode::Object { entries, .. }) = children.first() {
            let keys = collect_sibling_keys(entries, None);
            assert_eq!(keys.len(), 3);
            assert!(keys.contains(&"name"));
            assert!(keys.contains(&"age"));
            assert!(keys.contains(&"city"));
        }
    }
}

#[test]
fn sibling_keys_leave_out_the_excluded_key() {
    let ast = parsed("name: Alice\nage: 30\ncity: Boston");
    let AstNode::Document { children, .. } = &ast else { panic!("document") };
    let Some(AstNode::Object { entries, .. }) = children.first() else { panic!("object") };
    assert_eq!(collect_sibling_keys(entries, Some("age")), vec!["name", "city"]);
}

#[test]
fn test_find_key_definitions_unique() {
    let ast = parsed("name: Alice\nage: 30");
    if let AstNode::Document { children, .. } = &ast {
        if let Some(AstNode::Object { entries, .. }) = children.first() {
            let defs = find_key_definitions(entries, "name");
            assert_eq!(defs.len(), 1);
        }
    }
}

#[test]
fn all_keys_in_document_order() {
    let ast = parsed("a: 1\nb:\n  c: 2\nd: 3");
    let keys: Vec<String> = collect_all_keys(&ast).into_iter().map(|(k, _)| k).collect();
    assert_eq!(keys, vec!["a", "b", "c", "d"]);
}

#[test]
fn test_definition_on_key() {
    let source = "name: Alice";
    let ast = parsed(source);
    let locations = get_definition_at_position(&ast, source, 0, 2);
    assert_eq!(locations.len(), 1);
}

#[test]
fn test_definition_on_value_empty() {
    let source = "name: Alice";
    let ast = parsed(source);
    let locations = get_definition_at_position(&ast, source, 0, 8);
    assert!(locations.is_empty());
}

#[test]
fn definition_locations_give_key_columns() {
    let source = "a: 1\nkey: 2";
    let ast = parsed(source);
    let locations = get_definition_at_position(&ast, source, 1, 1);
    assert_eq!(locations.len(), 1);
    assert_eq!((locations[0].line, locations[0].start_col, locations[0].end_col), (1, 0, 3));
}

#[test]
fn test_hover_on_key() {
    let source = "name: Alice";
    let ast = parsed(source);
    let hover = get_hover_at_position(&ast, source, 0, 0, &no_floats());
    assert!(hover.is_some());
}

#[test]
fn test_hover_on_value() {
    let source = "name: Alice";
    let ast = parsed(source);
    let hover = get_hover_at_position(&ast, source, 0, 6, &no_floats());
    assert!(hover.is_some());
}

#[test]
fn hover_texts_on_keys_and_values() {
    let source = "server:\n  port: 8080\n  ratio: 0.5";
    let ast = parsed(source);
    assert!(hover_is_safe(&ast, source, 1, 3));
    let on_key = get_hover_at_position(&ast, source, 1, 3, &no_floats()).expect("on a key");
    assert_eq!(on_key.contents, "**server.port** : Number 8080");
    assert_eq!((on_key.start_line, on_key.start_col, on_key.end_col), (1, 2, 6));
    let on_value = get_hover_at_position(&ast, source, 1, 9, &no_floats()).expect("on a value");
    assert_eq!(on_value.contents, "**server.port** : Number (Integer)\n\n8080");
    let renderings = vec![("0.5".to_string(), "0.50".to_string())];
    let on_float = get_hover_at_position(&ast, source, 2, 10, &renderings).expect("on a float");
    assert_eq!(on_float.contents, "**server.ratio** : Number (Float)\n\n0.50");
    let on_object = get_hover_at_position(&ast, source, 0, 0, &no_floats()).expect("on the outer key");
    assert_eq!(on_object.contents, "**server** : Object (2 entries)");
}

#[test]
fn hover_previews_long_strings() {
    let long = "x".repeat(60);
    let source = format!("k: {long}");
    let ast = parsed(&source);
    let on_key = get_hover_at_position(&ast, &source, 0, 0, &no_floats()).expect("on the key");
    assert_eq!(on_key.contents, format!("**k** : String \"{}...\"", "x".repeat(27)));
    let on_value = get_hover_at_position(&ast, &source, 0, 5, &no_floats()).expect("on the value");
    assert_eq!(on_value.contents, format!("**k** : String\n\n\"{}...\"", "x".repeat(47)));
}

#[test]
fn hover_refuses_to_cut_inside_a_character() {
    let source = format!("k: \"{}\"", "é".repeat(30));
    let ast = parsed(&source);
    assert!(!hover_is_safe(&ast, &source, 0, 0));
    assert!(!hover_is_safe(&ast, &source, 0, 5));
}

#[test]
fn test_find_references_all_occurrences() {
    let source = "name: Alice\nuser:\n  name: Bob";
    let (ast, errors) = parse_with_errors(source);
    assert!(errors.is_empty(), "Parse should succeed");
    let ast = ast.expect("AST should be present");
    let refs = find_references_at_position(&ast, source, 0, 0, true);
    assert_eq!(refs.len(), 2, "Should find 2 occurrences of 'name'");
    assert_eq!(refs[0].key_name, "name");
    assert_eq!(refs[0].span.start.line, 0);
    assert!(refs[0].is_definition, "First occurrence should be definition");
    assert_eq!(refs[1].key_name, "name");
    assert_eq!(refs[1].span.start.line, 2);
    assert!(refs[1].is_definition, "First at this nesting level should be definition");
}

#[test]
fn test_find_references_nested() {
    let source = "data:\n  id: 1\n  nested:\n    id: 2";
    let (ast, errors) = parse_with_errors(source);
    assert!(errors.is_empty(), "Parse should succeed");
    let ast = ast.expect("AST should be present");
    let refs = find_references_at_position(&ast, source, 1, 2, true);
    assert_eq!(refs.len(), 2, "Should find 2 occurrences of 'id'");
    assert_eq!(refs[0].key_name, "id");
    assert_eq!(refs[0].span.start.line, 1);
    assert_eq!(refs[1].key_name, "id");
    assert_eq!(refs[1].span.start.line, 3);
}

#[test]
fn test_find_references_exact_match() {
    let source = "name: x\nfullname: y";
    let (ast, errors) = parse_with_errors(source);
    assert!(errors.is_empty(), "Parse should succeed");
    let ast = ast.expect("AST should be present");
    let refs = find_references_at_position(&ast, source, 0, 0, true);
    assert_eq!(refs.len(), 1, "Should find only 1 occurrence of 'name'");
    assert_eq!(refs[0].key_name, "name");
    assert_eq!(refs[0].span.start.line, 0);
}

#[test]
fn test_find_references_not_on_key() {
    let source = "name: Alice";
    let (ast, errors) = parse_with_errors(source);
    assert!(errors.is_empty(), "Parse should succeed");
    let ast = ast.expect("AST should be present");
    let refs = find_references_at_position(&ast, source, 0, 6, true);
    assert_eq!(refs.len(), 0, "Should find no references when not on key");
}

#[test]
fn test_find_references_include_declaration() {
    let source = "id: 1\ndata:\n  id: 2";
    let (ast, errors) = parse_with_errors(source);
    assert!(errors.is_empty(), "Parse should succeed");
    let ast = ast.expect("AST should be present");
    let refs_with = find_references_at_position(&ast, source, 0, 0, true);
    assert_eq!(refs_with.len(), 2, "With include_declaration=true, should find 2");
    let refs_without = find_references_at_position(&ast, source, 0, 0, false);
    assert_eq!(refs_without.len(), 1, "With include_declaration=false, should find 1");
    assert_eq!(refs_without[0].span.start.line, 2, "Should only return the other 'id'");
}

#[test]
fn test_find_references_tabular_arrays() {
    let source = "users:\n  item:\n    name: Alice\n  item:\n    name: Bob";
    let (ast, errors) = parse_with_errors(source);
    assert!(errors.is_empty(), "Parse should succeed");
    let ast = ast.expect("AST should be present");
    let refs = find_references_at_position(&ast, source, 2, 4, true);
    assert_eq!(refs.len(), 2, "Should find 2 references to 'name' in array objects");
    assert_eq!(refs[0].key_name, "name");
    assert_eq!(refs[0].span.start.line, 2);
    assert_eq!(refs[1].key_name, "name");
    assert_eq!(refs[1].span.start.line, 4);
}

#[test]
fn references_come_sorted_by_position() {
    let source = "a:\n  k: 1\nk: 2\nb:\n  k: 3";
    let ast = parsed(source);
    let refs = find_references_at_position(&ast, source, 2, 0, true);
    let lines: Vec<u32> = refs.iter().map(|r| r.span.start.line).collect();
    assert_eq!(lines, vec![1, 2, 4]);
}

#[test]
fn test_prepare_rename_on_key() {
    let source = "name: Alice";
    let (ast, errors) = parse_with_errors(source);
    assert!(errors.is_empty(), "Parse should succeed");
    let ast = ast.expect("AST should be present");
    let result = prepare_rename(&ast, source, 0, 1);
    assert!(result.is_some(), "Should validate rename on key");
    assert_eq!(result.unwrap().placeholder, "name");
}

#[test]
fn test_prepare_rename_range_and_placeholder() {
    let source = "username: bob";
    let (ast, errors) = parse_with_errors(source);
    assert!(errors.is_empty(), "Parse should succeed");
    let ast = ast.expect("AST should be present");
    let result = prepare_rename(&ast, source, 0, 4);
    assert!(result.is_some(), "Should return prepare result");
    let result = result.unwrap();
    assert_eq!(result.placeholder, "username");
    assert_eq!(result.range.start.column, 0);
    assert_eq!(result.range.end.column, 8);
}

#[test]
fn test_prepare_rename_on_value_rejected() {
    let source = "name: Alice";
    let (ast, errors) = parse_with_errors(source);
    assert!(errors.is_empty(), "Parse should succeed");
    let ast = ast.expect("AST should be present");
    let result = prepare_rename(&ast, source, 0, 7);
    assert!(result.is_none(), "Should reject rename on value");
}

#[test]
fn test_rename_updates_all_occurrences() {
    let source = "id: 1\ndata:\n  id: 2";
    let (ast, errors) = parse_with_errors(source);
    assert!(errors.is_empty(), "Parse should succeed");
    let ast = ast.expect("AST should be present");
    let edits = rename_key(&ast, source, 0, 0, "identifier");
    assert_eq!(edits.len(), 2, "Should rename all occurrences");
    assert_eq!(edits[0].new_text, "identifier");
    assert_eq!(edits[1].new_text, "identifier");
}

fn apply_edits(source: &str, edits: &[RenameEdit]) -> String {
    let mut sorted_edits = edits.to_vec();
    sorted_edits.sort_by(|a, b| b.span.start.offset.cmp(&a.span.start.offset));
    let mut result = source.to_string();
    for edit in sorted_edits {
        let start = edit.span.start.offset as usize;
        let end = edit.span.end.offset as usize;
        result.replace_range(start..end, &edit.new_text);
    }
    result
}

#[test]
fn test_rename_preserves_validity() {
    let source = "key: value";
    let (ast, errors) = parse_with_errors(source);
    assert!(errors.is_empty(), "Parse should succeed");
    let ast = ast.expect("AST should be present");
    let edits = rename_key(&ast, source, 0, 0, "new_key");
    assert_eq!(edits.len(), 1, "Should have one edit");
    let new_doc = apply_edits(source, &edits);
    assert_eq!(new_doc, "new_key: value");
    let (new_ast, new_errors) = parse_with_errors(&new_doc);
    assert!(new_errors.is_empty(), "Renamed document should parse");
    assert!(new_ast.is_some(), "Should have AST after rename");
}

#[test]
fn test_rename_special_characters() {
    let source = "my_key: value";
    let (ast, errors) = parse_with_errors(source);
    assert!(errors.is_empty(), "Parse should succeed");
    let ast = ast.expect("AST should be present");
    let edits = rename_key(&ast, source, 0, 0, "my_new_key");
    assert_eq!(edits.len(), 1, "Should have one edit");
    assert_eq!(edits[0].new_text, "my_new_key");
    assert_eq!(edits[0].span.start.column, 0);
    assert_eq!(edits[0].span.end.column, 6);
}

#[test]
fn test_rename_duplicate_key_warning() {
    let source = "name: Alice\nage: 30";
    let (ast, errors) = parse_with_errors(source);
    assert!(errors.is_empty(), "Parse should succeed");
    let ast = ast.expect("AST should be present");
    let edits = rename_key(&ast, source, 1, 0, "name");
    assert_eq!(edits.len(), 1, "Should return edit even if creating duplicate");
    assert_eq!(edits[0].new_text, "name");
    let new_doc = apply_edits(source, &edits);
    assert!(new_doc.contains("name: Alice"));
    assert!(new_doc.contains("name: 30"));
}
