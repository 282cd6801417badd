use toon_lsp::lsp::code_actions::{
    collect_code_actions, lsp_pos_to_offset, offset_to_lsp_pos, sort_keys_ready, CodeAction,
};
use toon_lsp::lsp::utf16::{LspPosition, LspRange};
use toon_lsp::parser::parse_with_errors;

fn actions_for(source: &str, line: u32, character: u32) -> Vec<CodeAction> {
    let (ast, _) = parse_with_errors(source);
    let ast = ast.expect("should parse");
    let range = LspRange { start: LspPosition { line, character }, end: LspPosition { line, character } };
    assert!(sort_keys_ready(&ast, source, line, character));
    collect_code_actions(&ast, source, range)
}

#[test]
fn no_action_when_sorted() {
    let source = "apple: 2\nbanana: 1\ncherry: 3";
    assert!(actions_for(source, 0, 0).is_empty());
}

#[test]
fn sort_action_when_unsorted() {
    let source = "banana: 1\napple: 2\ncherry: 3";
    let actions = actions_for(source, 1, 0);
    assert_eq!(actions.len(), 1);
    let action = &actions[0];
    assert_eq!(action.title, "Sort Object Keys Alphabetically");
    let new = &action.new_text;
    // Keys should now be in order: apple, banana, cherry.
    let order: Vec<&str> = new
        .split('\n')
        .filter_map(|l| l.split(':').next())
        .map(|k| k.trim())
        .filter(|k| !k.is_empty())
        .collect();
    assert_eq!(order, vec!["apple", "banana", "cherry"]);
}

#[test]
fn no_action_for_single_key() {
    let source = "only: 1";
    assert!(actions_for(source, 0, 0).is_empty());
}

#[test]
fn multiline_values_preserved() {
    let source = "zeta:\n  a: 1\nalpha:\n  b: 2";
    let actions = actions_for(source, 0, 0);
    assert_eq!(actions.len(), 1);
    let new = &actions[0].new_text;
    assert_eq!(new, "alpha:\n  b: 2\nzeta:\n  a: 1");
    assert!(new.contains("a: 1"));
    assert!(new.contains("b: 2"));
}

#[test]
fn nested_object_indentation_preserved() {
    let source = "user:\n  name: Bob\n  age: 30";
    let actions = actions_for(source, 1, 2);
    assert_eq!(actions.len(), 1);
    let new = &actions[0].new_text;
    assert_eq!(new, "age: 30\n  name: Bob");
}

#[test]
fn sort_action_kind_and_range() {
    let source = "banana: 1\napple: 2\ncherry: 3";
    let actions = actions_for(source, 1, 0);
    assert_eq!(actions[0].kind, "source.sortObjectKeys");
    assert_eq!(actions[0].range.start, LspPosition { line: 0, character: 0 });
    assert_eq!(actions[0].range.end, LspPosition { line: 2, character: 9 });
    assert_eq!(actions[0].new_text, "apple: 2\nbanana: 1\ncherry: 3");
}

#[test]
fn equal_keys_keep_their_order() {
    let source = "b: 1\na: 2\nb: 3";
    let actions = actions_for(source, 0, 0);
    assert_eq!(actions.len(), 1);
    assert_eq!(actions[0].new_text, "a: 2\nb: 1\nb: 3");
}

#[test]
fn protocol_positions_and_offsets() {
    let text: Vec<char> = "ab\n\u{e9}x\n".chars().collect();
    // Line 1, UTF-16 column 1 lies after the two-byte character.
    assert_eq!(lsp_pos_to_offset(&text, 1, 1), 5);
    // A column past the end of the line stops at the line's end.
    assert_eq!(lsp_pos_to_offset(&text, 0, 40), 2);
    // A line past the last one stays on the last line.
    assert_eq!(lsp_pos_to_offset(&text, 9, 0), 7);
    assert_eq!(offset_to_lsp_pos(&text, 5), LspPosition { line: 1, character: 1 });
    assert_eq!(offset_to_lsp_pos(&text, 3), LspPosition { line: 1, character: 0 });
}
