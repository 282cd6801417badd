use toon_lsp::lsp::semantic_tokens::{
    collect_semantic_tokens, encode_tokens, spans_are_ordered, tokens_encodable, tokens_in_range,
};
use toon_lsp::lsp::utf16::{LspPosition, LspRange};
use toon_lsp::lsp::{SemanticToken, ToonTokenModifier, ToonTokenType};
use toon_lsp::parser::parse_with_errors;

fn tokens_of(source: &str) -> Vec<SemanticToken> {
    let (ast, _) = parse_with_errors(source);
    let ast = ast.expect("should parse valid TOON");
    assert!(spans_are_ordered(&ast));
    collect_semantic_tokens(&ast)
}

#[test]
fn test_semantic_tokens_object_keys() {
    let tokens = tokens_of("name: Alice\nage: 30");
    let properties: Vec<_> = tokens.iter().filter(|t| t.token_type == ToonTokenType::Property).collect();
    assert_eq!(properties.len(), 2, "Expected 2 property tokens (name, age), found {}", properties.len());
    assert_eq!(properties[0].line, 0, "name should be on line 0");
    assert_eq!(properties[0].start_col, 0, "name should start at column 0");
    assert_eq!(properties[0].length, 4, "name is 4 characters");
    assert_eq!(properties[1].line, 1, "age should be on line 1");
    assert_eq!(properties[1].start_col, 0, "age should start at column 0");
    assert_eq!(properties[1].length, 3, "age is 3 characters");
}

#[test]
fn test_semantic_tokens_string_values() {
    let tokens = tokens_of("name: Alice\nmessage: Hello World");
    let strings: Vec<_> = tokens.iter().filter(|t| t.token_type == ToonTokenType::String).collect();
    assert_eq!(strings.len(), 2, "Expected 2 string tokens (Alice, Hello World), found {}", strings.len());
    assert_eq!(strings[0].line, 0, "Alice should be on line 0");
    assert_eq!(strings[0].length, 5, "Alice is 5 characters");
    assert!(strings[0].has_modifier(ToonTokenModifier::readonly()), "String literals should be marked READONLY");
    assert_eq!(strings[1].line, 1, "Hello World should be on line 1");
    assert_eq!(strings[1].length, 11, "Hello World is 11 characters");
    assert!(strings[1].has_modifier(ToonTokenModifier::readonly()), "String literals should be marked READONLY");
}

#[test]
fn test_semantic_tokens_number_values() {
    let tokens = tokens_of("count: 42\nprice: 19.99\nnegative: -5");
    let numbers: Vec<_> = tokens.iter().filter(|t| t.token_type == ToonTokenType::Number).collect();
    assert_eq!(numbers.len(), 3, "Expected 3 number tokens (42, 19.99, -5), found {}", numbers.len());
    assert_eq!(numbers[0].line, 0, "42 should be on line 0");
    assert_eq!(numbers[0].length, 2, "42 is 2 characters");
    assert!(numbers[0].has_modifier(ToonTokenModifier::readonly()), "Number literals should be marked READONLY");
    assert_eq!(numbers[1].line, 1, "19.99 should be on line 1");
    assert_eq!(numbers[1].length, 5, "19.99 is 5 characters");
    assert_eq!(numbers[2].line, 2, "-5 should be on line 2");
    assert_eq!(numbers[2].length, 2, "-5 is 2 characters");
}

#[test]
fn test_semantic_tokens_boolean_null() {
    let tokens = tokens_of("active: true\ndeleted: false\ndata: null");
    let keywords: Vec<_> = tokens.iter().filter(|t| t.token_type == ToonTokenType::Keyword).collect();
    assert_eq!(keywords.len(), 3, "Expected 3 keyword tokens (true, false, null), found {}", keywords.len());
    assert_eq!(keywords[0].line, 0, "true should be on line 0");
    assert_eq!(keywords[0].length, 4, "true is 4 characters");
    assert!(keywords[0].has_modifier(ToonTokenModifier::readonly()), "Keywords should be marked READONLY");
    assert_eq!(keywords[1].line, 1, "false should be on line 1");
    assert_eq!(keywords[1].length, 5, "false is 5 characters");
    assert!(keywords[1].has_modifier(ToonTokenModifier::readonly()), "Keywords should be marked READONLY");
    assert_eq!(keywords[2].line, 2, "null should be on line 2");
    assert_eq!(keywords[2].length, 4, "null is 4 characters");
    assert!(keywords[2].has_modifier(ToonTokenModifier::readonly()), "Keywords should be marked READONLY");
}

#[test]
fn test_semantic_tokens_nested() {
    let tokens = tokens_of("user:\n  name: Bob\n  tags:\n    - admin\n    - user");
    let properties: Vec<_> = tokens.iter().filter(|t| t.token_type == ToonTokenType::Property).collect();
    assert_eq!(properties.len(), 3, "Expected 3 property tokens (user, name, tags), found {}", properties.len());
    let strings: Vec<_> = tokens.iter().filter(|t| t.token_type == ToonTokenType::String).collect();
    assert_eq!(strings.len(), 3, "Expected 3 string tokens (Bob, admin, user), found {}", strings.len());
    assert_eq!(properties[0].line, 0, "user should be on line 0");
    assert_eq!(properties[1].line, 1, "name should be on line 1");
    assert_eq!(properties[1].start_col, 2, "name should be indented 2 spaces");
    assert_eq!(properties[2].line, 2, "tags should be on line 2");
    assert_eq!(properties[2].start_col, 2, "tags should be indented 2 spaces");
}

#[test]
fn test_encode_tokens_relative_positions() {
    let source = "foo: bar\nbaz: 123";
    let tokens = tokens_of(source);
    assert!(tokens_encodable(&tokens, source));
    let encoded = encode_tokens(&tokens, source);
    assert!(encoded.len() >= 4, "Should have at least 4 tokens (foo, bar, baz, 123)");
    assert_eq!(encoded[0].delta_line, 0, "First token delta_line should be 0");
    assert_eq!(encoded[0].delta_start, 0, "First token delta_start should be 0");
    if encoded.len() >= 2 {
        assert_eq!(encoded[1].delta_line, 0, "Same line token delta_line should be 0");
        assert!(encoded[1].delta_start > 0, "Same line token delta_start should be offset from previous");
    }
    if encoded.len() >= 3 {
        assert_eq!(encoded[2].delta_line, 1, "New line token delta_line should be 1");
        assert_eq!(encoded[2].delta_start, 0, "New line token delta_start resets to absolute position");
    }
}

#[test]
fn encode_tokens_counts_utf16_units() {
    let source = "k: \"éb\"";
    let tokens = tokens_of(source);
    let encoded = encode_tokens(&tokens, source);
    assert_eq!(encoded.len(), 2);
    assert_eq!((encoded[0].delta_line, encoded[0].delta_start, encoded[0].length), (0, 0, 1));
    assert_eq!((encoded[1].delta_line, encoded[1].delta_start, encoded[1].length), (0, 3, 4));
    assert_eq!(encoded[0].token_type, 0);
    assert_eq!(encoded[0].token_modifiers_bitset, ToonTokenModifier::definition().bits());
    assert_eq!(encoded[1].token_type, 1);
}

#[test]
fn tokens_encodable_rejects_a_column_inside_a_character() {
    let token = SemanticToken::new(0, 1, 1, ToonTokenType::String, ToonTokenModifier::readonly());
    assert!(!tokens_encodable(&[token], "é"));
    assert!(tokens_encodable(&[token], "ab"));
}

#[test]
fn tokens_in_range_keeps_overlapping_tokens() {
    let tokens = tokens_of("a: 1\nb: 2\nc: 3");
    let range = LspRange { start: LspPosition { line: 1, character: 0 }, end: LspPosition { line: 1, character: 2 } };
    let within = tokens_in_range(&tokens, range);
    assert_eq!(within.len(), 1);
    assert_eq!((within[0].line, within[0].start_col), (1, 0));
}

#[test]
fn test_semantic_tokens_with_parse_errors() {
    let source = "valid: ok\narray: [\nmore: stuff";
    let (ast, errors) = parse_with_errors(source);
    if let Some(ast) = ast {
        if spans_are_ordered(&ast) {
            let _tokens = collect_semantic_tokens(&ast);
        }
    } else {
        assert!(!errors.is_empty(), "If no AST returned, should have parse errors");
    }
}

#[test]
fn test_semantic_tokens_empty_document() {
    let tokens = tokens_of("");
    assert!(tokens.is_empty(), "Empty document should produce no tokens, found {}", tokens.len());
}

#[test]
fn test_semantic_tokens_whitespace_only() {
    let tokens = tokens_of("   \n  \n\t\n");
    assert!(tokens.is_empty(), "Whitespace-only document should produce no tokens, found {}", tokens.len());
}
