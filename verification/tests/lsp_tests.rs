use toon_lsp::ast::{Position, Span};
use toon_lsp::lsp::hover::calculate_offset;
use toon_lsp::lsp::semantic_tokens::collect_semantic_tokens;
use toon_lsp::lsp::{utf16_to_utf8_col, utf8_to_utf16_col, SemanticToken, ToonTokenModifier, ToonTokenType};

#[test]
fn test_calculate_offset() {
    let source = "line1\nline2\nline3";
    assert_eq!(calculate_offset(source, 0, 0), Some(0));
    assert_eq!(calculate_offset(source, 1, 0), Some(6));
    assert_eq!(calculate_offset(source, 2, 0), Some(12));
}

#[test]
fn calculate_offset_edges() {
    let source = "ab\ncd";
    assert_eq!(calculate_offset(source, 0, 1), Some(1));
    assert_eq!(calculate_offset(source, 0, 5), None);
    assert_eq!(calculate_offset(source, 1, 9), Some(5));
    assert_eq!(calculate_offset(source, 2, 0), None);
    assert_eq!(calculate_offset("a\n", 1, 0), Some(2));
}

#[test]
fn test_token_type_indices() {
    assert_eq!(ToonTokenType::Property.as_u32(), 0);
    assert_eq!(ToonTokenType::String.as_u32(), 1);
    assert_eq!(ToonTokenType::Number.as_u32(), 2);
    assert_eq!(ToonTokenType::Keyword.as_u32(), 3);
    assert_eq!(ToonTokenType::Operator.as_u32(), 4);
}

#[test]
fn test_token_type_conversion() {
    let property: u32 = ToonTokenType::Property.into();
    assert_eq!(property, 0);
    let keyword: u32 = ToonTokenType::Keyword.into();
    assert_eq!(keyword, 3);
}

#[test]
fn test_token_modifier_definition() {
    let def = ToonTokenModifier::definition();
    assert_eq!(def.bits(), 1);
    assert_eq!(def.as_u32(), 1);
}

#[test]
fn test_token_modifier_readonly() {
    let readonly = ToonTokenModifier::readonly();
    assert_eq!(readonly.bits(), 2);
    assert_eq!(readonly.as_u32(), 2);
}

#[test]
fn test_token_modifier_combined() {
    let combined = ToonTokenModifier::definition().union(ToonTokenModifier::readonly());
    assert_eq!(combined.bits(), 3);
    assert_eq!(combined.as_u32(), 3);
    assert!(combined.contains(ToonTokenModifier::definition()));
    assert!(combined.contains(ToonTokenModifier::readonly()));
}

#[test]
fn test_token_modifier_empty() {
    let empty = ToonTokenModifier::empty();
    assert_eq!(empty.bits(), 0);
    assert_eq!(empty.as_u32(), 0);
    assert!(!empty.contains(ToonTokenModifier::definition()));
}

#[test]
fn test_semantic_token_new() {
    let token = SemanticToken::new(5, 10, 4, ToonTokenType::Property, ToonTokenModifier::definition());
    assert_eq!(token.line, 5);
    assert_eq!(token.start_col, 10);
    assert_eq!(token.length, 4);
    assert_eq!(token.token_type, ToonTokenType::Property);
    assert_eq!(token.modifiers, ToonTokenModifier::definition());
}

#[test]
fn test_semantic_token_from_span() {
    let start = Position::new(2, 5, 25);
    let end = Position::new(2, 9, 29);
    let span = Span::new(start, end);
    let token = SemanticToken::from_span(&span, ToonTokenType::String, ToonTokenModifier::readonly());
    assert_eq!(token.line, 2);
    assert_eq!(token.start_col, 5);
    assert_eq!(token.length, 4);
    assert_eq!(token.token_type, ToonTokenType::String);
    assert_eq!(token.modifiers, ToonTokenModifier::readonly());
}

#[test]
fn test_semantic_token_has_modifier() {
    let token = SemanticToken::new(
        0,
        0,
        5,
        ToonTokenType::Property,
        ToonTokenModifier::definition().union(ToonTokenModifier::readonly()),
    );
    assert!(token.has_modifier(ToonTokenModifier::definition()));
    assert!(token.has_modifier(ToonTokenModifier::readonly()));
}

#[test]
fn test_semantic_token_no_modifier() {
    let token = SemanticToken::new(0, 0, 5, ToonTokenType::Number, ToonTokenModifier::empty());
    assert!(!token.has_modifier(ToonTokenModifier::definition()));
    assert!(!token.has_modifier(ToonTokenModifier::readonly()));
}

#[test]
fn semantic_tokens_of_document() {
    let (ast, errors) = toon_lsp::parser::parse_with_errors("name: Alice\nage: 30");
    assert!(errors.is_empty());
    let tokens = collect_semantic_tokens(&ast.unwrap());
    assert_eq!(tokens.len(), 4);
    assert_eq!(tokens[0].token_type, ToonTokenType::Property);
    assert_eq!((tokens[0].line, tokens[0].start_col, tokens[0].length), (0, 0, 4));
    assert!(tokens[0].has_modifier(ToonTokenModifier::definition()));
    assert_eq!(tokens[1].token_type, ToonTokenType::String);
    assert_eq!(tokens[1].length, 5);
    assert!(tokens[1].has_modifier(ToonTokenModifier::readonly()));
    assert_eq!(tokens[2].token_type, ToonTokenType::Property);
    assert_eq!((tokens[2].line, tokens[2].length), (1, 3));
    assert_eq!(tokens[3].token_type, ToonTokenType::Number);
    assert_eq!(tokens[3].length, 2);
}

#[test]
fn test_ascii_conversion() {
    let line = "hello world";
    assert_eq!(utf8_to_utf16_col(line, 5), 5);
    assert_eq!(utf16_to_utf8_col(line, 5), 5);
}

#[test]
fn test_multibyte_utf8() {
    let line = "hello\u{1F600}world";
    assert_eq!(utf8_to_utf16_col(line, 5), 5);
    assert_eq!(utf8_to_utf16_col(line, 9), 7);
    assert_eq!(utf16_to_utf8_col(line, 5), 5);
    assert_eq!(utf16_to_utf8_col(line, 7), 9);
}

#[test]
fn test_bmp_characters() {
    let line = "cafe\u{0301}";
    assert_eq!(utf8_to_utf16_col(line, 4), 4);
    assert_eq!(utf8_to_utf16_col(line, 6), 5);
}

#[test]
fn test_empty_line() {
    let line = "";
    assert_eq!(utf8_to_utf16_col(line, 0), 0);
    assert_eq!(utf16_to_utf8_col(line, 0), 0);
}

#[test]
fn test_column_beyond_line() {
    let line = "short";
    assert_eq!(utf8_to_utf16_col(line, 100), 5);
}

#[test]
fn utf16_column_inside_surrogate_pair_rounds_up() {
    let line = "a\u{1F600}b";
    assert_eq!(utf16_to_utf8_col(line, 2), 5);
    assert_eq!(utf16_to_utf8_col(line, 100), 6);
}
