use toon_lsp::ast::{ArrayForm, AstNode, NumberValue, Position, Span};
use toon_lsp::parser::{parse, parse_with_errors, ParseErrorKind, Scanner, TokenKind};

#[test]
fn test_position_new() {
    let pos = Position::new(1, 5, 10);
    assert_eq!(pos.line, 1);
    assert_eq!(pos.column, 5);
    assert_eq!(pos.offset, 10);
}

#[test]
fn test_span_contains() {
    let span = Span::new(Position::new(0, 0, 0), Position::new(0, 10, 10));
    assert!(span.contains(Position::new(0, 5, 5)));
    assert!(!span.contains(Position::new(0, 15, 15)));
}

#[test]
fn test_span_merge() {
    let span1 = Span::new(Position::new(0, 0, 0), Position::new(0, 5, 5));
    let span2 = Span::new(Position::new(0, 3, 3), Position::new(0, 10, 10));
    let merged = span1.merge(span2);
    assert_eq!(merged.start.offset, 0);
    assert_eq!(merged.end.offset, 10);
}

#[test]
fn test_scanner_position() {
    let scanner = Scanner::new("test");
    let pos = scanner.current_position();
    assert_eq!(pos.line, 0);
    assert_eq!(pos.column, 0);
}

#[test]
fn parse_simple_document() {
    let ast = parse("name: Alice\nage: 30").unwrap();
    assert_eq!(ast.kind(), "document");
    match ast {
        AstNode::Document { children, .. } => {
            assert_eq!(children.len(), 1);
            match &children[0] {
                AstNode::Object { entries, .. } => {
                    assert_eq!(entries.len(), 2);
                    assert_eq!(entries[0].key, "name");
                    assert!(matches!(&entries[0].value, AstNode::String { value, .. } if value == "Alice"));
                    assert_eq!(entries[1].key, "age");
                    assert!(matches!(&entries[1].value, AstNode::Number { value: NumberValue::PosInt(30), .. }));
                },
                _ => panic!("expected an object"),
            }
        },
        _ => panic!("expected a document"),
    }
}

#[test]
fn parse_numbers() {
    let ast = parse("a: -7\nb: 1.5e3\nc: 18446744073709551615").unwrap();
    let AstNode::Document { children, .. } = ast else { panic!() };
    let AstNode::Object { entries, .. } = &children[0] else { panic!() };
    assert!(matches!(&entries[0].value, AstNode::Number { value: NumberValue::NegInt(-7), .. }));
    assert!(matches!(&entries[1].value, AstNode::Number { value: NumberValue::Float(t), .. } if t == "1.5e3"));
    assert!(matches!(&entries[2].value, AstNode::Number { value: NumberValue::PosInt(u64::MAX), .. }));
    let err = parse("c: 18446744073709551616").unwrap_err();
    assert_eq!(err.kind, ParseErrorKind::InvalidNumber);
}

#[test]
fn parse_empty_document() {
    let ast = parse("\n\n").unwrap();
    assert!(matches!(ast, AstNode::Document { ref children, .. } if children.is_empty()));
}

#[test]
fn parse_inline_and_tabular_arrays() {
    let ast = parse("tags[3]: a,b,c\nusers[2]{id,name}:\n  1,Alice\n  2,Bob\n").unwrap();
    let AstNode::Document { children, .. } = ast else { panic!() };
    let AstNode::Object { entries, .. } = &children[0] else { panic!() };
    let AstNode::Array { items, form, .. } = &entries[0].value else { panic!() };
    assert_eq!(*form, ArrayForm::Inline);
    assert_eq!(items.len(), 3);
    let AstNode::Array { items, form, .. } = &entries[1].value else { panic!() };
    assert_eq!(*form, ArrayForm::Tabular);
    assert_eq!(items.len(), 2);
    let AstNode::Object { entries: row, .. } = &items[1] else { panic!() };
    assert_eq!(row[0].key, "id");
    assert!(matches!(&row[1].value, AstNode::String { value, .. } if value == "Bob"));
}

#[test]
fn parse_expanded_array_and_nesting() {
    let ast = parse("list:\n  - 1\n  - x\nserver:\n  host: h\n").unwrap();
    let AstNode::Document { children, .. } = ast else { panic!() };
    let AstNode::Object { entries, .. } = &children[0] else { panic!() };
    let AstNode::Array { items, form, .. } = &entries[0].value else { panic!() };
    assert_eq!(*form, ArrayForm::Expanded);
    assert_eq!(items.len(), 2);
    // The dedent that closes the array is left unread, so the object ends there.
    assert_eq!(entries.len(), 1);
}

#[test]
fn parse_with_errors_recovers() {
    let (ast, errors) = parse_with_errors("name Alice\nage: 30");
    assert!(ast.is_some());
    assert!(!errors.is_empty());
}

#[test]
fn parse_with_errors_multiple() {
    let (ast, errors) = parse_with_errors("name: Alice\nage\nactive: true");
    assert!(ast.is_some());
    assert_eq!(errors.len(), 2);
}

#[test]
fn a_failed_entry_is_reported_incomplete() {
    let (_, errors) = parse_with_errors("name: Alice\nage\nactive: true");
    assert_eq!(errors.len(), 2);
    assert_eq!(errors[0].kind, ParseErrorKind::ExpectedColon);
    assert_eq!(errors[1].kind, ParseErrorKind::ExpectedValue);
    assert_eq!(errors[1].context.as_deref(), Some("incomplete value"));
    assert_eq!(errors[1].span.start.line, 1);
    assert_eq!(errors[1].span.start.column, 0);
}

#[test]
fn strict_parse_returns_first_recorded_error() {
    let source = "name Alice\nage: 30";
    let (_, errors) = parse_with_errors(source);
    let err = parse(source).unwrap_err();
    assert_eq!(err.kind, errors[0].kind);
    assert_eq!(err.span, errors[0].span);
}

#[test]
fn document_too_large() {
    let big = "a".repeat(10 * 1024 * 1024 + 1);
    let err = parse(&big).unwrap_err();
    assert_eq!(err.kind, ParseErrorKind::DocumentTooLarge);
    let (ast, errors) = parse_with_errors(&big);
    assert!(ast.is_none());
    assert_eq!(errors.len(), 1);
    assert_eq!(errors[0].kind, ParseErrorKind::DocumentTooLarge);
}

#[test]
fn nesting_depth_limit() {
    let mut source = String::new();
    for i in 0..150 {
        source.push_str(&"  ".repeat(i));
        source.push_str(&format!("k{}:\n", i));
    }
    source.push_str(&"  ".repeat(150));
    source.push_str("v: 1\n");
    let (_, errors) = parse_with_errors(&source);
    assert!(errors.iter().any(|e| e.kind == ParseErrorKind::MaxDepthExceeded));
}

#[test]
fn error_display_text() {
    let e = toon_lsp::parser::ParseError::new(ParseErrorKind::ExpectedColon, Span::default()).with_context("after key");
    assert_eq!(e.display_text(), "expected colon (after key)");
    assert_eq!(ParseErrorKind::UnexpectedEof.message(), "unexpected end of file");
}

#[test]
fn every_indent_is_closed_before_the_end() {
    let mut scanner = Scanner::new("a:\n  b:\n    c: 1\n  d: 2\ne: 3\nf:\n  g: 4");
    let tokens = scanner.scan_all();
    let indents = tokens.iter().filter(|t| matches!(t.kind, TokenKind::Indent)).count();
    let dedents = tokens.iter().filter(|t| matches!(t.kind, TokenKind::Dedent)).count();
    assert_eq!(indents, 3);
    assert_eq!(indents, dedents);
    assert!(matches!(tokens.last().unwrap().kind, TokenKind::Eof));
    assert_eq!(scanner.current_position().offset, 38);
}
