use toon_lsp::ast::{ArrayForm, AstNode, NumberValue, ObjectEntry, Position, Span};

fn test_span() -> Span {
    Span::new(Position::new(0, 0, 0), Position::new(0, 5, 5))
}

fn test_span_2() -> Span {
    Span::new(Position::new(1, 0, 10), Position::new(1, 10, 20))
}

#[test]
fn test_ast_node_kind_document() {
    let node = AstNode::Document { children: vec![], span: test_span() };
    assert_eq!(node.kind(), "document");
}

#[test]
fn test_ast_node_kind_object() {
    let node = AstNode::Object { entries: vec![], span: test_span() };
    assert_eq!(node.kind(), "object");
}

#[test]
fn test_ast_node_kind_array() {
    let node = AstNode::Array { items: vec![], form: ArrayForm::Inline, span: test_span() };
    assert_eq!(node.kind(), "array");
}

#[test]
fn test_ast_node_kind_string() {
    let node = AstNode::String { value: String::new(), span: test_span() };
    assert_eq!(node.kind(), "string");
}

#[test]
fn test_ast_node_kind_number() {
    let node = AstNode::Number { value: NumberValue::PosInt(42), span: test_span() };
    assert_eq!(node.kind(), "number");
}

#[test]
fn test_ast_node_kind_bool() {
    let node = AstNode::Bool { value: true, span: test_span() };
    assert_eq!(node.kind(), "bool");
}

#[test]
fn test_ast_node_kind_null() {
    let node = AstNode::Null { span: test_span() };
    assert_eq!(node.kind(), "null");
}

#[test]
fn test_ast_node_span_document() {
    let node = AstNode::Document { children: vec![], span: test_span() };
    assert_eq!(node.span(), test_span());
}

#[test]
fn test_ast_node_span_object() {
    let node = AstNode::Object { entries: vec![], span: test_span() };
    assert_eq!(node.span(), test_span());
}

#[test]
fn test_ast_node_span_array() {
    let node = AstNode::Array { items: vec![], form: ArrayForm::Expanded, span: test_span() };
    assert_eq!(node.span(), test_span());
}

#[test]
fn test_ast_node_span_string() {
    let node = AstNode::String { value: "hello".to_string(), span: test_span() };
    assert_eq!(node.span(), test_span());
}

#[test]
fn test_ast_node_span_number() {
    let node = AstNode::Number { value: NumberValue::PosInt(42), span: test_span() };
    assert_eq!(node.span(), test_span());
}

#[test]
fn test_ast_node_span_bool() {
    let node = AstNode::Bool { value: false, span: test_span() };
    assert_eq!(node.span(), test_span());
}

#[test]
fn test_ast_node_span_null() {
    let node = AstNode::Null { span: test_span() };
    assert_eq!(node.span(), test_span());
}

#[test]
fn test_array_form_variants() {
    let forms = [ArrayForm::Inline, ArrayForm::Expanded, ArrayForm::Tabular];
    for form in forms {
        let node = AstNode::Array { items: vec![], form, span: test_span() };
        assert_eq!(node.kind(), "array");
    }
}

#[test]
fn test_document_with_children() {
    let child = AstNode::Null { span: test_span_2() };
    let doc = AstNode::Document { children: vec![child], span: test_span() };
    let extracted_span = doc.span();
    assert_eq!(extracted_span, test_span());
}

#[test]
fn test_object_with_entries() {
    let entry = ObjectEntry { key: "test".to_string(), key_span: test_span_2(), value: AstNode::Null { span: test_span() } };
    let obj = AstNode::Object { entries: vec![entry], span: test_span() };
    let extracted_span = obj.span();
    assert_eq!(extracted_span, test_span());
}

#[test]
fn test_array_with_items() {
    let item = AstNode::Null { span: test_span_2() };
    let arr = AstNode::Array { items: vec![item], form: ArrayForm::Inline, span: test_span() };
    let extracted_span = arr.span();
    assert_eq!(extracted_span, test_span());
}

#[test]
fn test_string_value() {
    let node = AstNode::String { value: "hello world".to_string(), span: test_span() };
    let extracted_span = node.span();
    assert_eq!(extracted_span, test_span());
}

#[test]
fn test_number_variants() {
    let pos = AstNode::Number { value: NumberValue::PosInt(100), span: test_span() };
    let neg = AstNode::Number { value: NumberValue::NegInt(-50), span: test_span() };
    let float = AstNode::Number { value: NumberValue::Float("1.5".to_string()), span: test_span() };
    assert_eq!(pos.kind(), "number");
    assert_eq!(neg.kind(), "number");
    assert_eq!(float.kind(), "number");
}

#[test]
fn test_bool_variants() {
    let t = AstNode::Bool { value: true, span: test_span() };
    let f = AstNode::Bool { value: false, span: test_span() };
    assert_eq!(t.kind(), "bool");
    assert_eq!(f.kind(), "bool");
}

#[test]
fn test_eq_derive() {
    let node1 = AstNode::Null { span: test_span() };
    let node2 = AstNode::Null { span: test_span() };
    assert_eq!(node1, node2);
}

#[test]
fn test_eq_different_spans() {
    let node1 = AstNode::Null { span: test_span() };
    let node2 = AstNode::Null { span: test_span_2() };
    assert_ne!(node1, node2);
}

#[test]
fn test_number_value_eq() {
    assert_eq!(NumberValue::PosInt(42), NumberValue::PosInt(42));
    assert_eq!(NumberValue::NegInt(-10), NumberValue::NegInt(-10));
    assert_eq!(NumberValue::Float("3.14".to_string()), NumberValue::Float("3.14".to_string()));
}

#[test]
fn test_number_value_ne() {
    assert_ne!(NumberValue::PosInt(42), NumberValue::NegInt(-42));
    assert_ne!(NumberValue::PosInt(42), NumberValue::Float("42.0".to_string()));
    assert_ne!(NumberValue::NegInt(-10), NumberValue::Float("-10.0".to_string()));
}

#[test]
fn test_clone() {
    let node = AstNode::String { value: "test".to_string(), span: test_span() };
    let cloned = node.clone();
    assert_eq!(node, cloned);
}

#[test]
fn test_debug_format() {
    let node = AstNode::Null { span: test_span() };
    let debug_str = format!("{:?}", node);
    assert!(debug_str.contains("Null"));
}
