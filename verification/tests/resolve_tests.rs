use toon_lsp::ast::AstNode;
use toon_lsp::parser::parse;
use toon_lsp::resolve::{collect_references, resolve, ResolveError, ResolvedRef};

fn refs_of(src: &str) -> Vec<String> {
    let ast = parse(src).expect("parse");
    collect_references(&ast)
}

#[test]
fn collects_top_level_reference() {
    assert_eq!(refs_of("ref: ${other}"), vec!["other"]);
}

#[test]
fn collects_env_reference() {
    assert_eq!(refs_of("ref: ${env:HOME}"), vec!["env:HOME"]);
}

#[test]
fn resolves_nested_path() {
    let ast = parse("foo:\n  bar: 42\nref: ${foo.bar}").unwrap();
    let resolved = resolve(&ast, "foo.bar", &Vec::new()).unwrap();
    match resolved {
        ResolvedRef::Node { node, .. } => {
            assert!(matches!(node, AstNode::Number { .. }));
        }
        _ => panic!("expected node"),
    }
}

#[test]
fn resolves_env_when_set() {
    let env = vec![("TOON_TEST_VAR".to_string(), "hello".to_string())];
    let ast = parse("ref: ${env:TOON_TEST_VAR}").unwrap();
    match resolve(&ast, "env:TOON_TEST_VAR", &env).unwrap() {
        ResolvedRef::Env(v) => assert_eq!(v, "hello"),
        _ => panic!("expected env"),
    }
}

#[test]
fn unresolved_path_is_not_found() {
    let ast = parse("ref: ${missing}").unwrap();
    match resolve(&ast, "missing", &Vec::new()) {
        Err(ResolveError::NotFound(p)) => assert_eq!(p, "missing"),
        other => panic!("expected not found, got {:?}", other),
    }
}

#[test]
fn cycle_is_detected() {
    let ast = parse("a: ${b}\nb: ${a}").unwrap();
    assert!(matches!(resolve(&ast, "a", &Vec::new()), Err(ResolveError::Cycle(_))));
}

#[test]
fn reference_chain_is_followed() {
    let ast = parse("a: ${b}\nb: 7\nc: ${a}").unwrap();
    match resolve(&ast, "c", &Vec::new()).unwrap() {
        ResolvedRef::Node { node, key_span } => {
            assert!(matches!(node, AstNode::Number { .. }));
            assert!(key_span.is_some());
        }
        _ => panic!("expected node"),
    }
}

#[test]
fn unset_environment_variable_is_reported() {
    let ast = parse("ref: ${env:NOPE}").unwrap();
    match resolve(&ast, "env:NOPE", &Vec::new()) {
        Err(ResolveError::EnvNotSet(n)) => assert_eq!(n, "NOPE"),
        other => panic!("expected unset variable, got {:?}", other),
    }
}

#[test]
fn reference_value_parses_as_reference_node() {
    let ast = parse("ref: ${other}").unwrap();
    let AstNode::Document { children, .. } = &ast else { panic!("document") };
    let AstNode::Object { entries, .. } = &children[0] else { panic!("object") };
    match &entries[0].value {
        AstNode::Reference { path, is_env, .. } => {
            assert_eq!(path, "other");
            assert!(!is_env);
        }
        other => panic!("expected reference, got {:?}", other),
    }
}

#[test]
fn a_chain_through_every_reference_resolves() {
    let ast = parse("a: ${b}\nb: ${c}\nc: ${d}\nd: ${e}\ne: 5").unwrap();
    match resolve(&ast, "a", &Vec::new()).unwrap() {
        ResolvedRef::Node { node, .. } => assert!(matches!(node, AstNode::Number { .. })),
        _ => panic!("expected node"),
    }
}

#[test]
fn a_cycle_reports_the_chain_that_met_a_path_again() {
    let ast = parse("a: ${c}\nb: ${c}\nc: ${a}").unwrap();
    match resolve(&ast, "b", &Vec::new()) {
        Err(ResolveError::Cycle(chain)) => assert_eq!(chain, vec!["b".to_string(), "c".to_string(), "a".to_string()]),
        other => panic!("expected a cycle, got {:?}", other),
    }
}
