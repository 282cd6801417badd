use toon_lsp::cli::graph::generate_mermaid_graph;
use toon_lsp::parser::parse_with_errors;

#[test]
fn mermaid_output_escapes_quoted_reference_keys() {
    let source = "\"we\\\"ird\": ${target}\ntarget: 42\n";
    let (ast, _) = parse_with_errors(source);
    if let Some(ast) = ast {
        let out = generate_mermaid_graph(&ast, source);
        assert!(!out.contains("we\"ird"), "raw quote must be escaped in output");
    }
}

#[test]
fn mermaid_graph_of_one_reference() {
    let source = "a: ${b}\nb: 42\n";
    let (ast, _) = parse_with_errors(source);
    let out = generate_mermaid_graph(&ast.unwrap(), source);
    assert_eq!(out, "flowchart TD\n    n0[\"a\"]\n    n1[\"b\"]\n    n1 --> n0\n");
}

#[test]
fn mermaid_graph_numbers_array_items_and_adds_missing_targets() {
    let source = "list[2]: 1,2\nx: ${y.z}\n";
    let (ast, _) = parse_with_errors(source);
    let out = generate_mermaid_graph(&ast.unwrap(), source);
    assert_eq!(
        out,
        "flowchart TD\n    n0[\"list\"]\n    n1[\"list.0\"]\n    n2[\"list.1\"]\n    n3[\"x\"]\n    n4[\"y.z\"]\n    n4 --> n3\n"
    );
}
