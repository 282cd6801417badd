use toon_lsp::ast::{ArrayForm, AstNode, NumberValue, ObjectEntry, Position as AstPosition, Span};
use toon_lsp::cli::diagnose::{
    generate_diagnostics, sarif_results, DiagnosticEntry, DiagnosticReport, DiagnosticSummary, Position, Range,
};
use toon_lsp::cli::check::{check_content, check_outcome, CheckResult};
use toon_lsp::cli::error::{CliError, ExitCode};
use toon_lsp::cli::symbols::{extract_symbols, key_positions_fit, SymbolKind};
use toon_lsp::cli::Severity;
use toon_lsp::lsp::formatting::{format_document, ToonFormattingOptions};
use toon_lsp::parser::parse_with_errors;

fn test_span(line: u32, column: u32) -> Span {
    let start = AstPosition::new(line, column, line * 1000 + column);
    let end = AstPosition::new(line, column + 5, line * 1000 + column + 5);
    Span::new(start, end)
}

fn entry(key: &str, key_span: Span, value: AstNode) -> ObjectEntry {
    ObjectEntry { key: key.to_string(), key_span, value }
}

#[test]
fn test_extract_symbols_from_object() {
    let ast = AstNode::Object {
        entries: vec![
            entry("name", test_span(0, 0), AstNode::String { value: "Alice".to_string(), span: test_span(0, 5) }),
            entry("age", test_span(1, 0), AstNode::Number { value: NumberValue::PosInt(30), span: test_span(1, 4) }),
        ],
        span: test_span(0, 0),
    };
    assert!(key_positions_fit(&ast));
    let symbols = extract_symbols(&ast, "");
    assert_eq!(symbols.len(), 2);
    assert_eq!(symbols[0].name, "name");
    assert_eq!(symbols[0].kind, SymbolKind::String);
    assert_eq!(symbols[0].path, "name");
    assert_eq!(symbols[0].line, 1);
    assert_eq!(symbols[0].column, 1);
    assert_eq!(symbols[1].name, "age");
    assert_eq!(symbols[1].kind, SymbolKind::Number);
    assert_eq!(symbols[1].path, "age");
}

#[test]
fn test_extract_symbols_nested_object() {
    let ast = AstNode::Object {
        entries: vec![entry(
            "server",
            test_span(0, 0),
            AstNode::Object {
                entries: vec![
                    entry("host", test_span(1, 2), AstNode::String { value: "localhost".to_string(), span: test_span(1, 7) }),
                    entry("port", test_span(2, 2), AstNode::Number { value: NumberValue::PosInt(8080), span: test_span(2, 7) }),
                ],
                span: test_span(1, 0),
            },
        )],
        span: test_span(0, 0),
    };
    let symbols = extract_symbols(&ast, "");
    assert_eq!(symbols.len(), 1);
    assert_eq!(symbols[0].name, "server");
    assert_eq!(symbols[0].kind, SymbolKind::Object);
    assert_eq!(symbols[0].children.len(), 2);
    assert_eq!(symbols[0].children[0].name, "host");
    assert_eq!(symbols[0].children[0].path, "server.host");
    assert_eq!(symbols[0].children[0].line, 2);
    assert_eq!(symbols[0].children[1].name, "port");
    assert_eq!(symbols[0].children[1].path, "server.port");
}

#[test]
fn test_extract_symbols_array() {
    let ast = AstNode::Object {
        entries: vec![entry(
            "items",
            test_span(0, 0),
            AstNode::Array {
                items: vec![
                    AstNode::String { value: "a".to_string(), span: test_span(1, 2) },
                    AstNode::String { value: "b".to_string(), span: test_span(1, 6) },
                ],
                form: ArrayForm::Expanded,
                span: test_span(1, 0),
            },
        )],
        span: test_span(0, 0),
    };
    let symbols = extract_symbols(&ast, "");
    assert_eq!(symbols.len(), 1);
    assert_eq!(symbols[0].name, "items");
    assert_eq!(symbols[0].kind, SymbolKind::Array);
    assert_eq!(symbols[0].children.is_empty(), true);
}

#[test]
fn key_positions_that_overflow_do_not_fit() {
    let far = Span::new(AstPosition::new(u32::MAX, 0, 0), AstPosition::new(u32::MAX, 1, 1));
    let ast = AstNode::Object { entries: vec![entry("k", far, AstNode::Null { span: far })], span: far };
    assert!(!key_positions_fit(&ast));
}

#[test]
fn check_test_error_exit_code() {
    let validation_err = CliError::validation("test");
    assert_eq!(toon_lsp::cli::check::error_exit_code(&validation_err), ExitCode::ValidationFailed);
    let io_err = CliError::Io(std::io::Error::new(std::io::ErrorKind::NotFound, "not found"));
    assert_eq!(toon_lsp::cli::check::error_exit_code(&io_err), ExitCode::Error);
}

#[test]
fn decode_test_error_exit_code() {
    let validation_err = CliError::validation("test");
    assert_eq!(toon_lsp::cli::decode::error_exit_code(&validation_err), ExitCode::ValidationFailed);
    let decode_err = CliError::decode("test");
    assert_eq!(toon_lsp::cli::decode::error_exit_code(&decode_err), ExitCode::ValidationFailed);
    let io_err = CliError::Io(std::io::Error::new(std::io::ErrorKind::NotFound, "not found"));
    assert_eq!(toon_lsp::cli::decode::error_exit_code(&io_err), ExitCode::Error);
}

#[test]
fn format_test_error_exit_code() {
    let validation_err = CliError::validation("test");
    assert_eq!(toon_lsp::cli::format::error_exit_code(&validation_err), ExitCode::ValidationFailed);
    let format_err = CliError::FormatMismatch;
    assert_eq!(toon_lsp::cli::format::error_exit_code(&format_err), ExitCode::Error);
    let io_err = CliError::Io(std::io::Error::new(std::io::ErrorKind::NotFound, "not found"));
    assert_eq!(toon_lsp::cli::format::error_exit_code(&io_err), ExitCode::Error);
}

#[test]
fn diagnose_test_error_exit_code() {
    let err = CliError::diagnostic("test error");
    assert_eq!(toon_lsp::cli::diagnose::error_exit_code(&err), ExitCode::Error);
    let err = CliError::validation("validation failed");
    assert_eq!(toon_lsp::cli::diagnose::error_exit_code(&err), ExitCode::ValidationFailed);
}

#[test]
fn format_error_summary_joins_kinds() {
    let (_, errors) = parse_with_errors("key: [unclosed\nname Alice\n");
    assert!(errors.len() >= 2);
    let summary = toon_lsp::cli::format::error_summary(&errors);
    let expected: Vec<String> = errors.iter().map(|e| e.kind.message().to_string()).collect();
    assert_eq!(summary, expected.join("; "));
}

#[test]
fn test_generate_diagnostics_valid_input() {
    let report = generate_diagnostics("key: value\n", "test.toon", false, Severity::Error).unwrap();
    assert_eq!(report.file, "test.toon");
    assert_eq!(report.diagnostics.len(), 0);
    assert_eq!(report.summary.errors, 0);
}

#[test]
fn test_generate_diagnostics_invalid_input() {
    let report = generate_diagnostics("key: [unclosed\n", "test.toon", false, Severity::Error).unwrap();
    assert_eq!(report.file, "test.toon");
    assert!(!report.diagnostics.is_empty());
    assert!(report.summary.errors > 0);
}

#[test]
fn test_generate_diagnostics_with_context() {
    let report = generate_diagnostics("key: [unclosed\n", "test.toon", true, Severity::Error).unwrap();
    assert!(!report.diagnostics.is_empty());
    let diag = &report.diagnostics[0];
    assert!(diag.context.is_some());
    assert_eq!(diag.context.as_ref().unwrap(), "key: [unclosed");
}

#[test]
fn test_severity_filtering() {
    let content = "key: [unclosed\n";
    let (_ast, errors) = parse_with_errors(content);
    assert!(!errors.is_empty(), "Should have parse errors");
    let report = generate_diagnostics(content, "test.toon", false, Severity::Error).unwrap();
    assert!(!report.diagnostics.is_empty());
}

fn one_error_report(end_character: u32, message: &str) -> DiagnosticReport {
    DiagnosticReport {
        file: "test.toon".to_string(),
        diagnostics: vec![DiagnosticEntry {
            range: Range { start: Position { line: 0, character: 0 }, end: Position { line: 0, character: end_character } },
            severity: "error".to_string(),
            code: Some("E001".to_string()),
            message: message.to_string(),
            source: "toon-lsp".to_string(),
            context: None,
        }],
        summary: DiagnosticSummary { errors: 1, warnings: 0, hints: 0 },
    }
}

#[test]
fn test_format_sarif() {
    let report = one_error_report(13, "test error");
    let results = sarif_results(&report, "test.toon");
    assert_eq!(results.len(), 1);
    assert_eq!(results[0].rule_id.as_deref(), Some("E001"));
    assert_eq!(results[0].level, "error");
    assert_eq!(results[0].message, "test error");
}

#[test]
fn test_sarif_region_is_one_based() {
    let report = one_error_report(5, "test");
    let results = sarif_results(&report, "test.toon");
    assert_eq!(results[0].start_line, 1);
    assert_eq!(results[0].start_column, 1);
    assert_eq!((results[0].end_line, results[0].end_column), (1, 6));
}

#[test]
fn test_sarif_uses_file_uri_for_absolute_paths() {
    let report = one_error_report(5, "test");
    let uri = toon_lsp::cli::diagnose::path_to_file_uri("test.toon");
    let results = sarif_results(&report, &uri);
    assert_eq!(results[0].uri, "test.toon");
}

#[test]
fn sarif_levels_of_other_severities() {
    let mut report = one_error_report(5, "w");
    report.diagnostics[0].severity = "hint".to_string();
    assert_eq!(sarif_results(&report, "f")[0].level, "note");
    report.diagnostics[0].severity = "warning".to_string();
    assert_eq!(sarif_results(&report, "f")[0].level, "warning");
    report.diagnostics[0].severity = "odd".to_string();
    assert_eq!(sarif_results(&report, "f")[0].level, "none");
}

fn formatted(content: &str, options: ToonFormattingOptions) -> String {
    let (ast, errors) = parse_with_errors(content);
    assert!(errors.is_empty());
    format_document(&ast.unwrap(), options, &Vec::new()).unwrap()
}

#[test]
fn test_format_simple_toon() {
    let formatted = formatted("key: value\n", ToonFormattingOptions::default());
    assert!(formatted.contains("key"));
    assert!(formatted.contains("value"));
}

#[test]
fn test_format_normalizes_spacing() {
    let formatted = formatted("key: value\n", ToonFormattingOptions::default());
    assert!(formatted.contains("key: value"));
}

#[test]
fn test_format_with_custom_indent() {
    let formatted = formatted("server:\n  host: localhost\n", ToonFormattingOptions { indent_size: 4, use_tabs: false });
    assert!(formatted.contains("    host:"));
}

#[test]
fn test_format_with_tabs() {
    let formatted = formatted("server:\n  host: localhost\n", ToonFormattingOptions { indent_size: 1, use_tabs: true });
    assert!(formatted.contains("\thost:"));
}

#[test]
fn check_outcome_counts_every_file() {
    let a = CheckResult { file: "a.toon".to_string(), diagnostics: check_content("key: [unclosed", "a.toon") };
    let b = CheckResult { file: "b.toon".to_string(), diagnostics: check_content("key: value\n", "b.toon") };
    let c = CheckResult { file: "c.toon".to_string(), diagnostics: check_content("name Alice\nx", "c.toon") };
    let n = a.diagnostics.len() + c.diagnostics.len();
    assert!(n >= 2);
    match check_outcome(&vec![a, b, c]) {
        Err(CliError::Validation(m)) => assert_eq!(m, format!("{} error(s) found", n)),
        other => panic!("expected a validation error, got {:?}", other),
    }
    let clean = CheckResult { file: "d.toon".to_string(), diagnostics: check_content("key: value\n", "d.toon") };
    assert!(check_outcome(&vec![clean]).is_ok());
}
