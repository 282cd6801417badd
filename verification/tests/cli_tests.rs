use toon_lsp::ast::{Position as AstPosition, Span};
use toon_lsp::cli::check::{check_content, Diagnostic};
use toon_lsp::cli::diagnose::{
    calculate_summary, error_code, extract_context, file_uri_for, generate_diagnostics, path_to_file_uri,
    severity_to_string, span_to_range, DiagnosticEntry, Position, Range,
};
use toon_lsp::cli::error::{CliError, ExitCode};
use toon_lsp::cli::graph::escape_mermaid_label;
use toon_lsp::cli::symbols::{flatten_symbols, format_flat, format_tree, Symbol, SymbolKind};
use toon_lsp::cli::{Severity, SymbolsArgs, SymbolsFormat};
use toon_lsp::parser::{ParseError, ParseErrorKind};

#[test]
fn test_check_valid_content() {
    let content = "key: value\n";
    let diagnostics = check_content(content, "test.toon");
    assert!(diagnostics.is_empty());
}

#[test]
fn test_check_invalid_content() {
    let content = "key: [unclosed";
    let diagnostics = check_content(content, "test.toon");
    assert!(!diagnostics.is_empty());
}

#[test]
fn test_diagnostic_format_text() {
    let diag = Diagnostic { file: "test.toon".to_string(), line: 5, column: 10, message: "test error".to_string() };
    let text = diag.format_text();
    assert!(text.contains("test.toon"));
    assert!(text.contains("5"));
    assert!(text.contains("10"));
    assert!(text.contains("test error"));
}

#[test]
fn test_diagnostic_format_github() {
    let diag = Diagnostic { file: "test.toon".to_string(), line: 5, column: 10, message: "test error".to_string() };
    let github = diag.format_github();
    assert!(github.starts_with("::error"));
    assert!(github.contains("file=test.toon"));
    assert!(github.contains("line=5"));
    assert!(github.contains("col=10"));
}

#[test]
fn test_diagnostic_format_github_encodes_special_chars() {
    let diag = Diagnostic {
        file: "test.toon".to_string(),
        line: 1,
        column: 1,
        message: "100% complete\nwith newline\rand carriage return".to_string(),
    };
    let github = diag.format_github();
    assert!(github.contains("100%25 complete"));
    assert!(github.contains("%0Awith newline"));
    assert!(github.contains("%0Dand carriage return"));
    assert!(!github.contains('\n'));
    assert!(!github.contains('\r'));
}

#[test]
fn format_text_exact() {
    let diag = Diagnostic { file: "a.toon".to_string(), line: 2, column: 7, message: "expected colon".to_string() };
    assert_eq!(diag.format_text(), "a.toon:2:7: error: expected colon");
    assert_eq!(diag.format_github(), "::error file=a.toon,line=2,col=7::expected colon");
}

#[test]
fn check_content_reports_position_and_message() {
    let diagnostics = check_content("name Alice\n", "f.toon");
    assert!(!diagnostics.is_empty());
    assert_eq!(diagnostics[0].file, "f.toon");
    assert_eq!(diagnostics[0].line, 1);
    assert_eq!(diagnostics[0].column, 6);
    assert_eq!(diagnostics[0].message, "expected colon");
}

#[test]
fn test_span_to_range_conversion() {
    let span = Span::new(AstPosition::new(1, 5, 0), AstPosition::new(1, 10, 5));
    let range = span_to_range(&span);
    assert_eq!(range.start.line, 1);
    assert_eq!(range.start.character, 5);
    assert_eq!(range.end.line, 1);
    assert_eq!(range.end.character, 10);
}

#[test]
fn test_extract_context() {
    let content = "line 1\nline 2 with error\nline 3\n";
    let span = Span::new(AstPosition::new(1, 0, 7), AstPosition::new(1, 5, 12));
    let context = extract_context(content, &span);
    assert_eq!(context, Some("line 2 with error".to_string()));
}

#[test]
fn test_extract_context_invalid_line() {
    let content = "line 1\n";
    let span = Span::new(AstPosition::new(99, 0, 999), AstPosition::new(99, 5, 1004));
    let context = extract_context(content, &span);
    assert_eq!(context, None);
}

#[test]
fn extract_context_strips_carriage_return() {
    let content = "a\r\nb";
    let span = Span::new(AstPosition::new(0, 0, 0), AstPosition::new(0, 1, 1));
    assert_eq!(extract_context(content, &span), Some("a".to_string()));
    let span = Span::new(AstPosition::new(1, 0, 3), AstPosition::new(1, 1, 4));
    assert_eq!(extract_context(content, &span), Some("b".to_string()));
    let span = Span::new(AstPosition::new(2, 0, 4), AstPosition::new(2, 0, 4));
    assert_eq!(extract_context(content, &span), None);
}

#[test]
fn test_error_code_mapping() {
    let pos = AstPosition::new(1, 1, 1);
    let span = Span::new(pos, pos);
    let err = ParseError { kind: ParseErrorKind::UnexpectedChar, span, context: None };
    assert_eq!(error_code(&err), 1);
    let err = ParseError { kind: ParseErrorKind::UnexpectedToken, span, context: None };
    assert_eq!(error_code(&err), 2);
    let err = ParseError { kind: ParseErrorKind::UnexpectedEof, span, context: None };
    assert_eq!(error_code(&err), 10);
    let err = ParseError { kind: ParseErrorKind::DuplicateKey, span, context: None };
    assert_eq!(error_code(&err), 11);
}

#[test]
fn test_severity_to_string() {
    assert_eq!(severity_to_string(Severity::Error), "error");
    assert_eq!(severity_to_string(Severity::Warning), "warning");
    assert_eq!(severity_to_string(Severity::Info), "info");
    assert_eq!(severity_to_string(Severity::Hint), "hint");
}

fn entry(line: u32, severity: &str, code: &str, message: &str) -> DiagnosticEntry {
    DiagnosticEntry {
        range: Range { start: Position { line, character: 0 }, end: Position { line, character: 1 } },
        severity: severity.to_string(),
        code: Some(code.to_string()),
        message: message.to_string(),
        source: "toon-lsp".to_string(),
        context: None,
    }
}

#[test]
fn test_calculate_summary() {
    let diagnostics = vec![
        entry(0, "error", "E001", "error 1"),
        entry(1, "error", "E002", "error 2"),
        entry(2, "warning", "W001", "warning 1"),
    ];
    let summary = calculate_summary(&diagnostics);
    assert_eq!(summary.errors, 2);
    assert_eq!(summary.warnings, 1);
    assert_eq!(summary.hints, 0);
}

#[test]
fn generate_diagnostics_report() {
    let report = generate_diagnostics("name Alice\n", "f.toon", true, Severity::Hint).unwrap();
    assert_eq!(report.file, "f.toon");
    assert!(!report.diagnostics.is_empty());
    let d = &report.diagnostics[0];
    assert_eq!(d.severity, "error");
    assert_eq!(d.code, Some("E003".to_string()));
    assert_eq!(d.message, "expected colon");
    assert_eq!(d.source, "toon-lsp");
    assert_eq!(d.context, Some("name Alice".to_string()));
    assert_eq!(report.summary.errors, report.diagnostics.len());
    let clean = generate_diagnostics("a: 1\n", "g.toon", false, Severity::Error).unwrap();
    assert!(clean.diagnostics.is_empty());
    assert_eq!(clean.summary.errors, 0);
}

#[test]
fn test_path_to_file_uri_relative() {
    assert_eq!(path_to_file_uri("test.toon"), "test.toon");
    assert_eq!(path_to_file_uri("src/config.toon"), "src/config.toon");
}

#[test]
fn test_path_to_file_uri_stdin() {
    assert_eq!(path_to_file_uri("stdin"), "stdin");
    assert_eq!(path_to_file_uri("<stdin>"), "<stdin>");
}

#[test]
fn test_path_to_file_uri_unix_absolute() {
    assert_eq!(path_to_file_uri("/home/user/test.toon"), "file:///home/user/test.toon");
}

// On this platform a drive path is not absolute; the URI that a platform
// counting it as absolute gives is checked through `file_uri_for`.
#[test]
fn test_path_to_file_uri_windows_absolute() {
    let uri = file_uri_for("C:\\Users\\test.toon", true);
    assert!(uri.starts_with("file:///"));
    assert!(uri.contains("C:/Users/test.toon"));
}

#[test]
fn test_exit_code_values() {
    assert_eq!(ExitCode::Success as i32, 0);
    assert_eq!(ExitCode::Error as i32, 1);
    assert_eq!(ExitCode::ValidationFailed as i32, 2);
}

#[test]
fn test_exit_code_to_i32() {
    assert_eq!(i32::from(ExitCode::Success), 0);
    assert_eq!(i32::from(ExitCode::Error), 1);
    assert_eq!(i32::from(ExitCode::ValidationFailed), 2);
}

#[test]
fn test_exit_code_from_error() {
    assert_eq!(CliError::parse("test").exit_code(), ExitCode::Error);
    assert_eq!(CliError::validation("test").exit_code(), ExitCode::ValidationFailed);
    assert_eq!(CliError::format("test").exit_code(), ExitCode::ValidationFailed);
}

#[test]
fn test_error_constructors() {
    assert_eq!(CliError::parse("test parse").display_text(), "Parse error: test parse");
    assert_eq!(CliError::encode("test encode").display_text(), "Encode error: test encode");
    assert_eq!(CliError::decode("test decode").display_text(), "Decode error: test decode");
    assert_eq!(CliError::validation("test validation").display_text(), "Validation error: test validation");
    assert_eq!(CliError::format("test format").display_text(), "Format error: test format");
    assert_eq!(CliError::symbol("test symbol").display_text(), "Symbol error: test symbol");
    assert_eq!(CliError::diagnostic("test diagnostic").display_text(), "Diagnostic error: test diagnostic");
}

#[test]
fn test_io_error_conversion() {
    let io_err = std::io::Error::new(std::io::ErrorKind::NotFound, "file not found");
    let cli_err = CliError::from(io_err);
    assert!(matches!(cli_err, CliError::Io(_)));
    assert_eq!(cli_err.exit_code(), ExitCode::Error);
}

#[test]
fn test_error_exit_code() {
    let validation_err = CliError::Validation("test".to_string());
    assert_eq!(toon_lsp::cli::check::error_exit_code(&validation_err), ExitCode::ValidationFailed);
    let io_err = CliError::Io(std::io::Error::new(std::io::ErrorKind::NotFound, "not found"));
    assert_eq!(toon_lsp::cli::check::error_exit_code(&io_err), ExitCode::Error);
    assert_eq!(toon_lsp::cli::symbols::error_exit_code(&CliError::parse("x")), ExitCode::ValidationFailed);
}

#[test]
fn escapes_double_quotes_in_labels() {
    assert_eq!(escape_mermaid_label("a\"b"), "a&quot;b");
}

#[test]
fn replaces_newlines_with_spaces() {
    assert_eq!(escape_mermaid_label("a\nb\rc"), "a b c");
}

#[test]
fn leaves_plain_labels_unchanged() {
    assert_eq!(escape_mermaid_label("service.name"), "service.name");
}

#[test]
fn test_severity_ordering() {
    assert!(Severity::Error > Severity::Warning);
    assert!(Severity::Warning > Severity::Info);
    assert!(Severity::Info > Severity::Hint);
    assert!(Severity::Error.rank() > Severity::Warning.rank());
}

fn sym(name: &str, kind: SymbolKind, path: &str, line: usize, column: usize, children: Vec<Symbol>) -> Symbol {
    Symbol { name: name.to_string(), kind, path: path.to_string(), line, column, children }
}

fn server_port() -> Vec<Symbol> {
    vec![
        sym("server", SymbolKind::Object, "server", 1, 1, vec![sym("host", SymbolKind::String, "server.host", 2, 3, Vec::new())]),
        sym("port", SymbolKind::Number, "port", 3, 1, Vec::new()),
    ]
}

#[test]
fn test_format_tree_basic() {
    let args = SymbolsArgs { input: None, format: SymbolsFormat::Tree, types: false, positions: false };
    assert_eq!(format_tree(&server_port(), &args, 0), "server\n  host\nport\n");
}

#[test]
fn test_format_tree_with_types() {
    let symbols = vec![sym("name", SymbolKind::String, "name", 1, 1, Vec::new())];
    let args = SymbolsArgs { input: None, format: SymbolsFormat::Tree, types: true, positions: false };
    assert_eq!(format_tree(&symbols, &args, 0), "name [string]\n");
}

#[test]
fn test_format_tree_with_positions() {
    let symbols = vec![sym("age", SymbolKind::Number, "age", 5, 10, Vec::new())];
    let args = SymbolsArgs { input: None, format: SymbolsFormat::Tree, types: false, positions: true };
    assert_eq!(format_tree(&symbols, &args, 0), "age  (L5:C10)\n");
}

#[test]
fn test_format_tree_with_types_and_positions() {
    let symbols = vec![sym("enabled", SymbolKind::Boolean, "enabled", 7, 3, Vec::new())];
    let args = SymbolsArgs { input: None, format: SymbolsFormat::Tree, types: true, positions: true };
    assert_eq!(format_tree(&symbols, &args, 0), "enabled [boolean]  (L7:C3)\n");
}

#[test]
fn test_format_flat_basic() {
    let args = SymbolsArgs { input: None, format: SymbolsFormat::Flat, types: false, positions: false };
    assert_eq!(format_flat(&server_port(), &args), "server\nserver.host\nport\n");
}

#[test]
fn test_format_flat_with_types() {
    let symbols = vec![sym("config", SymbolKind::Object, "config", 1, 1, Vec::new())];
    let args = SymbolsArgs { input: None, format: SymbolsFormat::Flat, types: true, positions: false };
    assert_eq!(format_flat(&symbols, &args), "config [object]\n");
}

#[test]
fn test_flatten_symbols() {
    let symbols = vec![sym(
        "root",
        SymbolKind::Object,
        "root",
        1,
        1,
        vec![
            sym("child1", SymbolKind::String, "root.child1", 2, 3, Vec::new()),
            sym("child2", SymbolKind::Number, "root.child2", 3, 3, Vec::new()),
        ],
    )];
    let flat = flatten_symbols(&symbols);
    assert_eq!(flat.len(), 3);
    assert_eq!(flat[0].path, "root");
    assert_eq!(flat[1].path, "root.child1");
    assert_eq!(flat[2].path, "root.child2");
}

#[test]
fn test_symbol_kind_as_str() {
    assert_eq!(SymbolKind::Object.as_str(), "object");
    assert_eq!(SymbolKind::Array.as_str(), "array");
    assert_eq!(SymbolKind::String.as_str(), "string");
    assert_eq!(SymbolKind::Number.as_str(), "number");
    assert_eq!(SymbolKind::Boolean.as_str(), "boolean");
    assert_eq!(SymbolKind::Null.as_str(), "null");
}

#[test]
fn extract_symbols_from_parsed_document() {
    let ast = toon_lsp::parser::parse("server:\n  host: localhost\n  port: 8080\nname: x\n").unwrap();
    let symbols = toon_lsp::cli::symbols::extract_symbols(&ast, "");
    assert_eq!(symbols.len(), 2);
    assert_eq!(symbols[0].name, "server");
    assert_eq!(symbols[0].kind, SymbolKind::Object);
    assert_eq!(symbols[0].line, 1);
    assert_eq!(symbols[0].column, 1);
    assert_eq!(symbols[0].children.len(), 2);
    assert_eq!(symbols[0].children[0].path, "server.host");
    assert_eq!(symbols[0].children[1].kind, SymbolKind::Number);
    assert_eq!(symbols[1].kind, SymbolKind::String);
}
