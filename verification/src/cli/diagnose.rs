//! The `diagnose` subcommand: diagnostics in a machine-readable report.
use crate::ast::Span;
use crate::cli::error::{error_exit, CliError, ExitCode};
use crate::cli::{severity_rank, Severity};
use crate::parser::error::ErrView;
use crate::parser::grammar::parse_with_errors_result;
use crate::parser::{parse_with_errors, ParseError, ParseErrorKind};
use crate::text::{chars_of, decimal_digits, lines_of, nth_line, push_decimal};
use vstd::prelude::*;

verus! {

/// A position in a document (both 0-based).
#[derive(Debug, Clone, PartialEq, Eq, Structural)]
pub struct Position {
    /// Line number (zero-based)
    pub line: u32,
    /// Character offset in line (zero-based)
    pub character: u32,
}

/// A range in a document.
#[derive(Debug, Clone, PartialEq, Eq, Structural)]
pub struct Range {
    /// Start position (inclusive)
    pub start: Position,
    /// End position (exclusive)
    pub end: Position,
}

/// One diagnostic of the report.
#[derive(Debug, Clone)]
pub struct DiagnosticEntry {
    /// Source range of the diagnostic
    pub range: Range,
    /// Severity level
    pub severity: String,
    /// Error code (optional)
    pub code: Option<String>,
    /// Human-readable message
    pub message: String,
    /// Source of the diagnostic
    pub source: String,
    /// Source code context (optional)
    pub context: Option<String>,
}

/// The counts of diagnostics by severity.
#[derive(Debug, Clone, PartialEq, Eq, Structural)]
pub struct DiagnosticSummary {
    /// Number of errors
    pub errors: usize,
    /// Number of warnings
    pub warnings: usize,
    /// Number of hints
    pub hints: usize,
}

/// The diagnostics of one file, with their counts.
#[derive(Debug, Clone)]
pub struct DiagnosticReport {
    /// File path
    pub file: String,
    /// List of diagnostics
    pub diagnostics: Vec<DiagnosticEntry>,
    /// Summary counts
    pub summary: DiagnosticSummary,
}

/// The range of a span: line and column of both ends.
pub open spec fn range_of(span: Span) -> Range {
    Range {
        start: Position { line: span.start.line, character: span.start.column },
        end: Position { line: span.end.line, character: span.end.column },
    }
}

/// Convert a span to a range (both 0-based).
pub fn span_to_range(span: &Span) -> (r: Range)
    ensures
        r == range_of(*span),
{
    Range {
        start: Position { line: span.start.line, character: span.start.column },
        end: Position { line: span.end.line, character: span.end.column },
    }
}

/// The source line a span starts on, if the content has that line.
pub open spec fn context_line(content: Seq<char>, span: Span) -> Option<Seq<char>> {
    let lines = lines_of(content);
    if (span.start.line as int) < lines.len() {
        Some(lines[span.start.line as int])
    } else {
        None
    }
}

/// The text of the line a span starts on.
pub fn extract_context(content: &str, span: &Span) -> (r: Option<String>)
    ensures
        match r {
            Some(l) => context_line(content@, *span) == Some(l@),
            None => context_line(content@, *span) is None,
        },
{
    let v = chars_of(content);
    nth_line(&v, span.start.line as usize)
}

/// The number of each kind of parse error.
pub open spec fn kind_code(k: ParseErrorKind) -> u32 {
    match k {
        ParseErrorKind::UnexpectedChar => 1,
        ParseErrorKind::UnexpectedToken => 2,
        ParseErrorKind::ExpectedColon => 3,
        ParseErrorKind::ExpectedValue => 4,
        ParseErrorKind::ExpectedKey => 5,
        ParseErrorKind::InvalidNumber => 6,
        ParseErrorKind::UnterminatedString => 7,
        ParseErrorKind::InvalidEscape => 8,
        ParseErrorKind::InvalidIndent => 9,
        ParseErrorKind::UnexpectedEof => 10,
        ParseErrorKind::DuplicateKey => 11,
        ParseErrorKind::MaxDepthExceeded => 12,
        ParseErrorKind::DocumentTooLarge => 13,
        ParseErrorKind::TooManyArrayItems => 14,
        ParseErrorKind::TooManyObjectEntries => 15,
    }
}

/// The code number of a parse error.
pub fn error_code(error: &ParseError) -> (n: u32)
    ensures
        n == kind_code(error.kind),
{
    match error.kind {
        ParseErrorKind::UnexpectedChar => 1,
        ParseErrorKind::UnexpectedToken => 2,
        ParseErrorKind::ExpectedColon => 3,
        ParseErrorKind::ExpectedValue => 4,
        ParseErrorKind::ExpectedKey => 5,
        ParseErrorKind::InvalidNumber => 6,
        ParseErrorKind::UnterminatedString => 7,
        ParseErrorKind::InvalidEscape => 8,
        ParseErrorKind::InvalidIndent => 9,
        ParseErrorKind::UnexpectedEof => 10,
        ParseErrorKind::DuplicateKey => 11,
        ParseErrorKind::MaxDepthExceeded => 12,
        ParseErrorKind::DocumentTooLarge => 13,
        ParseErrorKind::TooManyArrayItems => 14,
        ParseErrorKind::TooManyObjectEntries => 15,
    }
}

/// The name of a severity.
pub open spec fn severity_name(s: Severity) -> Seq<char> {
    match s {
        Severity::Error => "error"@,
        Severity::Warning => "warning"@,
        Severity::Info => "info"@,
        Severity::Hint => "hint"@,
    }
}

/// The name of a severity as a new string.
pub fn severity_to_string(severity: Severity) -> (s: String)
    ensures
        s@ == severity_name(severity),
{
    match severity {
        Severity::Error => String::from_str("error"),
        Severity::Warning => String::from_str("warning"),
        Severity::Info => String::from_str("info"),
        Severity::Hint => String::from_str("hint"),
    }
}

/// How many of the diagnostics have severity `name`.
pub open spec fn count_severity(ds: Seq<DiagnosticEntry>, name: Seq<char>) -> nat
    decreases ds.len(),
{
    if ds.len() == 0 {
        0
    } else {
        count_severity(ds.drop_last(), name) + if ds.last().severity@ == name { 1nat } else { 0nat }
    }
}

proof fn lemma_count_le(ds: Seq<DiagnosticEntry>, name: Seq<char>)
    ensures
        count_severity(ds, name) <= ds.len(),
    decreases ds.len(),
{
    if ds.len() > 0 {
        lemma_count_le(ds.drop_last(), name);
    }
}

/// Count the errors, warnings and hints among the diagnostics.
pub fn calculate_summary(diagnostics: &Vec<DiagnosticEntry>) -> (s: DiagnosticSummary)
    ensures
        s.errors == count_severity(diagnostics@, "error"@),
        s.warnings == count_severity(diagnostics@, "warning"@),
        s.hints == count_severity(diagnostics@, "hint"@),
{
    let mut errors: usize = 0;
    let mut warnings: usize = 0;
    let mut hints: usize = 0;
    let error_name = chars_of("error");
    let warning_name = chars_of("warning");
    let hint_name = chars_of("hint");
    let mut i: usize = 0;
    while i < diagnostics.len()
        invariant
            0 <= i <= diagnostics.len(),
            error_name@ == "error"@,
            warning_name@ == "warning"@,
            hint_name@ == "hint"@,
            errors == count_severity(diagnostics@.take(i as int), "error"@),
            warnings == count_severity(diagnostics@.take(i as int), "warning"@),
            hints == count_severity(diagnostics@.take(i as int), "hint"@),
        decreases diagnostics.len() - i,
    {
        proof {
            assert(diagnostics@.take(i + 1).drop_last() =~= diagnostics@.take(i as int));
            lemma_count_le(diagnostics@.take(i as int), "error"@);
            lemma_count_le(diagnostics@.take(i as int), "warning"@);
            lemma_count_le(diagnostics@.take(i as int), "hint"@);
            reveal_strlit("error");
            reveal_strlit("warning");
            reveal_strlit("hint");
        }
        let sev = chars_of(diagnostics[i].severity.as_str());
        if crate::text::range_equals(&sev, 0, sev.len(), &error_name) {
            errors += 1;
        } else if crate::text::range_equals(&sev, 0, sev.len(), &warning_name) {
            warnings += 1;
        } else if crate::text::range_equals(&sev, 0, sev.len(), &hint_name) {
            hints += 1;
        }
        proof {
            assert(sev@.subrange(0, sev.len() as int) =~= sev@);
        }
        i += 1;
    }
    proof {
        assert(diagnostics@.take(diagnostics.len() as int) =~= diagnostics@);
    }
    DiagnosticSummary { errors, warnings, hints }
}

/// `E` and the code number, zero-padded to three digits.
pub open spec fn code_text(n: u32) -> Seq<char> {
    if n < 10 {
        "E00"@ + decimal_digits(n as nat)
    } else if n < 100 {
        "E0"@ + decimal_digits(n as nat)
    } else {
        "E"@ + decimal_digits(n as nat)
    }
}

fn format_code(n: u32) -> (s: String)
    ensures
        s@ == code_text(n),
{
    let mut s = if n < 10 {
        String::from_str("E00")
    } else if n < 100 {
        String::from_str("E0")
    } else {
        String::from_str("E")
    };
    push_decimal(&mut s, n as u64);
    s
}

/// Whether entry `d` reports parse error `e` of `content`.
pub open spec fn entry_reports(d: DiagnosticEntry, e: ErrView, content: Seq<char>, include_context: bool) -> bool {
    &&& d.range == range_of(e.span)
    &&& d.severity@ == "error"@
    &&& d.code matches Some(c) && c@ == code_text(kind_code(e.kind))
    &&& d.message@ == e.kind.spec_message()
    &&& d.source@ == "toon-lsp"@
    &&& match d.context {
        Some(c) => include_context && context_line(content, e.span) == Some(c@),
        None => !include_context || context_line(content, e.span) is None,
    }
}

/// The diagnostics report of `content`: an error entry for each error
/// recovering parsing reports (parse errors are errors, so no minimum
/// severity filters them out), with the source line when asked for.
pub fn generate_diagnostics(content: &str, file_name: &str, include_context: bool, min_severity: Severity)
    -> (r: Result<DiagnosticReport, CliError>)
    ensures
        ({
            let errors = parse_with_errors_result(content.len() as nat, content@).1;
            r matches Ok(report) && {
                &&& report.file@ == file_name@
                &&& report.diagnostics.len() == errors.len()
                &&& forall|i: int| 0 <= i < errors.len() ==> entry_reports(#[trigger] report.diagnostics[i],
                    errors[i], content@, include_context)
                &&& report.summary.errors == count_severity(report.diagnostics@, "error"@)
                &&& report.summary.warnings == count_severity(report.diagnostics@, "warning"@)
                &&& report.summary.hints == count_severity(report.diagnostics@, "hint"@)
            }
        }),
{
    let (_ast, errors) = parse_with_errors(content);
    let mut diagnostics: Vec<DiagnosticEntry> = Vec::new();
    let mut i: usize = 0;
    while i < errors.len()
        invariant
            0 <= i <= errors.len(),
            diagnostics.len() == i,
            forall|k: int| 0 <= k < i ==> entry_reports(#[trigger] diagnostics[k], errors@[k]@, content@, include_context),
        decreases errors.len() - i,
    {
        let err = &errors[i];
        // Parse errors are errors: the most severe level, never filtered out.
        let severity = Severity::Error;
        if severity.rank() < min_severity.rank() {
            i += 1;
            continue;
        }
        let source_context = if include_context { extract_context(content, &err.span) } else { None };
        proof {
            reveal_strlit("toon-lsp");
        }
        diagnostics.push(DiagnosticEntry {
            range: span_to_range(&err.span),
            severity: severity_to_string(severity),
            code: Some(format_code(error_code(err))),
            message: String::from_str(err.kind.message()),
            source: String::from_str("toon-lsp"),
            context: source_context,
        });
        i += 1;
    }
    proof {
        let errs = parse_with_errors_result(content.len() as nat, content@).1;
        assert forall|k: int| 0 <= k < errs.len() implies entry_reports(#[trigger] diagnostics[k], errs[k], content@, include_context) by {
            assert(errs[k] == errors@[k]@);
        }
    }
    let summary = calculate_summary(&diagnostics);
    Ok(DiagnosticReport { file: String::from_str(file_name), diagnostics, summary })
}

/// Whether a path is absolute on the running platform
/// (`std::path::Path::is_absolute`); what counts as absolute depends on
/// the platform, so nothing is claimed of the result.
#[verifier::external_body]
fn path_is_absolute(path: &str) -> bool {
    std::path::Path::new(path).is_absolute()
}

/// The URI of a path that the platform counts as absolute or not
/// (`absolute`): `stdin` and `<stdin>` and relative paths stay as they
/// are; an absolute path gets backslashes turned into slashes and a
/// `file://` prefix (`file:///` when it does not start with a slash).
pub open spec fn file_uri(path: Seq<char>, absolute: bool) -> Seq<char> {
    if path == "stdin"@ || path == "<stdin>"@ || !absolute {
        path
    } else {
        let normalized = path.map_values(|c: char| if c == '\\' { '/' } else { c });
        if normalized.len() > 0 && normalized[0] == '/' {
            "file://"@ + normalized
        } else {
            "file:///"@ + normalized
        }
    }
}

/// The URI of a path, given whether it is absolute.
pub fn file_uri_for(path: &str, absolute: bool) -> (s: String)
    ensures
        s@ == file_uri(path@, absolute),
{
    let v = chars_of(path);
    let stdin1 = chars_of("stdin");
    let stdin2 = chars_of("<stdin>");
    proof {
        assert(v@.subrange(0, v.len() as int) =~= v@);
    }
    if crate::text::range_equals(&v, 0, v.len(), &stdin1) || crate::text::range_equals(&v, 0, v.len(), &stdin2)
        || !absolute {
        return String::from_str(path);
    }
    let mut normalized = String::new();
    let mut i: usize = 0;
    while i < v.len()
        invariant
            0 <= i <= v.len(),
            normalized@ == v@.take(i as int).map_values(|c: char| if c == '\\' { '/' } else { c }),
        decreases v.len() - i,
    {
        let c = v[i];
        normalized.push(if c == '\\' { '/' } else { c });
        proof {
            assert(v@.take(i + 1).map_values(|c: char| if c == '\\' { '/' } else { c })
                =~= v@.take(i as int).map_values(|c: char| if c == '\\' { '/' } else { c }).push(if c == '\\' { '/' } else { c }));
        }
        i += 1;
    }
    proof {
        assert(v@.take(v.len() as int) =~= v@);
    }
    let starts_with_slash = v.len() > 0 && (v[0] == '/' || v[0] == '\\');
    let mut s = if starts_with_slash { String::from_str("file://") } else { String::from_str("file:///") };
    s.append(normalized.as_str());
    s
}

/// The URI of a path: `file://` URIs for absolute paths.
pub fn path_to_file_uri(path: &str) -> (s: String)
    ensures
        s@ == file_uri(path@, true) || s@ == file_uri(path@, false),
{
    let absolute = path_is_absolute(path);
    file_uri_for(path, absolute)
}

/// The exit code of `diagnose` for an error.
pub fn error_exit_code(error: &CliError) -> (c: ExitCode)
    ensures
        c == error_exit(error),
{
    error.exit_code()
}

/// One result of a SARIF report.
#[derive(Debug, Clone)]
pub struct SarifEntry {
    /// The diagnostic code
    pub rule_id: Option<String>,
    /// SARIF level: `error`, `warning`, `note` or `none`
    pub level: String,
    /// The message text
    pub message: String,
    /// The artifact's URI
    pub uri: String,
    /// Start line (1-based)
    pub start_line: u32,
    /// Start column (1-based)
    pub start_column: u32,
    /// End line (1-based)
    pub end_line: u32,
    /// End column (1-based)
    pub end_column: u32,
}

/// The SARIF level of a severity name.
pub open spec fn sarif_level(severity: Seq<char>) -> Seq<char> {
    if severity == "error"@ {
        "error"@
    } else if severity == "warning"@ {
        "warning"@
    } else if severity == "info"@ || severity == "hint"@ {
        "note"@
    } else {
        "none"@
    }
}

/// Whether a diagnostic's positions can be made 1-based in a `u32`.
pub open spec fn sarif_representable(d: DiagnosticEntry) -> bool {
    d.range.start.line < u32::MAX && d.range.start.character < u32::MAX && d.range.end.line < u32::MAX
        && d.range.end.character < u32::MAX
}

/// The SARIF result of a diagnostic: its code, level and message, the
/// artifact's URI, and its range made 1-based.
pub open spec fn sarif_entry_of(d: DiagnosticEntry, uri: Seq<char>, e: SarifEntry) -> bool {
    &&& match (e.rule_id, d.code) {
        (Some(a), Some(b)) => a@ == b@,
        (None, None) => true,
        _ => false,
    }
    &&& e.level@ == sarif_level(d.severity@)
    &&& e.message@ == d.message@
    &&& e.uri@ == uri
    &&& e.start_line == d.range.start.line + 1
    &&& e.start_column == d.range.start.character + 1
    &&& e.end_line == d.range.end.line + 1
    &&& e.end_column == d.range.end.character + 1
}

fn copy_text(s: &String) -> (r: String)
    ensures
        r@ == s@,
{
    s.clone()
}

fn level_of(severity: &String) -> (r: String)
    ensures
        r@ == sarif_level(severity@),
{
    let v = chars_of(severity.as_str());
    let error = chars_of("error");
    let warning = chars_of("warning");
    let info = chars_of("info");
    let hint = chars_of("hint");
    proof {
        assert(v@.subrange(0, v.len() as int) =~= v@);
    }
    if crate::text::range_equals(&v, 0, v.len(), &error) {
        String::from_str("error")
    } else if crate::text::range_equals(&v, 0, v.len(), &warning) {
        String::from_str("warning")
    } else if crate::text::range_equals(&v, 0, v.len(), &info) || crate::text::range_equals(&v, 0, v.len(), &hint) {
        String::from_str("note")
    } else {
        String::from_str("none")
    }
}

/// The SARIF results of a report, one per diagnostic and in its order.
pub fn sarif_results(report: &DiagnosticReport, artifact_uri: &str) -> (r: Vec<SarifEntry>)
    requires
        forall|i: int| 0 <= i < report.diagnostics@.len() ==> sarif_representable(#[trigger] report.diagnostics@[i]),
    ensures
        r@.len() == report.diagnostics@.len(),
        forall|i: int| 0 <= i < r@.len() ==> sarif_entry_of(report.diagnostics@[i], artifact_uri@, #[trigger] r@[i]),
{
    let mut out: Vec<SarifEntry> = Vec::new();
    let mut i: usize = 0;
    while i < report.diagnostics.len()
        invariant
            0 <= i <= report.diagnostics@.len(),
            out@.len() == i,
            forall|k: int| 0 <= k < report.diagnostics@.len() ==> sarif_representable(#[trigger] report.diagnostics@[k]),
            forall|k: int| 0 <= k < i ==> sarif_entry_of(report.diagnostics@[k], artifact_uri@, #[trigger] out@[k]),
        decreases report.diagnostics@.len() - i,
    {
        let d = &report.diagnostics[i];
        proof {
            assert(sarif_representable(report.diagnostics@[i as int]));
        }
        let rule_id = match &d.code {
            Some(c) => Some(copy_text(c)),
            None => None,
        };
        out.push(SarifEntry {
            rule_id,
            level: level_of(&d.severity),
            message: copy_text(&d.message),
            uri: String::from_str(artifact_uri),
            start_line: d.range.start.line + 1,
            start_column: d.range.start.character + 1,
            end_line: d.range.end.line + 1,
            end_column: d.range.end.character + 1,
        });
        i += 1;
    }
    out
}

} // verus!
