//! Errors of the command-line interface and the exit codes they map to.
use vstd::prelude::*;

verus! {

#[verifier::external_type_specification]
#[verifier::external_body]
pub struct ExIoError(std::io::Error);

#[verifier::external_type_specification]
#[verifier::external_body]
pub struct ExJsonError(serde_json::Error);

#[verifier::external_type_specification]
#[verifier::external_body]
pub struct ExYamlError(serde_yaml::Error);

/// Errors of CLI operations.
#[derive(Debug)]
pub enum CliError {
    /// I/O error reading or writing files
    Io(std::io::Error),
    /// TOON parsing error
    Parse(String),
    /// TOON encoding error
    Encode(String),
    /// TOON decoding error
    Decode(String),
    /// JSON serialization/deserialization error
    Json(serde_json::Error),
    /// YAML serialization/deserialization error
    Yaml(serde_yaml::Error),
    /// Validation error (syntax is valid but content has issues)
    Validation(String),
    /// Formatting error
    Format(String),
    /// Format check mismatch (file needs formatting)
    FormatMismatch,
    /// Symbol extraction error
    Symbol(String),
    /// Diagnostic generation error
    Diagnostic(String),
    /// Generic operation error
    Other(String),
}

/// Exit codes of the CLI.
#[derive(Debug, Clone, Copy, PartialEq, Eq, Structural)]
pub enum ExitCode {
    /// Operation completed successfully
    Success,
    /// General error (I/O, encoding, decoding)
    Error,
    /// Validation or format check failed
    ValidationFailed,
}

/// The process exit status of a code.
pub open spec fn exit_status(c: ExitCode) -> i32 {
    match c {
        ExitCode::Success => 0,
        ExitCode::Error => 1,
        ExitCode::ValidationFailed => 2,
    }
}

impl ExitCode {
    /// The process exit status of this code.
    pub fn status(self) -> (n: i32)
        ensures
            n == exit_status(self),
    {
        match self {
            ExitCode::Success => 0,
            ExitCode::Error => 1,
            ExitCode::ValidationFailed => 2,
        }
    }
}

impl From<ExitCode> for i32 {
    fn from(code: ExitCode) -> (n: i32) {
        code.status()
    }
}

impl vstd::std_specs::convert::FromSpecImpl<ExitCode> for i32 {
    open spec fn obeys_from_spec() -> bool {
        true
    }

    open spec fn from_spec(code: ExitCode) -> i32 {
        exit_status(code)
    }
}

/// The exit code an error maps to: validation and format errors fail
/// validation, every other error is a general error.
pub open spec fn error_exit(e: &CliError) -> ExitCode {
    match e {
        CliError::Validation(_) => ExitCode::ValidationFailed,
        CliError::Format(_) => ExitCode::ValidationFailed,
        _ => ExitCode::Error,
    }
}

/// `std::io::Error`'s `Display` text; nothing is claimed of it.
#[verifier::external_body]
fn io_error_text(e: &std::io::Error) -> String {
    e.to_string()
}

/// `serde_json::Error`'s `Display` text; nothing is claimed of it.
#[verifier::external_body]
fn json_error_text(e: &serde_json::Error) -> String {
    e.to_string()
}

/// `serde_yaml::Error`'s `Display` text; nothing is claimed of it.
#[verifier::external_body]
fn yaml_error_text(e: &serde_yaml::Error) -> String {
    e.to_string()
}

/// The text an error displays, for the variants whose text is the library's
/// own (those that wrap an outside error show that error's text).
pub open spec fn cli_error_text(e: &CliError) -> Option<Seq<char>> {
    match e {
        CliError::Parse(m) => Some("Parse error: "@ + m@),
        CliError::Encode(m) => Some("Encode error: "@ + m@),
        CliError::Decode(m) => Some("Decode error: "@ + m@),
        CliError::Validation(m) => Some("Validation error: "@ + m@),
        CliError::Format(m) => Some("Format error: "@ + m@),
        CliError::FormatMismatch => Some("File needs formatting"@),
        CliError::Symbol(m) => Some("Symbol error: "@ + m@),
        CliError::Diagnostic(m) => Some("Diagnostic error: "@ + m@),
        CliError::Other(m) => Some(m@),
        _ => None,
    }
}

/// Whether `s` begins with `p`.
pub open spec fn starts_with(s: Seq<char>, p: Seq<char>) -> bool {
    p.len() <= s.len() && s.take(p.len() as int) == p
}

proof fn lemma_prefix_starts(p: Seq<char>)
    ensures
        forall|m: Seq<char>| #[trigger] starts_with(p + m, p),
{
    assert forall|m: Seq<char>| #[trigger] starts_with(p + m, p) by {
        assert((p + m).take(p.len() as int) =~= p);
    }
}

pub(crate) fn prefixed(prefix: &str, m: &str) -> (s: String)
    ensures
        s@ == prefix@ + m@,
{
    let mut s = String::from_str(prefix);
    s.append(m);
    s
}

impl CliError {
    /// Get the appropriate exit code for this error.
    pub fn exit_code(&self) -> (c: ExitCode)
        ensures
            c == error_exit(self),
    {
        match self {
            CliError::Validation(_) | CliError::Format(_) => ExitCode::ValidationFailed,
            _ => ExitCode::Error,
        }
    }

    /// Create a parse error from a message.
    pub fn parse(msg: &str) -> (e: Self)
        ensures
            e matches CliError::Parse(m) && m@ == msg@,
    {
        CliError::Parse(String::from_str(msg))
    }

    /// Create an encode error from a message.
    pub fn encode(msg: &str) -> (e: Self)
        ensures
            e matches CliError::Encode(m) && m@ == msg@,
    {
        CliError::Encode(String::from_str(msg))
    }

    /// Create a decode error from a message.
    pub fn decode(msg: &str) -> (e: Self)
        ensures
            e matches CliError::Decode(m) && m@ == msg@,
    {
        CliError::Decode(String::from_str(msg))
    }

    /// Create a validation error from a message.
    pub fn validation(msg: &str) -> (e: Self)
        ensures
            e matches CliError::Validation(m) && m@ == msg@,
    {
        CliError::Validation(String::from_str(msg))
    }

    /// Create a format error from a message.
    pub fn format(msg: &str) -> (e: Self)
        ensures
            e matches CliError::Format(m) && m@ == msg@,
    {
        CliError::Format(String::from_str(msg))
    }

    /// Create a symbol error from a message.
    pub fn symbol(msg: &str) -> (e: Self)
        ensures
            e matches CliError::Symbol(m) && m@ == msg@,
    {
        CliError::Symbol(String::from_str(msg))
    }

    /// Create a diagnostic error from a message.
    pub fn diagnostic(msg: &str) -> (e: Self)
        ensures
            e matches CliError::Diagnostic(m) && m@ == msg@,
    {
        CliError::Diagnostic(String::from_str(msg))
    }

    /// The text this error displays.
    pub fn display_text(&self) -> (s: String)
        ensures
            cli_error_text(self) matches Some(t) ==> s@ == t,
            self is Io ==> starts_with(s@, "I/O error: "@),
            self is Json ==> starts_with(s@, "JSON error: "@),
            self is Yaml ==> starts_with(s@, "YAML error: "@),
    {
        proof {
            lemma_prefix_starts("I/O error: "@);
            lemma_prefix_starts("JSON error: "@);
            lemma_prefix_starts("YAML error: "@);
        }
        match self {
            CliError::Io(e) => prefixed("I/O error: ", io_error_text(e).as_str()),
            CliError::Parse(m) => prefixed("Parse error: ", m.as_str()),
            CliError::Encode(m) => prefixed("Encode error: ", m.as_str()),
            CliError::Decode(m) => prefixed("Decode error: ", m.as_str()),
            CliError::Json(e) => prefixed("JSON error: ", json_error_text(e).as_str()),
            CliError::Yaml(e) => prefixed("YAML error: ", yaml_error_text(e).as_str()),
            CliError::Validation(m) => prefixed("Validation error: ", m.as_str()),
            CliError::Format(m) => prefixed("Format error: ", m.as_str()),
            CliError::FormatMismatch => String::from_str("File needs formatting"),
            CliError::Symbol(m) => prefixed("Symbol error: ", m.as_str()),
            CliError::Diagnostic(m) => prefixed("Diagnostic error: ", m.as_str()),
            CliError::Other(m) => m.clone(),
        }
    }
}

impl From<std::io::Error> for CliError {
    fn from(e: std::io::Error) -> (r: CliError) {
        CliError::Io(e)
    }
}

impl vstd::std_specs::convert::FromSpecImpl<std::io::Error> for CliError {
    open spec fn obeys_from_spec() -> bool {
        true
    }

    open spec fn from_spec(e: std::io::Error) -> CliError {
        CliError::Io(e)
    }
}

impl From<serde_json::Error> for CliError {
    fn from(e: serde_json::Error) -> (r: CliError) {
        CliError::Json(e)
    }
}

impl vstd::std_specs::convert::FromSpecImpl<serde_json::Error> for CliError {
    open spec fn obeys_from_spec() -> bool {
        true
    }

    open spec fn from_spec(e: serde_json::Error) -> CliError {
        CliError::Json(e)
    }
}

impl From<serde_yaml::Error> for CliError {
    fn from(e: serde_yaml::Error) -> (r: CliError) {
        CliError::Yaml(e)
    }
}

impl vstd::std_specs::convert::FromSpecImpl<serde_yaml::Error> for CliError {
    open spec fn obeys_from_spec() -> bool {
        true
    }

    open spec fn from_spec(e: serde_yaml::Error) -> CliError {
        CliError::Yaml(e)
    }
}

} // verus!
