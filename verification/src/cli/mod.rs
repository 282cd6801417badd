//! The command-line interface: its arguments, its errors and exit codes,
//! and the logic of its subcommands.

pub mod check;
pub mod convert;
pub mod decode;
pub mod diagnose;
pub mod error;
pub mod format;
pub mod graph;
pub mod symbols;

use vstd::prelude::*;

verus! {

/// The command line: verbosity and the subcommand.
#[derive(Debug)]
pub struct Cli {
    /// Increase verbosity (-v, -vv, -vvv)
    pub verbose: u8,
    /// The subcommand to run (none starts the language server)
    pub command: Option<Command>,
}

/// The subcommands.
#[derive(Debug)]
pub enum Command {
    /// Convert JSON or YAML to TOON
    Encode(EncodeArgs),
    /// Convert TOON to JSON or YAML
    Decode(DecodeArgs),
    /// Validate TOON syntax
    Check(CheckArgs),
    /// Format TOON files
    Format(FormatArgs),
    /// Extract symbols from TOON files
    Symbols(SymbolsArgs),
    /// Report diagnostics in machine-readable form
    Diagnose(DiagnoseArgs),
    /// Start the language server
    Lsp,
}

/// Arguments of `encode`.
#[derive(Debug)]
pub struct EncodeArgs {
    /// Input file (stdin when absent or `-`)
    pub input: Option<String>,
    /// Output file (stdout when absent)
    pub output: Option<String>,
    /// Input format
    pub input_format: InputFormat,
    /// Indentation width
    pub indent: usize,
    /// Array style
    pub array_style: ArrayStyle,
    /// Indent with tabs
    pub tabs: bool,
    /// Maximum line width for inline arrays
    pub max_width: usize,
}

/// Arguments of `decode`.
#[derive(Debug)]
pub struct DecodeArgs {
    /// Input file (stdin when absent or `-`)
    pub input: Option<String>,
    /// Output file (stdout when absent)
    pub output: Option<String>,
    /// Output format
    pub output_format: OutputFormat,
    /// Pretty-print the output
    pub pretty: bool,
}

/// Arguments of `check`.
#[derive(Debug)]
pub struct CheckArgs {
    /// Input files (stdin when none, or `-`)
    pub input: Vec<String>,
    /// Diagnostic output format
    pub format: DiagnosticFormat,
    /// Minimum severity reported
    pub severity: Severity,
}

/// Arguments of `format`.
#[derive(Debug)]
pub struct FormatArgs {
    /// Input file (stdin when absent or `-`)
    pub input: Option<String>,
    /// Output file (stdout when absent)
    pub output: Option<String>,
    /// Indentation width
    pub indent: usize,
    /// Indent with tabs
    pub tabs: bool,
    /// Array style
    pub array_style: ArrayStyle,
    /// Maximum line width
    pub max_width: usize,
    /// Only check whether the input is formatted
    pub check: bool,
}

/// Arguments of `symbols`.
#[derive(Debug)]
pub struct SymbolsArgs {
    /// Input file (stdin when absent or `-`)
    pub input: Option<String>,
    /// Output format
    pub format: SymbolsFormat,
    /// Show value types
    pub types: bool,
    /// Show positions
    pub positions: bool,
}

/// Arguments of `diagnose`.
#[derive(Debug)]
pub struct DiagnoseArgs {
    /// Input file (stdin when absent or `-`)
    pub input: Option<String>,
    /// Output format
    pub format: DiagnoseFormat,
    /// Include the source line of each diagnostic
    pub context: bool,
    /// Minimum severity reported
    pub severity: Severity,
}

/// Output formats of `check`.
#[derive(Debug, Clone, Copy, PartialEq, Eq, Structural)]
pub enum DiagnosticFormat {
    Text,
    Json,
    Github,
}

/// Output formats of `symbols`.
#[derive(Debug, Clone, Copy, PartialEq, Eq, Structural)]
pub enum SymbolsFormat {
    Tree,
    Json,
    Flat,
}

/// Output formats of `diagnose`.
#[derive(Debug, Clone, Copy, PartialEq, Eq, Structural)]
pub enum DiagnoseFormat {
    Json,
    Sarif,
}

/// Diagnostic severities, from the least to the most severe.
#[derive(Debug, Clone, Copy, PartialEq, Eq, PartialOrd, Ord, Structural)]
pub enum Severity {
    Hint,
    Info,
    Warning,
    Error,
}

/// The rank of a severity in the order `Hint < Info < Warning < Error`.
pub open spec fn severity_rank(s: Severity) -> nat {
    match s {
        Severity::Hint => 0,
        Severity::Info => 1,
        Severity::Warning => 2,
        Severity::Error => 3,
    }
}

impl Severity {
    /// The rank of this severity (`Hint` lowest).
    pub fn rank(self) -> (r: u8)
        ensures
            r == severity_rank(self),
    {
        match self {
            Severity::Hint => 0,
            Severity::Info => 1,
            Severity::Warning => 2,
            Severity::Error => 3,
        }
    }
}

/// Input formats of `encode`.
#[derive(Debug, Clone, Copy, PartialEq, Eq, Structural)]
pub enum InputFormat {
    Json,
    Yaml,
}

/// Output formats of `decode`.
#[derive(Debug, Clone, Copy, PartialEq, Eq, Structural)]
pub enum OutputFormat {
    Json,
    Yaml,
}

/// Array styles of the encoder and formatter.
#[derive(Debug, Clone, Copy, PartialEq, Eq, Structural)]
pub enum ArrayStyle {
    Auto,
    Expanded,
    Inline,
    Tabular,
}

/// Delimiters for tabular output.
#[derive(Debug, Clone, Copy, PartialEq, Eq, Structural)]
pub enum Delimiter {
    Comma,
    Tab,
    Pipe,
}

} // verus!
