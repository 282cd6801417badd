//! The `check` subcommand: syntax diagnostics and their renderings.
use crate::cli::error::{error_exit, CliError, ExitCode};
use crate::parser::error::ErrView;
use crate::parser::grammar::parse_with_errors_result;
use crate::parser::parse_with_errors;
use crate::text::{chars_of, decimal_digits, push_decimal};
use vstd::prelude::*;

verus! {

/// A diagnostic message with its location (1-based line and column).
#[derive(Debug, Clone)]
pub struct Diagnostic {
    pub file: String,
    pub line: usize,
    pub column: usize,
    pub message: String,
}

/// `file:line:column: error: message`.
pub open spec fn diagnostic_text(d: &Diagnostic) -> Seq<char> {
    d.file@ + ":"@ + decimal_digits(d.line as nat) + ":"@ + decimal_digits(d.column as nat) + ": error: "@
        + d.message@
}

/// A message character as a GitHub workflow command carries it.
pub open spec fn github_char(c: char) -> Seq<char> {
    if c == '%' {
        "%25"@
    } else if c == '\r' {
        "%0D"@
    } else if c == '\n' {
        "%0A"@
    } else {
        seq![c]
    }
}

/// A message with `%`, carriage returns and line feeds percent-encoded.
pub open spec fn github_encode(s: Seq<char>) -> Seq<char>
    decreases s.len(),
{
    if s.len() == 0 {
        Seq::empty()
    } else {
        github_encode(s.drop_last()) + github_char(s.last())
    }
}

/// `::error file=F,line=L,col=C::M` with the message encoded.
pub open spec fn github_text(d: &Diagnostic) -> Seq<char> {
    "::error file="@ + d.file@ + ",line="@ + decimal_digits(d.line as nat) + ",col="@
        + decimal_digits(d.column as nat) + "::"@ + github_encode(d.message@)
}

impl Diagnostic {
    /// Format as text (human-readable).
    pub fn format_text(&self) -> (s: String)
        ensures
            s@ == diagnostic_text(self),
    {
        let mut s = self.file.clone();
        s.append(":");
        push_decimal(&mut s, self.line as u64);
        s.append(":");
        push_decimal(&mut s, self.column as u64);
        s.append(": error: ");
        s.append(self.message.as_str());
        proof {
            assert(s@ =~= diagnostic_text(self));
        }
        s
    }

    /// Format as a GitHub Actions annotation; `%`, `\r` and `\n` in the
    /// message become `%25`, `%0D` and `%0A`.
    pub fn format_github(&self) -> (s: String)
        ensures
            s@ == github_text(self),
    {
        let mut s = String::from_str("::error file=");
        s.append(self.file.as_str());
        s.append(",line=");
        push_decimal(&mut s, self.line as u64);
        s.append(",col=");
        push_decimal(&mut s, self.column as u64);
        s.append("::");
        let ghost prefix = s@;
        let v = chars_of(self.message.as_str());
        let mut i: usize = 0;
        while i < v.len()
            invariant
                0 <= i <= v.len(),
                v@ == self.message@,
                s@ == prefix + github_encode(v@.take(i as int)),
            decreases v.len() - i,
        {
            let ghost before = s@;
            let c = v[i];
            if c == '%' {
                s.append("%25");
            } else if c == '\r' {
                s.append("%0D");
            } else if c == '\n' {
                s.append("%0A");
            } else {
                s.push(c);
            }
            proof {
                reveal_strlit("%25");
                reveal_strlit("%0D");
                reveal_strlit("%0A");
                assert(s@ =~= before + github_char(c));
                assert(v@.take(i + 1).drop_last() =~= v@.take(i as int));
            }
            i += 1;
        }
        proof {
            assert(v@.take(v.len() as int) =~= v@);
            assert(s@ =~= github_text(self));
        }
        s
    }
}

/// The diagnostics of one file.
pub struct CheckResult {
    pub file: String,
    pub diagnostics: Vec<Diagnostic>,
}

impl CheckResult {
    /// Whether the file has no diagnostic.
    pub fn is_valid(&self) -> (b: bool)
        ensures
            b == (self.diagnostics.len() == 0),
    {
        self.diagnostics.len() == 0
    }
}

/// A 0-based line or column counted from 1 (saturating at `usize::MAX`,
/// which only a 32-bit target can reach).
pub open spec fn one_based(n: u32) -> usize {
    if n + 1 > usize::MAX {
        usize::MAX
    } else {
        (n + 1) as usize
    }
}

/// `n + 1` as a `usize`.
pub fn to_one_based(n: u32) -> (r: usize)
    ensures
        r == one_based(n),
{
    (n as usize).saturating_add(1)
}

/// Whether `d` reports parse error `e` of `file`: at the error's start,
/// 1-based, with the error kind's message.
pub open spec fn reports(d: Diagnostic, e: ErrView, file: Seq<char>) -> bool {
    &&& d.file@ == file
    &&& d.line == one_based(e.span.start.line)
    &&& d.column == one_based(e.span.start.column)
    &&& d.message@ == e.kind.spec_message()
}

/// The syntax diagnostics of `content`: one for each error recovering
/// parsing reports, in order.
pub fn check_content(content: &str, file: &str) -> (ds: Vec<Diagnostic>)
    ensures
        ({
            let errors = parse_with_errors_result(content.len() as nat, content@).1;
            &&& ds.len() == errors.len()
            &&& forall|i: int| 0 <= i < ds.len() ==> reports(#[trigger] ds[i], errors[i], file@)
        }),
{
    let (_, errors) = parse_with_errors(content);
    let mut ds: Vec<Diagnostic> = Vec::new();
    let mut i: usize = 0;
    while i < errors.len()
        invariant
            0 <= i <= errors.len(),
            ds.len() == i,
            forall|k: int| 0 <= k < i ==> reports(#[trigger] ds[k], errors@[k]@, file@),
        decreases errors.len() - i,
    {
        let e = &errors[i];
        ds.push(Diagnostic {
            file: String::from_str(file),
            line: to_one_based(e.span.start.line),
            column: to_one_based(e.span.start.column),
            message: String::from_str(e.kind.message()),
        });
        i += 1;
    }
    proof {
        let errs = parse_with_errors_result(content.len() as nat, content@).1;
        assert forall|k: int| 0 <= k < ds.len() implies reports(#[trigger] ds[k], errs[k], file@) by {
            assert(errs[k] == errors@[k]@);
        }
    }
    ds
}

/// The exit code of `check` for an error: a validation failure fails
/// validation, any other error maps as usual.
pub fn error_exit_code(error: &CliError) -> (c: ExitCode)
    ensures
        c == match error {
            CliError::Validation(_) => ExitCode::ValidationFailed,
            _ => error_exit(error),
        },
{
    match error {
        CliError::Validation(_) => ExitCode::ValidationFailed,
        _ => error.exit_code(),
    }
}

/// The number of diagnostics over all checked files.
pub open spec fn total_diagnostics(results: Seq<CheckResult>) -> nat
    decreases results.len(),
{
    if results.len() == 0 {
        0
    } else {
        total_diagnostics(results.drop_last()) + results.last().diagnostics@.len()
    }
}

/// The outcome of `check` over its files: success when no file has a
/// diagnostic, else a validation error counting them
/// (`"N error(s) found"`).
pub fn check_outcome(results: &Vec<CheckResult>) -> (r: Result<(), CliError>)
    requires
        total_diagnostics(results@) <= u64::MAX,
    ensures
        r is Ok <==> total_diagnostics(results@) == 0,
        r matches Err(e) ==> e matches CliError::Validation(m) && m@ == decimal_digits(
            total_diagnostics(results@),
        ) + " error(s) found"@,
{
    let mut total: u64 = 0;
    let mut i: usize = 0;
    while i < results.len()
        invariant
            0 <= i <= results.len(),
            total == total_diagnostics(results@.take(i as int)),
            total_diagnostics(results@) <= u64::MAX,
        decreases results.len() - i,
    {
        proof {
            assert(results@.take(i + 1).drop_last() =~= results@.take(i as int));
            lemma_total_prefix(results@, i + 1);
        }
        total = total + results[i].diagnostics.len() as u64;
        i += 1;
    }
    proof {
        assert(results@.take(results.len() as int) =~= results@);
    }
    if total == 0 {
        Ok(())
    } else {
        let mut m = String::new();
        push_decimal(&mut m, total);
        m.append(" error(s) found");
        Err(CliError::Validation(m))
    }
}

proof fn lemma_total_prefix(results: Seq<CheckResult>, n: int)
    requires
        0 <= n <= results.len(),
    ensures
        total_diagnostics(results.take(n)) <= total_diagnostics(results),
    decreases results.len() - n,
{
    if n < results.len() {
        lemma_total_prefix(results, n + 1);
        assert(results.take(n + 1).drop_last() =~= results.take(n));
    } else {
        assert(results.take(n) =~= results);
    }
}

} // verus!
