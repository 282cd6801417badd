//! The `format` subcommand's decisions: what a document with parse errors
//! reports, and its exit codes.
use crate::cli::error::{error_exit, CliError, ExitCode};
use crate::parser::ParseError;
use vstd::prelude::*;

verus! {

/// The messages of the errors' kinds, joined with `"; "`.
pub open spec fn joined_messages(errors: Seq<ParseError>) -> Seq<char>
    decreases errors.len(),
{
    if errors.len() == 0 {
        Seq::empty()
    } else if errors.len() == 1 {
        errors[0].kind.spec_message()
    } else {
        joined_messages(errors.drop_last()) + "; "@ + errors.last().kind.spec_message()
    }
}

/// The message reported for a document that does not parse: the kinds of
/// its errors, joined with `"; "`.
pub fn error_summary(errors: &Vec<ParseError>) -> (s: String)
    ensures
        s@ == joined_messages(errors@),
{
    let mut s = String::new();
    let mut i: usize = 0;
    while i < errors.len()
        invariant
            0 <= i <= errors.len(),
            s@ == joined_messages(errors@.take(i as int)),
        decreases errors.len() - i,
    {
        proof {
            assert(errors@.take(i + 1).drop_last() =~= errors@.take(i as int));
            assert(errors@.take(i + 1).last() == errors@[i as int]);
        }
        if i > 0 {
            s.append("; ");
        }
        s.append(errors[i].kind.message());
        i += 1;
    }
    proof {
        assert(errors@.take(errors.len() as int) =~= errors@);
    }
    s
}

/// The exit code of `format` for an error: a validation failure fails
/// validation, a file that needs formatting is a general error, any other
/// error maps as usual.
pub fn error_exit_code(error: &CliError) -> (c: ExitCode)
    ensures
        c == match error {
            CliError::Validation(_) => ExitCode::ValidationFailed,
            CliError::FormatMismatch => ExitCode::Error,
            _ => error_exit(error),
        },
{
    match error {
        CliError::Validation(_) => ExitCode::ValidationFailed,
        CliError::FormatMismatch => ExitCode::Error,
        _ => error.exit_code(),
    }
}

} // verus!
