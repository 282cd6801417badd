//! The `decode` subcommand's error handling.
use crate::cli::error::{error_exit, CliError, ExitCode};
use vstd::prelude::*;

verus! {

/// The exit code of `decode` for an error: a validation or decoding
/// failure fails validation, any other error maps as usual.
pub fn error_exit_code(error: &CliError) -> (c: ExitCode)
    ensures
        c == match error {
            CliError::Validation(_) | CliError::Decode(_) => ExitCode::ValidationFailed,
            _ => error_exit(error),
        },
{
    match error {
        CliError::Validation(_) | CliError::Decode(_) => ExitCode::ValidationFailed,
        _ => error.exit_code(),
    }
}

} // verus!
