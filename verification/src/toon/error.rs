//! Errors of the TOON encoder and decoder.
use crate::text::{decimal_digits, push_decimal};
use vstd::prelude::*;

verus! {

/// An error while encoding.
#[derive(Debug)]
pub enum EncodeError {
    /// A value that has no TOON representation (for example a non-finite float).
    Unsupported(String),
}

/// The model of an encode error.
pub open spec fn encode_error_text(e: &EncodeError) -> Seq<char> {
    match e {
        EncodeError::Unsupported(v) => "unsupported value: "@ + v@,
    }
}

impl EncodeError {
    /// The text this error displays.
    pub fn display_text(&self) -> (s: String)
        ensures
            s@ == encode_error_text(self),
    {
        match self {
            EncodeError::Unsupported(v) => {
                let mut s = String::from_str("unsupported value: ");
                s.append(v.as_str());
                s
            },
        }
    }
}

/// An error while decoding.
#[derive(Debug)]
pub enum DecodeError {
    /// A lexical or grammatical error at a specific source location.
    Syntax {
        /// Human-readable description of the problem.
        message: String,
        /// 1-based line number where the error was detected.
        line: u32,
        /// 1-based column number where the error was detected.
        col: u32,
    },
    /// A structurally invalid document that is lexically well-formed.
    Structure(String),
}

/// The text a decode error displays.
pub open spec fn decode_error_text(e: &DecodeError) -> Seq<char> {
    match e {
        DecodeError::Syntax { message, line, col } => "syntax error at line "@ + decimal_digits(*line as nat)
            + ", column "@ + decimal_digits(*col as nat) + ": "@ + message@,
        DecodeError::Structure(m) => "structure error: "@ + m@,
    }
}

impl DecodeError {
    /// Creates a structure error from a message.
    pub fn new(message: &str) -> (e: Self)
        ensures
            e matches DecodeError::Structure(m) && m@ == message@,
    {
        DecodeError::Structure(String::from_str(message))
    }

    /// The text this error displays.
    pub fn display_text(&self) -> (s: String)
        ensures
            s@ == decode_error_text(self),
    {
        match self {
            DecodeError::Syntax { message, line, col } => {
                let mut s = String::from_str("syntax error at line ");
                push_decimal(&mut s, *line as u64);
                s.append(", column ");
                push_decimal(&mut s, *col as u64);
                s.append(": ");
                s.append(message.as_str());
                s
            },
            DecodeError::Structure(m) => {
                let mut s = String::from_str("structure error: ");
                s.append(m.as_str());
                s
            },
        }
    }
}

} // verus!
