//! TOON encoding of JSON-like values: scalar emission, configuration and
//! errors.

pub mod decode;
pub mod decoder;
pub mod emit;
pub mod encode;
pub mod error;
pub mod fold;
pub mod grammar;
pub mod scalars;
pub mod value;
pub mod verify;

pub use emit::Delimiter;
pub use error::{DecodeError, EncodeError};

use vstd::prelude::*;

verus! {

/// Options for encoding and decoding.
#[derive(Debug, Clone, Copy, PartialEq, Eq, Structural)]
pub struct ToonConfig {
    /// Number of spaces to use for each indentation level (default: 2).
    pub indent: usize,
    /// Delimiter used for arrays (default: comma).
    pub delimiter: Delimiter,
    /// Encode: collapse single-key object chains into dotted paths.
    pub fold_keys: bool,
    /// Encode: flatten nested objects into dotted keys.
    pub flatten_keys: bool,
    /// Decode: expand dotted keys back into nested objects.
    pub expand_paths: bool,
    /// Decode: keep the int/float distinction of the source literal.
    pub preserve_number_types: bool,
}

impl Default for ToonConfig {
    fn default() -> (c: Self)
        ensures
            c == (ToonConfig {
                indent: 2,
                delimiter: Delimiter::Comma,
                fold_keys: false,
                flatten_keys: false,
                expand_paths: false,
                preserve_number_types: false,
            }),
    {
        ToonConfig {
            indent: 2,
            delimiter: Delimiter::Comma,
            fold_keys: false,
            flatten_keys: false,
            expand_paths: false,
            preserve_number_types: false,
        }
    }
}

} // verus!
