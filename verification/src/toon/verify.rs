//! Round-trip checking: whether a TOON text is exactly the canonical
//! encoding of an expected value.
use super::encode::{encode_into, encodes};
use super::error::{encode_error_text, DecodeError};
use super::value::{json_view, JsonValue};
use super::ToonConfig;
use crate::text::chars_of;
use vstd::prelude::*;

verus! {

/// `String::clear`: the string becomes empty (its capacity is kept).
#[verifier::external_body]
fn clear_string(s: &mut String)
    ensures
        final(s)@ == Seq::<char>::empty(),
{
    s.clear();
}

fn same_text(a: &str, b: &str) -> (r: bool)
    ensures
        r == (a@ == b@),
{
    let x = chars_of(a);
    let y = chars_of(b);
    if x.len() != y.len() {
        return false;
    }
    proof {
        assert(x@.subrange(0, x.len() as int) =~= x@);
    }
    crate::text::range_equals(&x, 0, x.len(), &y)
}

/// Checks that `text` is the canonical encoding of `expected` under
/// `config`, writing that encoding into `scratch` (cleared first): `Ok`
/// exactly when the two texts are equal.
pub fn verify_round_trip_with_scratch(
    text: &str,
    expected: &JsonValue,
    config: &ToonConfig,
    scratch: &mut String,
) -> (r: Result<(), DecodeError>)
    ensures
        encodes(final(scratch)@, json_view(*expected), *config),
        !config.flatten_keys && !config.fold_keys ==> final(scratch)@ == super::encode::document_text(
            *expected,
            config.indent,
            super::emit::delimiter_char(config.delimiter),
        ),
        r is Ok <==> text@ == final(scratch)@,
        r matches Err(e) ==> (e matches DecodeError::Structure(m) && m@
            == "TOON text does not match canonical encoding of expected value"@),
{
    clear_string(scratch);
    match encode_into(expected, config, scratch) {
        Ok(()) => {},
        Err(e) => {
            let mut m = String::from_str("encode failed during verify: ");
            m.append(e.display_text().as_str());
            return Err(DecodeError::Structure(m));
        },
    }
    proof {
        let t = choose|t: Seq<char>| scratch@ == Seq::<char>::empty() + t && encodes(t, json_view(*expected), *config);
        assert(scratch@ =~= t);
        if !config.flatten_keys && !config.fold_keys {
            assert(scratch@ =~= super::encode::document_text(
                *expected,
                config.indent,
                super::emit::delimiter_char(config.delimiter),
            ));
        }
    }
    if same_text(text, scratch.as_str()) {
        Ok(())
    } else {
        Err(DecodeError::new("TOON text does not match canonical encoding of expected value"))
    }
}

/// Checks that `text` is the canonical encoding of `expected` under
/// `config`: `Ok` exactly when it is.
pub fn verify_round_trip(text: &str, expected: &JsonValue, config: &ToonConfig) -> (r: Result<(), DecodeError>)
    ensures
        r is Ok ==> encodes(text@, json_view(*expected), *config),
        !config.flatten_keys && !config.fold_keys ==> (r is Ok <==> text@ == super::encode::document_text(
            *expected,
            config.indent,
            super::emit::delimiter_char(config.delimiter),
        )),
        r matches Err(e) ==> (e matches DecodeError::Structure(m) && m@
            == "TOON text does not match canonical encoding of expected value"@),
{
    let mut scratch = String::new();
    let r = verify_round_trip_with_scratch(text, expected, config, &mut scratch);
    r
}

} // verus!
