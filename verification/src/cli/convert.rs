//! Conversion between TOON text and JSON or YAML text through the
//! `toon-format`, `serde_json` and `serde_yaml` crates, with their failures
//! turned into the command-line errors.
//!
//! A parsed `serde_json::Value` is opaque to the verifier, so values travel
//! between the steps as text: every outcome below is a function of the text
//! it starts from, and each is named after the outside calls that give it.
use crate::cli::error::{prefixed, CliError};
use crate::cli::{InputFormat, OutputFormat};
use vstd::prelude::*;

verus! {

/// What a conversion step reports when an outside call refuses its input.
#[derive(Debug)]
pub enum ConvertFailure {
    /// `serde_json` refused to read or write the value
    Json(serde_json::Error),
    /// `serde_yaml` refused to read or write the value
    Yaml(serde_yaml::Error),
    /// `toon-format` refused to encode or decode, with its message
    Toon(String),
}

/// Whether `serde_json::from_str` reads the text `t` as a JSON value.
pub uninterp spec fn json_text_parses(t: Seq<char>) -> bool;

/// Whether `serde_yaml::from_str` reads the text `t` as a JSON value.
pub uninterp spec fn yaml_text_parses(t: Seq<char>) -> bool;

/// How `toon_format::encode_default` answers the value that
/// `serde_json::from_str` reads from `t`: the TOON text, or the text its
/// error displays.
pub uninterp spec fn toon_of_json_text(t: Seq<char>) -> Result<Seq<char>, Seq<char>>;

/// How `toon_format::encode_default` answers the value that
/// `serde_yaml::from_str` reads from `t`: the TOON text, or the text its
/// error displays.
pub uninterp spec fn toon_of_yaml_text(t: Seq<char>) -> Result<Seq<char>, Seq<char>>;

/// How `toon_format::decode_default` answers the text `t` when asked for a
/// JSON value: `None` when it decodes it, else the text its error displays.
pub uninterp spec fn toon_decode_failure(t: Seq<char>) -> Option<Seq<char>>;

/// The compact JSON text (`serde_json::to_string`) of the value that
/// `toon_format::decode_default` decodes from `t`, when it writes one.
pub uninterp spec fn json_of_toon(t: Seq<char>) -> Option<Seq<char>>;

/// The pretty JSON text (`serde_json::to_string_pretty`) of the value that
/// `toon_format::decode_default` decodes from `t`, when it writes one.
pub uninterp spec fn pretty_json_of_toon(t: Seq<char>) -> Option<Seq<char>>;

/// The YAML text (`serde_yaml::to_string`) of the value that
/// `toon_format::decode_default` decodes from `t`, when it writes one.
pub uninterp spec fn yaml_of_toon(t: Seq<char>) -> Option<Seq<char>>;

/// `serde_json::from_str` into a `serde_json::Value`, then
/// `toon_format::encode_default` on it. Claimed: both are functions of the
/// text alone; whether the text reads is `json_text_parses`, and the
/// encoder's answer is `toon_of_json_text`.
#[verifier::external_body]
fn toon_from_json_text(text: &str) -> (r: Result<String, ConvertFailure>)
    ensures
        match r {
            Ok(s) => json_text_parses(text@) && toon_of_json_text(text@) == Ok::<Seq<char>, Seq<char>>(s@),
            Err(ConvertFailure::Json(_)) => !json_text_parses(text@),
            Err(ConvertFailure::Toon(m)) => json_text_parses(text@) && toon_of_json_text(text@) == Err::<
                Seq<char>,
                Seq<char>,
            >(m@),
            Err(ConvertFailure::Yaml(_)) => false,
        },
{
    match serde_json::from_str::<serde_json::Value>(text) {
        Err(e) => Err(ConvertFailure::Json(e)),
        Ok(v) => toon_format::encode_default(&v).map_err(|e| ConvertFailure::Toon(e.to_string())),
    }
}

/// `serde_yaml::from_str` into a `serde_json::Value`, then
/// `toon_format::encode_default` on it. Claimed: both are functions of the
/// text alone; whether the text reads is `yaml_text_parses`, and the
/// encoder's answer is `toon_of_yaml_text`.
#[verifier::external_body]
fn toon_from_yaml_text(text: &str) -> (r: Result<String, ConvertFailure>)
    ensures
        match r {
            Ok(s) => yaml_text_parses(text@) && toon_of_yaml_text(text@) == Ok::<Seq<char>, Seq<char>>(s@),
            Err(ConvertFailure::Yaml(_)) => !yaml_text_parses(text@),
            Err(ConvertFailure::Toon(m)) => yaml_text_parses(text@) && toon_of_yaml_text(text@) == Err::<
                Seq<char>,
                Seq<char>,
            >(m@),
            Err(ConvertFailure::Json(_)) => false,
        },
{
    match serde_yaml::from_str::<serde_json::Value>(text) {
        Err(e) => Err(ConvertFailure::Yaml(e)),
        Ok(v) => toon_format::encode_default(&v).map_err(|e| ConvertFailure::Toon(e.to_string())),
    }
}

/// `toon_format::decode_default` into a `serde_json::Value`, then
/// `serde_json::to_string` on it. Claimed: both are functions of the text
/// alone; the decoder's refusal is `toon_decode_failure`, the JSON written
/// is `json_of_toon`.
#[verifier::external_body]
fn json_from_toon(toon: &str) -> (r: Result<String, ConvertFailure>)
    ensures
        match r {
            Ok(s) => toon_decode_failure(toon@) is None && json_of_toon(toon@) == Some(s@),
            Err(ConvertFailure::Toon(m)) => toon_decode_failure(toon@) == Some(m@),
            Err(ConvertFailure::Json(_)) => toon_decode_failure(toon@) is None && json_of_toon(toon@) is None,
            Err(ConvertFailure::Yaml(_)) => false,
        },
{
    match toon_format::decode_default::<serde_json::Value>(toon) {
        Err(e) => Err(ConvertFailure::Toon(e.to_string())),
        Ok(v) => serde_json::to_string(&v).map_err(ConvertFailure::Json),
    }
}

/// `toon_format::decode_default` into a `serde_json::Value`, then
/// `serde_json::to_string_pretty` on it; as `json_from_toon`, with the
/// pretty text named `pretty_json_of_toon`.
#[verifier::external_body]
fn pretty_json_from_toon(toon: &str) -> (r: Result<String, ConvertFailure>)
    ensures
        match r {
            Ok(s) => toon_decode_failure(toon@) is None && pretty_json_of_toon(toon@) == Some(s@),
            Err(ConvertFailure::Toon(m)) => toon_decode_failure(toon@) == Some(m@),
            Err(ConvertFailure::Json(_)) => toon_decode_failure(toon@) is None && pretty_json_of_toon(toon@) is None,
            Err(ConvertFailure::Yaml(_)) => false,
        },
{
    match toon_format::decode_default::<serde_json::Value>(toon) {
        Err(e) => Err(ConvertFailure::Toon(e.to_string())),
        Ok(v) => serde_json::to_string_pretty(&v).map_err(ConvertFailure::Json),
    }
}

/// `toon_format::decode_default` into a `serde_json::Value`, then
/// `serde_yaml::to_string` on it; as `json_from_toon`, with the YAML text
/// named `yaml_of_toon`.
#[verifier::external_body]
fn yaml_from_toon(toon: &str) -> (r: Result<String, ConvertFailure>)
    ensures
        match r {
            Ok(s) => toon_decode_failure(toon@) is None && yaml_of_toon(toon@) == Some(s@),
            Err(ConvertFailure::Toon(m)) => toon_decode_failure(toon@) == Some(m@),
            Err(ConvertFailure::Yaml(_)) => toon_decode_failure(toon@) is None && yaml_of_toon(toon@) is None,
            Err(ConvertFailure::Json(_)) => false,
        },
{
    match toon_format::decode_default::<serde_json::Value>(toon) {
        Err(e) => Err(ConvertFailure::Toon(e.to_string())),
        Ok(v) => serde_yaml::to_string(&v).map_err(ConvertFailure::Yaml),
    }
}

/// The message of a failed decoding whose error displays `m`.
pub open spec fn decode_failure_text(m: Seq<char>) -> Seq<char> {
    "Failed to decode TOON to JSON: "@ + m
}

/// The message of a failed encoding whose error displays `m`.
pub open spec fn encode_failure_text(m: Seq<char>) -> Seq<char> {
    "Failed to encode JSON to TOON: "@ + m
}

/// The error `decode_toon` reports when the decoder's error displays
/// `message`.
pub fn decode_failure(message: &str) -> (e: CliError)
    ensures
        e matches CliError::Decode(m) && m@ == decode_failure_text(message@),
{
    CliError::Decode(prefixed("Failed to decode TOON to JSON: ", message))
}

/// The error `encode_json` reports when the encoder's error displays
/// `message`.
pub fn encode_failure(message: &str) -> (e: CliError)
    ensures
        e matches CliError::Encode(m) && m@ == encode_failure_text(message@),
{
    CliError::Encode(prefixed("Failed to encode JSON to TOON: ", message))
}

/// The error an encoding step's failure becomes: a reader's error as it is,
/// the encoder's as an encode error with its message.
pub fn encode_error(f: ConvertFailure) -> (e: CliError)
    ensures
        match f {
            ConvertFailure::Json(x) => e == CliError::Json(x),
            ConvertFailure::Yaml(x) => e == CliError::Yaml(x),
            ConvertFailure::Toon(m) => e matches CliError::Encode(t) && t@ == encode_failure_text(m@),
        },
{
    match f {
        ConvertFailure::Json(x) => CliError::Json(x),
        ConvertFailure::Yaml(x) => CliError::Yaml(x),
        ConvertFailure::Toon(m) => encode_failure(m.as_str()),
    }
}

/// The error a decoding step's failure becomes: the decoder's as a decode
/// error with its message, a writer's error as it is.
pub fn decode_error(f: ConvertFailure) -> (e: CliError)
    ensures
        match f {
            ConvertFailure::Json(x) => e == CliError::Json(x),
            ConvertFailure::Yaml(x) => e == CliError::Yaml(x),
            ConvertFailure::Toon(m) => e matches CliError::Decode(t) && t@ == decode_failure_text(m@),
        },
{
    match f {
        ConvertFailure::Json(x) => CliError::Json(x),
        ConvertFailure::Yaml(x) => CliError::Yaml(x),
        ConvertFailure::Toon(m) => decode_failure(m.as_str()),
    }
}

/// Encode JSON text as TOON. It succeeds exactly when the text reads as JSON
/// and the encoder accepts the value, with the encoder's text; a text that
/// does not read is a JSON error, an encoder failure an encode error with
/// its message.
pub fn encode_json(json: &str) -> (r: Result<String, CliError>)
    ensures
        r is Ok <==> json_text_parses(json@) && toon_of_json_text(json@) is Ok,
        match r {
            Ok(s) => toon_of_json_text(json@) == Ok::<Seq<char>, Seq<char>>(s@),
            Err(e) => if !json_text_parses(json@) {
                e is Json
            } else {
                e matches CliError::Encode(m) && m@ == encode_failure_text(toon_of_json_text(json@)->Err_0)
            },
        },
{
    match toon_from_json_text(json) {
        Ok(s) => Ok(s),
        Err(f) => Err(encode_error(f)),
    }
}

/// Encode YAML text as TOON, as `encode_json` does JSON text (a text that
/// does not read is a YAML error).
pub fn encode_yaml(yaml: &str) -> (r: Result<String, CliError>)
    ensures
        r is Ok <==> yaml_text_parses(yaml@) && toon_of_yaml_text(yaml@) is Ok,
        match r {
            Ok(s) => toon_of_yaml_text(yaml@) == Ok::<Seq<char>, Seq<char>>(s@),
            Err(e) => if !yaml_text_parses(yaml@) {
                e is Yaml
            } else {
                e matches CliError::Encode(m) && m@ == encode_failure_text(toon_of_yaml_text(yaml@)->Err_0)
            },
        },
{
    match toon_from_yaml_text(yaml) {
        Ok(s) => Ok(s),
        Err(f) => Err(encode_error(f)),
    }
}

/// The TOON text of an `encode` input read in `format`.
pub fn encode_input_text(text: &str, format: InputFormat) -> (r: Result<String, CliError>)
    ensures
        match format {
            InputFormat::Json => r is Ok <==> json_text_parses(text@) && toon_of_json_text(text@) is Ok,
            InputFormat::Yaml => r is Ok <==> yaml_text_parses(text@) && toon_of_yaml_text(text@) is Ok,
        },
        match (format, r) {
            (InputFormat::Json, Ok(s)) => toon_of_json_text(text@) == Ok::<Seq<char>, Seq<char>>(s@),
            (InputFormat::Yaml, Ok(s)) => toon_of_yaml_text(text@) == Ok::<Seq<char>, Seq<char>>(s@),
            (InputFormat::Json, Err(e)) => if !json_text_parses(text@) {
                e is Json
            } else {
                e matches CliError::Encode(m) && m@ == encode_failure_text(toon_of_json_text(text@)->Err_0)
            },
            (InputFormat::Yaml, Err(e)) => if !yaml_text_parses(text@) {
                e is Yaml
            } else {
                e matches CliError::Encode(m) && m@ == encode_failure_text(toon_of_yaml_text(text@)->Err_0)
            },
        },
{
    match format {
        InputFormat::Json => encode_json(text),
        InputFormat::Yaml => encode_yaml(text),
    }
}

/// Decode TOON text to compact JSON text. It succeeds exactly when the
/// decoder accepts the text and the value is written, with that JSON; a
/// refused text is a decode error carrying the decoder's message.
pub fn decode_toon(toon: &str) -> (r: Result<String, CliError>)
    ensures
        r is Ok <==> toon_decode_failure(toon@) is None && json_of_toon(toon@) is Some,
        match r {
            Ok(s) => json_of_toon(toon@) == Some(s@),
            Err(e) => match toon_decode_failure(toon@) {
                Some(m) => e matches CliError::Decode(t) && t@ == decode_failure_text(m),
                None => e is Json,
            },
        },
{
    match json_from_toon(toon) {
        Ok(s) => Ok(s),
        Err(f) => Err(decode_error(f)),
    }
}

/// The text the `decode` command writes for TOON text `toon`: JSON
/// (compact, or pretty when asked) or YAML. A text the decoder refuses is a
/// validation error whose message is the decode error's text; a value the
/// writer refuses is its JSON or YAML error.
pub fn decode_output_text(toon: &str, format: OutputFormat, pretty: bool) -> (r: Result<String, CliError>)
    ensures
        ({
            let written = match format {
                OutputFormat::Json => if pretty {
                    pretty_json_of_toon(toon@)
                } else {
                    json_of_toon(toon@)
                },
                OutputFormat::Yaml => yaml_of_toon(toon@),
            };
            match r {
                Ok(s) => toon_decode_failure(toon@) is None && written == Some(s@),
                Err(e) => match toon_decode_failure(toon@) {
                    Some(m) => e matches CliError::Validation(t)
                        && t@ == "Decode error: "@ + decode_failure_text(m),
                    None => written is None && (if format is Json { e is Json } else { e is Yaml }),
                },
            }
        }),
{
    let step = match format {
        OutputFormat::Json => if pretty {
            pretty_json_from_toon(toon)
        } else {
            json_from_toon(toon)
        },
        OutputFormat::Yaml => yaml_from_toon(toon),
    };
    match step {
        Ok(s) => Ok(s),
        Err(ConvertFailure::Toon(m)) => {
            let failure = decode_failure(m.as_str());
            Err(CliError::Validation(failure.display_text()))
        },
        Err(f) => Err(decode_error(f)),
    }
}

/// The extension `std::path::Path::extension` finds in the path `p`.
pub uninterp spec fn path_extension_of(p: Seq<char>) -> Option<Seq<char>>;

/// `std::path::Path::extension` of a path given as text, as text (the
/// extension of a `&str` path is always valid UTF-8). Claimed: it is a
/// function of the path alone, named `path_extension_of`.
#[verifier::external_body]
fn path_extension(path: &str) -> (r: Option<String>)
    ensures
        match r {
            Some(e) => path_extension_of(path@) == Some(e@),
            None => path_extension_of(path@) is None,
        },
{
    std::path::Path::new(path).extension().and_then(|e| e.to_str()).map(|e| e.to_string())
}

/// What `str::to_lowercase` makes of `s`.
pub uninterp spec fn lowercase_of(s: Seq<char>) -> Seq<char>;

/// `str::to_lowercase`. Claimed: it is a function of the text alone, named
/// `lowercase_of`.
#[verifier::external_body]
fn lowercase(s: &str) -> (r: String)
    ensures
        r@ == lowercase_of(s@),
{
    s.to_lowercase()
}

/// The input format `encode` reads: a path whose extension is `json`, or
/// `yaml` or `yml`, in any case, is read in that format; standard input
/// (no path, or `-`) and any other path are read in the format asked for.
pub open spec fn detected_format(input: Option<Seq<char>>, requested: InputFormat) -> InputFormat {
    match input {
        Some(p) => if p == "-"@ {
            requested
        } else {
            match path_extension_of(p) {
                Some(e) => {
                    let l = lowercase_of(e);
                    if l == "json"@ {
                        InputFormat::Json
                    } else if l == "yaml"@ || l == "yml"@ {
                        InputFormat::Yaml
                    } else {
                        requested
                    }
                },
                None => requested,
            }
        },
        None => requested,
    }
}

/// The input format of `encode` for its input path (see `detected_format`).
pub fn detect_input_format(input: &Option<String>, requested: InputFormat) -> (f: InputFormat)
    ensures
        f == detected_format(
            match input {
                Some(p) => Some(p@),
                None => None,
            },
            requested,
        ),
{
    match input {
        Some(p) => {
            if *p == String::from_str("-") {
                return requested;
            }
            match path_extension(p.as_str()) {
                Some(e) => {
                    let l = lowercase(e.as_str());
                    if l == String::from_str("json") {
                        InputFormat::Json
                    } else if l == String::from_str("yaml") || l == String::from_str("yml") {
                        InputFormat::Yaml
                    } else {
                        requested
                    }
                },
                None => requested,
            }
        },
        None => requested,
    }
}

} // verus!
