//! Scalar emission for the TOON encoder: when a string must be quoted, and
//! how it is escaped.
use crate::parser::numbers::{float_syntax, is_float_syntax};
use super::value::JsonValue;
use crate::text::{chars_of, decimal_digits, push_decimal};
use vstd::prelude::*;

verus! {

/// The delimiter that separates inline array values and tabular fields.
#[derive(Debug, Clone, Copy, PartialEq, Eq, Structural)]
pub enum Delimiter {
    /// Comma-separated (the default).
    Comma,
    /// Tab-separated.
    Tab,
    /// Pipe-separated.
    Pipe,
}

/// The character of a delimiter.
pub open spec fn delimiter_char(d: Delimiter) -> char {
    match d {
        Delimiter::Comma => ',',
        Delimiter::Tab => '\t',
        Delimiter::Pipe => '|',
    }
}

impl Delimiter {
    /// The single character that separates fields under this delimiter.
    pub fn as_char(self) -> (c: char)
        ensures
            c == delimiter_char(self),
    {
        match self {
            Delimiter::Comma => ',',
            Delimiter::Tab => '\t',
            Delimiter::Pipe => '|',
        }
    }
}

/// Whether `c` forces quoting wherever it occurs in a string.
pub open spec fn is_quote_forcing(c: char, delim: char) -> bool {
    c == '"' || c == '\\' || (c as u32) < 0x20 || c == delim
}

/// Whether `s` holds a colon followed by a space.
pub open spec fn has_colon_space(s: Seq<char>) -> bool {
    exists|i: int| 0 <= i && i + 1 < s.len() && #[trigger] s[i] == ':' && s[i + 1] == ' '
}

/// Whether a string value must be quoted to survive a round trip: when it is
/// empty, has a leading or trailing space, reads as a keyword or a number,
/// starts with `-`, `[`, `{` or `#`, or holds a quote, a backslash, a
/// control character or the delimiter, or a colon followed by a space.
pub open spec fn needs_quotes_spec(s: Seq<char>, delim: char) -> bool {
    ||| s.len() == 0
    ||| s[0] == ' '
    ||| s.last() == ' '
    ||| s == "true"@
    ||| s == "false"@
    ||| s == "null"@
    ||| float_syntax(s)
    ||| s[0] == '-' || s[0] == '[' || s[0] == '{' || s[0] == '#'
    ||| exists|i: int| 0 <= i < s.len() && #[trigger] is_quote_forcing(s[i], delim)
    ||| has_colon_space(s)
}

/// Whether `s` is a number in TOON's sense: a decimal literal std's `f64`
/// parser accepts, infinities and NaN excepted.
fn is_toon_number(s: &Vec<char>) -> (b: bool)
    ensures
        b == float_syntax(s@),
{
    is_float_syntax(s)
}

/// Whether `v` equals the literal `w`.
fn chars_equal(v: &Vec<char>, w: &str) -> (b: bool)
    ensures
        b == (v@ == w@),
{
    let wv = chars_of(w);
    proof {
        assert(v@.subrange(0, v.len() as int) =~= v@);
    }
    crate::text::range_equals(v, 0, v.len(), &wv)
}

/// Whether a string value must be quoted.
pub fn needs_quotes(s: &str, delim: Delimiter) -> (b: bool)
    ensures
        b == needs_quotes_spec(s@, delimiter_char(delim)),
{
    let v = chars_of(s);
    if v.len() == 0 {
        return true;
    }
    if v[0] == ' ' || v[v.len() - 1] == ' ' {
        return true;
    }
    proof {
        assert(v@.subrange(0, v.len() as int) =~= v@);
    }
    if chars_equal(&v, "true") || chars_equal(&v, "false") || chars_equal(&v, "null") {
        return true;
    }
    if is_toon_number(&v) {
        return true;
    }
    if v[0] == '-' || v[0] == '[' || v[0] == '{' || v[0] == '#' {
        return true;
    }
    let delim_char = delim.as_char();
    let mut i: usize = 0;
    while i < v.len()
        invariant
            0 <= i <= v.len(),
            v@ == s@,
            delim_char == delimiter_char(delim),
            forall|k: int| 0 <= k < i ==> !is_quote_forcing(#[trigger] v@[k], delim_char),
            forall|k: int| 0 <= k < i && k + 1 < v@.len() ==> !(#[trigger] v@[k] == ':' && v@[k + 1] == ' '),
        decreases v.len() - i,
    {
        let ch = v[i];
        if ch == '"' || ch == '\\' || (ch as u32) < 0x20 {
            proof {
                assert(is_quote_forcing(v@[i as int], delim_char));
            }
            return true;
        }
        if ch == delim_char {
            proof {
                assert(is_quote_forcing(v@[i as int], delim_char));
            }
            return true;
        }
        if ch == ':' && i + 1 < v.len() && v[i + 1] == ' ' {
            proof {
                assert(has_colon_space(v@));
            }
            return true;
        }
        i += 1;
    }
    proof {
        reveal_strlit("true");
        reveal_strlit("false");
        reveal_strlit("null");
    }
    false
}

/// The lower-case hexadecimal digit for a value below sixteen.
pub open spec fn hex_lower(d: nat) -> char {
    if d < 10 {
        crate::text::digit_char(d)
    } else if d == 10 {
        'a'
    } else if d == 11 {
        'b'
    } else if d == 12 {
        'c'
    } else if d == 13 {
        'd'
    } else if d == 14 {
        'e'
    } else {
        'f'
    }
}

/// The escape of one character inside a quoted string.
pub open spec fn escape_char(c: char) -> Seq<char> {
    if c == '\\' {
        seq!['\\', '\\']
    } else if c == '"' {
        seq!['\\', '"']
    } else if c == '\n' {
        seq!['\\', 'n']
    } else if c == '\r' {
        seq!['\\', 'r']
    } else if c == '\t' {
        seq!['\\', 't']
    } else if (c as u32) < 0x20 {
        seq!['\\', 'u', '0', '0', hex_lower((c as u32 / 16) as nat), hex_lower((c as u32 % 16) as nat)]
    } else {
        seq![c]
    }
}

/// The escapes of every character of `s`, in order.
pub open spec fn escape_all(s: Seq<char>) -> Seq<char>
    decreases s.len(),
{
    if s.len() == 0 {
        Seq::empty()
    } else {
        escape_all(s.drop_last()) + escape_char(s.last())
    }
}

fn hex_lower_char(d: u32) -> (c: char)
    requires
        d < 16,
    ensures
        c == hex_lower(d as nat),
{
    if d < 10 {
        match d {
            0 => '0',
            1 => '1',
            2 => '2',
            3 => '3',
            4 => '4',
            5 => '5',
            6 => '6',
            7 => '7',
            8 => '8',
            _ => '9',
        }
    } else if d == 10 {
        'a'
    } else if d == 11 {
        'b'
    } else if d == 12 {
        'c'
    } else if d == 13 {
        'd'
    } else if d == 14 {
        'e'
    } else {
        'f'
    }
}

/// Append `s` to `out` with the characters that cannot stand in a quoted
/// string escaped: backslash, quote, newline, carriage return and tab by
/// their short escapes, other control characters as `\u00XX`.
pub fn escape_into(out: &mut String, s: &str)
    ensures
        final(out)@ == old(out)@ + escape_all(s@),
{
    let v = chars_of(s);
    let mut i: usize = 0;
    while i < v.len()
        invariant
            0 <= i <= v.len(),
            v@ == s@,
            out@ == old(out)@ + escape_all(v@.take(i as int)),
        decreases v.len() - i,
    {
        let ghost before = out@;
        let c = v[i];
        if c == '\\' {
            out.push('\\');
            out.push('\\');
        } else if c == '"' {
            out.push('\\');
            out.push('"');
        } else if c == '\n' {
            out.push('\\');
            out.push('n');
        } else if c == '\r' {
            out.push('\\');
            out.push('r');
        } else if c == '\t' {
            out.push('\\');
            out.push('t');
        } else if (c as u32) < 0x20 {
            out.push('\\');
            out.push('u');
            out.push('0');
            out.push('0');
            out.push(hex_lower_char((c as u32) / 16));
            out.push(hex_lower_char((c as u32) % 16));
        } else {
            out.push(c);
        }
        proof {
            assert(out@ =~= before + escape_char(c));
            assert(v@.take(i + 1).drop_last() =~= v@.take(i as int));
        }
        i += 1;
    }
    proof {
        assert(v@.take(v.len() as int) =~= v@);
    }
}

/// The text of a string scalar: quoted and escaped when it must be, else
/// as it is.
pub open spec fn scalar_string_text(s: Seq<char>, delim: char) -> Seq<char> {
    if needs_quotes_spec(s, delim) {
        seq!['"'] + escape_all(s) + seq!['"']
    } else {
        s
    }
}

/// Append a string scalar, quoted and escaped if it needs to be.
pub fn emit_scalar_string(out: &mut String, s: &str, delim: Delimiter)
    ensures
        final(out)@ == old(out)@ + scalar_string_text(s@, delimiter_char(delim)),
{
    if needs_quotes(s, delim) {
        out.push('"');
        escape_into(out, s);
        out.push('"');
        proof {
            assert(final(out)@ =~= old(out)@ + scalar_string_text(s@, delimiter_char(delim)));
        }
    } else {
        out.append(s);
    }
}

/// Whether a value is an array or an object.
pub open spec fn is_container(v: JsonValue) -> bool {
    v is Array || v is Object
}

/// The decimal text of an integer.
pub open spec fn int_text(n: int) -> Seq<char> {
    if n < 0 {
        seq!['-'] + decimal_digits((0 - n) as nat)
    } else {
        decimal_digits(n as nat)
    }
}

/// The text of a scalar: `null`, `true`/`false`, an integer in decimal, a
/// float literal as it stands, or a string quoted when it must be.
pub open spec fn scalar_text(v: JsonValue, d: char) -> Seq<char> {
    match v {
        JsonValue::Null => "null"@,
        JsonValue::Bool(b) => if b {
            "true"@
        } else {
            "false"@
        },
        JsonValue::Int(n) => int_text(n as int),
        JsonValue::UInt(n) => decimal_digits(n as nat),
        JsonValue::Float(t) => t@,
        JsonValue::String(s) => scalar_string_text(s@, d),
        _ => Seq::empty(),
    }
}

/// Appends the text of a scalar and returns `true`; leaves `out` alone and
/// returns `false` for an array or an object.
pub fn emit_json_scalar(out: &mut String, v: &JsonValue, delim: Delimiter) -> (b: bool)
    ensures
        b == !is_container(*v),
        final(out)@ == old(out)@ + scalar_text(*v, delimiter_char(delim)),
{
    proof {
        reveal_strlit("null");
        reveal_strlit("true");
        reveal_strlit("false");
    }
    match v {
        JsonValue::Null => {
            out.append("null");
            true
        },
        JsonValue::Bool(b) => {
            if *b {
                out.append("true");
            } else {
                out.append("false");
            }
            true
        },
        JsonValue::Int(n) => {
            let ghost before = out@;
            if *n < 0 {
                out.push('-');
                let m: u64 = if *n == i64::MIN {
                    0x8000_0000_0000_0000u64
                } else {
                    (0 - *n) as u64
                };
                push_decimal(out, m);
                proof {
                    assert(out@ =~= before + int_text(*n as int));
                }
            } else {
                push_decimal(out, *n as u64);
            }
            true
        },
        JsonValue::UInt(n) => {
            push_decimal(out, *n);
            true
        },
        JsonValue::Float(t) => {
            out.append(t.as_str());
            true
        },
        JsonValue::String(t) => {
            emit_scalar_string(out, t.as_str(), delim);
            true
        },
        _ => {
            proof {
                assert(final(out)@ =~= old(out)@ + Seq::<char>::empty());
            }
            false
        },
    }
}

pub(crate) fn is_container_exec(v: &JsonValue) -> (b: bool)
    ensures
        b == is_container(*v),
{
    match v {
        JsonValue::Array(_) => true,
        JsonValue::Object(_) => true,
        _ => false,
    }
}

} // verus!
