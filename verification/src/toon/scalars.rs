//! Scalars of the TOON decoder, read from a stretch `s[i..e]` of characters:
//! escapes, quoted and block strings, `${...}` references, keywords and
//! numbers.
use super::decode::{has_leading_zero_spec, line_scan_step, LineScan};
use super::value::{is_scalar, JsonValue, ScalarView};
use crate::parser::numbers::{float_syntax, is_float_syntax, negative_i64_of, parse_negative_i64, parse_u64, u64_of};
use crate::text::{is_white_space_char, push_chars, white_space};
use vstd::prelude::*;

verus! {

/// What reading from a stretch gives: a value and the index after it, or
/// an error message.
pub type Read<T> = Result<(T, int), Seq<char>>;

// ---------------------------------------------------------------------------
// Trimming
// ---------------------------------------------------------------------------

/// The first index from `i` up to `hi` that is not white space.
pub open spec fn skip_ws(s: Seq<char>, i: int, hi: int) -> int
    decreases hi - i,
{
    if 0 <= i < hi && i < s.len() && white_space(s[i]) {
        skip_ws(s, i + 1, hi)
    } else {
        i
    }
}

/// The end of `s[lo..j]` once trailing white space is dropped.
pub open spec fn back_ws(s: Seq<char>, lo: int, j: int) -> int
    decreases j - lo,
{
    if lo < j && 0 < j <= s.len() && white_space(s[j - 1]) {
        back_ws(s, lo, j - 1)
    } else {
        j
    }
}

/// The bounds of `s[lo..hi]` without leading and trailing white space
/// (`str::trim`).
pub open spec fn trim_range(s: Seq<char>, lo: int, hi: int) -> (int, int) {
    let a = skip_ws(s, lo, hi);
    (a, back_ws(s, a, hi))
}

/// `s[lo..hi]` trimmed.
pub open spec fn trimmed_text(s: Seq<char>, lo: int, hi: int) -> Seq<char> {
    s.subrange(trim_range(s, lo, hi).0, trim_range(s, lo, hi).1)
}

proof fn lemma_skip_ws(s: Seq<char>, i: int, hi: int)
    requires
        0 <= i <= hi <= s.len(),
    ensures
        i <= skip_ws(s, i, hi) <= hi,
    decreases hi - i,
{
    if i < hi && white_space(s[i]) {
        lemma_skip_ws(s, i + 1, hi);
    }
}

proof fn lemma_back_ws(s: Seq<char>, lo: int, j: int)
    requires
        0 <= lo <= j <= s.len(),
    ensures
        lo <= back_ws(s, lo, j) <= j,
    decreases j - lo,
{
    if lo < j && white_space(s[j - 1]) {
        lemma_back_ws(s, lo, j - 1);
    }
}

/// The bounds of `v[lo..hi]` trimmed.
pub fn trim_bounds(v: &Vec<char>, lo: usize, hi: usize) -> (r: (usize, usize))
    requires
        lo <= hi <= v.len(),
    ensures
        r.0 as int == trim_range(v@, lo as int, hi as int).0,
        r.1 as int == trim_range(v@, lo as int, hi as int).1,
        lo <= r.0 <= r.1 <= hi,
{
    let mut a = lo;
    while a < hi && is_white_space_char(v[a])
        invariant
            lo <= a <= hi <= v.len(),
            skip_ws(v@, a as int, hi as int) == skip_ws(v@, lo as int, hi as int),
        decreases hi - a,
    {
        a += 1;
    }
    let mut b = hi;
    while b > a && is_white_space_char(v[b - 1])
        invariant
            lo <= a <= b <= hi <= v.len(),
            skip_ws(v@, a as int, hi as int) == a,
            skip_ws(v@, lo as int, hi as int) == a,
            back_ws(v@, a as int, b as int) == back_ws(v@, a as int, hi as int),
        decreases b,
    {
        b -= 1;
    }
    (a, b)
}

// ---------------------------------------------------------------------------
// Escapes
// ---------------------------------------------------------------------------

/// Whether `c` is an ASCII hexadecimal digit.
pub open spec fn is_hex_digit(c: char) -> bool {
    ('0' <= c && c <= '9') || ('a' <= c && c <= 'f') || ('A' <= c && c <= 'F')
}

/// The value of a hexadecimal digit.
pub open spec fn hex_digit_value(c: char) -> nat {
    if '0' <= c && c <= '9' {
        (c as nat - '0' as nat) as nat
    } else if 'a' <= c && c <= 'f' {
        (c as nat - 'a' as nat + 10) as nat
    } else {
        (c as nat - 'A' as nat + 10) as nat
    }
}

/// The value of a string of hexadecimal digits.
pub open spec fn hex_value(s: Seq<char>) -> nat
    decreases s.len(),
{
    if s.len() == 0 {
        0
    } else {
        hex_value(s.drop_last()) * 16 + hex_digit_value(s.last())
    }
}

/// Whether every character of `s` is a hexadecimal digit.
pub open spec fn all_hex(s: Seq<char>) -> bool {
    forall|k: int| 0 <= k < s.len() ==> #[trigger] is_hex_digit(s[k])
}

/// Whether `n` is the code of a character (not a surrogate, not above
/// `0x10FFFF`).
pub open spec fn valid_char_code(n: nat) -> bool {
    n <= 0xD7FF || (0xE000 <= n && n <= 0x10FFFF)
}

/// How many characters the escape whose letter is at `i` takes: five for
/// `u` (the letter and four digits), one for the others.
pub open spec fn escape_len(s: Seq<char>, i: int) -> int {
    if s[i] == 'u' {
        5
    } else {
        1
    }
}

/// The character an escape stands for, its letter at `i` (just after the
/// backslash) in `s[..e]`: `\n`, `\r`, `\t`, `\"`, `\\`, or `\u` with four
/// hexadecimal digits naming a character.
pub open spec fn escape_at(s: Seq<char>, i: int, e: int) -> Result<char, Seq<char>> {
    if !(i < e) {
        Err("Unterminated escape sequence"@)
    } else {
        let c = s[i];
        if c == 'n' {
            Ok('\n')
        } else if c == 'r' {
            Ok('\r')
        } else if c == 't' {
            Ok('\t')
        } else if c == '"' {
            Ok('"')
        } else if c == '\\' {
            Ok('\\')
        } else if c == 'u' {
            if i + 5 <= e && all_hex(s.subrange(i + 1, i + 5)) {
                let code = hex_value(s.subrange(i + 1, i + 5));
                if valid_char_code(code) {
                    Ok(code as char)
                } else {
                    Err("invalid unicode code point"@)
                }
            } else {
                Err("Invalid \\u escape"@)
            }
        } else {
            Err("Invalid escape: \\"@.push(c))
        }
    }
}

/// `char::from_u32`: the character whose code is `code`; none for a
/// surrogate or a code above `0x10FFFF`.
#[verifier::external_body]
fn char_from_u32(code: u32) -> (r: Option<char>)
    ensures
        match r {
            Some(c) => valid_char_code(code as nat) && c == (code as char),
            None => !valid_char_code(code as nat),
        },
{
    char::from_u32(code)
}

fn is_hex_digit_exec(c: char) -> (b: bool)
    ensures
        b == is_hex_digit(c),
{
    ('0' <= c && c <= '9') || ('a' <= c && c <= 'f') || ('A' <= c && c <= 'F')
}

fn hex_digit_value_exec(c: char) -> (d: u32)
    requires
        is_hex_digit(c),
    ensures
        d == hex_digit_value(c),
        d < 16,
{
    if '0' <= c && c <= '9' {
        (c as u32) - ('0' as u32)
    } else if 'a' <= c && c <= 'f' {
        (c as u32) - ('a' as u32) + 10
    } else {
        (c as u32) - ('A' as u32) + 10
    }
}

/// Reads the escape whose letter is at `i` in `v[..e]`.
fn read_escape(v: &Vec<char>, i: usize, e: usize) -> (r: Result<char, String>)
    requires
        e <= v.len(),
    ensures
        match r {
            Ok(c) => escape_at(v@, i as int, e as int) == Ok::<char, Seq<char>>(c),
            Err(m) => escape_at(v@, i as int, e as int) == Err::<char, Seq<char>>(m@),
        },
{
    if i >= e {
        proof {
            reveal_strlit("Unterminated escape sequence");
        }
        return Err(String::from_str("Unterminated escape sequence"));
    }
    let c = v[i];
    if c == 'n' {
        Ok('\n')
    } else if c == 'r' {
        Ok('\r')
    } else if c == 't' {
        Ok('\t')
    } else if c == '"' {
        Ok('"')
    } else if c == '\\' {
        Ok('\\')
    } else if c == 'u' {
        if e - i < 5 {
            proof {
                reveal_strlit("Invalid \\u escape");
            }
            return Err(String::from_str("Invalid \\u escape"));
        }
        let mut code: u32 = 0;
        let mut k: usize = i + 1;
        let ghost d = v@.subrange(i + 1, i + 5);
        proof {
            assert(d.take(0) =~= Seq::<char>::empty());
        }
        while k < i + 5
            invariant
                i + 1 <= k <= i + 5,
                i + 5 <= e <= v.len(),
                v@[i as int] == 'u',
                d == v@.subrange(i + 1, i + 5),
                all_hex(d.take(k - i - 1)),
                code == hex_value(d.take(k - i - 1)),
                code < 0x10000,
                code < pow16(k - i - 1),
            decreases i + 5 - k,
        {
            if !is_hex_digit_exec(v[k]) {
                proof {
                    assert(!is_hex_digit(d[k - i - 1]));
                    assert(!all_hex(d));
                    reveal_strlit("Invalid \\u escape");
                }
                return Err(String::from_str("Invalid \\u escape"));
            }
            let dv = hex_digit_value_exec(v[k]);
            proof {
                let t = d.take(k - i);
                assert(t.drop_last() =~= d.take(k - i - 1));
                assert(t.last() == v@[k as int]);
                assert(code * 16 + dv < pow16(k - i)) by (nonlinear_arith)
                    requires
                        code < pow16(k - i - 1),
                        dv < 16,
                        pow16(k - i) == pow16(k - i - 1) * 16,
                ;
                assert forall|j: int| 0 <= j < t.len() implies #[trigger] is_hex_digit(t[j]) by {
                    if j < t.len() - 1 {
                        assert(t[j] == d.take(k - i - 1)[j]);
                    }
                }
            }
            code = code * 16 + dv;
            k += 1;
        }
        proof {
            assert(d.take(4) =~= d);
        }
        match char_from_u32(code) {
            Some(ch) => Ok(ch),
            None => {
                proof {
                    reveal_strlit("invalid unicode code point");
                }
                Err(String::from_str("invalid unicode code point"))
            },
        }
    } else {
        let mut m = String::from_str("Invalid escape: \\");
        m.push(c);
        proof {
            reveal_strlit("Invalid escape: \\");
        }
        Err(m)
    }
}

/// Sixteen to the power `n`, for `n` up to four.
pub open spec fn pow16(n: int) -> nat {
    if n <= 0 {
        1
    } else if n == 1 {
        16
    } else if n == 2 {
        256
    } else if n == 3 {
        4096
    } else {
        65536
    }
}

// ---------------------------------------------------------------------------
// Strings and references
// ---------------------------------------------------------------------------

/// `p` put in front of what was read.
pub open spec fn prepend(p: Seq<char>, r: Read<Seq<char>>) -> Read<Seq<char>> {
    match r {
        Ok((t, k)) => Ok((p + t, k)),
        Err(m) => Err(m),
    }
}

/// The body of a quoted string from `i` (just after the opening quote) in
/// `s[..e]`, escapes decoded, and the index after the closing quote; `msg`
/// when the text ends first.
pub open spec fn quoted_text(s: Seq<char>, i: int, e: int, msg: Seq<char>) -> Read<Seq<char>>
    decreases e - i,
{
    if !(i < e) {
        Err(msg)
    } else if s[i] == '\\' {
        match escape_at(s, i + 1, e) {
            Err(m) => Err(m),
            Ok(c) => prepend(seq![c], quoted_text(s, i + 1 + escape_len(s, i + 1), e, msg)),
        }
    } else if s[i] == '"' {
        Ok((Seq::empty(), i + 1))
    } else {
        prepend(seq![s[i]], quoted_text(s, i + 1, e, msg))
    }
}

/// The body of a quoted string value.
pub open spec fn quoted_body(s: Seq<char>, i: int, e: int) -> Read<Seq<char>> {
    quoted_text(s, i, e, "Unterminated quoted string"@)
}

/// The body of a block string from `i` (just after the opening `"""`) in
/// `s[..e]`, taken as it stands, and the index after the closing `"""`.
pub open spec fn block_body(s: Seq<char>, i: int, e: int) -> Read<Seq<char>>
    decreases e - i,
{
    if !(i < e) {
        Err("Unterminated block string"@)
    } else if s[i] == '"' && i + 2 < e && s[i + 1] == '"' && s[i + 2] == '"' {
        Ok((Seq::empty(), i + 3))
    } else {
        prepend(seq![s[i]], block_body(s, i + 1, e))
    }
}

/// The first index from `i` before `e` holding `}`.
pub open spec fn brace_end(s: Seq<char>, i: int, e: int) -> Option<int>
    decreases e - i,
{
    if !(i < e) {
        None
    } else if s[i] == '}' {
        Some(i)
    } else {
        brace_end(s, i + 1, e)
    }
}

/// The first index from `i` before `e` holding `d`, or `e`.
pub open spec fn delim_from(s: Seq<char>, i: int, e: int, d: char) -> int
    decreases e - i,
{
    if !(i < e) {
        e
    } else if s[i] == d {
        i
    } else {
        delim_from(s, i + 1, e, d)
    }
}

fn read_quoted(v: &Vec<char>, i: usize, e: usize, msg: &str) -> (r: Result<(String, usize), String>)
    requires
        i <= e <= v.len(),
    ensures
        match r {
            Ok((t, k)) => quoted_text(v@, i as int, e as int, msg@) == Ok::<(Seq<char>, int), Seq<char>>((t@, k as int)),
            Err(m) => quoted_text(v@, i as int, e as int, msg@) == Err::<(Seq<char>, int), Seq<char>>(m@),
        },
{
    let ghost s = v@;
    let mut acc = String::new();
    let mut j = i;
    proof {
        assert(acc@ =~= Seq::<char>::empty());
        assert(prepend(acc@, quoted_text(s, i as int, e as int, msg@)) =~~= quoted_text(s, i as int, e as int, msg@));
    }
    while j < e
        invariant
            s == v@,
            i <= j <= e <= v.len(),
            quoted_text(s, i as int, e as int, msg@) == prepend(acc@, quoted_text(s, j as int, e as int, msg@)),
        decreases e - j,
    {
        let c = v[j];
        if c == '\\' {
            match read_escape(v, j + 1, e) {
                Err(m) => {
                    return Err(m);
                },
                Ok(ch) => {
                    let ghost before = acc@;
                    acc.push(ch);
                    let step: usize = if v[j + 1] == 'u' { 5 } else { 1 };
                    proof {
                        assert(acc@ =~= before + seq![ch]);
                        let r = quoted_text(s, j + 1 + step, e as int, msg@);
                        match r {
                            Ok((t, k)) => {
                                assert(before + (seq![ch] + t) =~= acc@ + t);
                            },
                            Err(_) => {},
                        }
                    }
                    j = j + 1 + step;
                },
            }
        } else if c == '"' {
            proof {
                assert(acc@ + Seq::<char>::empty() =~= acc@);
            }
            return Ok((acc, j + 1));
        } else {
            let ghost before = acc@;
            acc.push(c);
            proof {
                let r = quoted_text(s, j + 1, e as int, msg@);
                match r {
                    Ok((t, k)) => {
                        assert(before + (seq![c] + t) =~= acc@ + t);
                    },
                    Err(_) => {},
                }
            }
            j += 1;
        }
    }
    Err(String::from_str(msg))
}

fn read_block(v: &Vec<char>, i: usize, e: usize) -> (r: Result<(String, usize), String>)
    requires
        i <= e <= v.len(),
    ensures
        match r {
            Ok((t, k)) => block_body(v@, i as int, e as int) == Ok::<(Seq<char>, int), Seq<char>>((t@, k as int)),
            Err(m) => block_body(v@, i as int, e as int) == Err::<(Seq<char>, int), Seq<char>>(m@),
        },
{
    let ghost s = v@;
    let mut acc = String::new();
    let mut j = i;
    proof {
        assert(acc@ =~= Seq::<char>::empty());
        assert(prepend(acc@, block_body(s, i as int, e as int)) =~~= block_body(s, i as int, e as int));
    }
    while j < e
        invariant
            s == v@,
            i <= j <= e <= v.len(),
            block_body(s, i as int, e as int) == prepend(acc@, block_body(s, j as int, e as int)),
        decreases e - j,
    {
        let c = v[j];
        if c == '"' && e - j > 2 && v[j + 1] == '"' && v[j + 2] == '"' {
            proof {
                assert(acc@ + Seq::<char>::empty() =~= acc@);
            }
            return Ok((acc, j + 3));
        }
        let ghost before = acc@;
        acc.push(c);
        proof {
            let r = block_body(s, j + 1, e as int);
            match r {
                Ok((t, k)) => {
                    assert(before + (seq![c] + t) =~= acc@ + t);
                },
                Err(_) => {},
            }
        }
        j += 1;
    }
    proof {
        reveal_strlit("Unterminated block string");
    }
    Err(String::from_str("Unterminated block string"))
}

fn find_brace(v: &Vec<char>, i: usize, e: usize) -> (r: Option<usize>)
    requires
        i <= e <= v.len(),
    ensures
        match r {
            Some(k) => brace_end(v@, i as int, e as int) == Some(k as int) && i <= k < e,
            None => brace_end(v@, i as int, e as int) is None,
        },
{
    let mut j = i;
    while j < e
        invariant
            i <= j <= e <= v.len(),
            brace_end(v@, j as int, e as int) == brace_end(v@, i as int, e as int),
        decreases e - j,
    {
        if v[j] == '}' {
            return Some(j);
        }
        j += 1;
    }
    None
}

fn find_delim(v: &Vec<char>, i: usize, e: usize, d: char) -> (k: usize)
    requires
        i <= e <= v.len(),
    ensures
        k as int == delim_from(v@, i as int, e as int, d),
        i <= k <= e,
{
    let mut j = i;
    while j < e && v[j] != d
        invariant
            i <= j <= e <= v.len(),
            delim_from(v@, j as int, e as int, d) == delim_from(v@, i as int, e as int, d),
        decreases e - j,
    {
        j += 1;
    }
    j
}

// ---------------------------------------------------------------------------
// Numbers and keywords
// ---------------------------------------------------------------------------

/// What `i64::from_str_radix(h, 16)` gives: an optional sign, then one or
/// more hexadecimal digits, within the range of `i64`.
pub open spec fn hex_i64_of(h: Seq<char>) -> Option<int> {
    let signed = h.len() > 0 && (h[0] == '+' || h[0] == '-');
    let neg = h.len() > 0 && h[0] == '-';
    let d = if signed { h.drop_first() } else { h };
    if d.len() == 0 || !all_hex(d) {
        None
    } else if neg {
        if hex_value(d) <= 0x8000_0000_0000_0000 {
            Some(0 - hex_value(d))
        } else {
            None
        }
    } else {
        if hex_value(d) <= 0x7FFF_FFFF_FFFF_FFFF {
            Some(hex_value(d) as int)
        } else {
            None
        }
    }
}

/// The number a scalar text stands for, if any: none with a leading zero;
/// `0x`/`0X` digits (after an optional `-`) as a hexadecimal `i64`, negated
/// (wrapping) after a `-`; an integer that `i64` or `u64` parses; a decimal
/// float literal.
pub open spec fn number_of(t: Seq<char>) -> Option<ScalarView> {
    if has_leading_zero_spec(t) {
        None
    } else {
        let neg = t.len() > 0 && t[0] == '-';
        let body = if neg { t.drop_first() } else { t };
        if body.len() >= 2 && body[0] == '0' && (body[1] == 'x' || body[1] == 'X') {
            match hex_i64_of(body.skip(2)) {
                Some(m) => Some(
                    ScalarView::Int(
                        if !neg {
                            m
                        } else if m == i64::MIN {
                            m
                        } else {
                            0 - m
                        },
                    ),
                ),
                None => None,
            }
        } else {
            let int_value = if neg {
                match negative_i64_of(t) {
                    Some(v) => Some(v as int),
                    None => None,
                }
            } else {
                match u64_of(t) {
                    Some(v) => Some(v as int),
                    None => None,
                }
            };
            match int_value {
                Some(v) => Some(ScalarView::Int(v)),
                None => if float_syntax(t) {
                    Some(ScalarView::Float(t))
                } else {
                    None
                },
            }
        }
    }
}

/// The scalar a bare text stands for: the empty string, `true`, `false`,
/// `null`, a number, or else the text as a string.
pub open spec fn bare_scalar(t: Seq<char>) -> ScalarView {
    if t.len() == 0 {
        ScalarView::Str(t)
    } else if t == "true"@ {
        ScalarView::Bool(true)
    } else if t == "false"@ {
        ScalarView::Bool(false)
    } else if t == "null"@ {
        ScalarView::Null
    } else {
        match number_of(t) {
            Some(n) => n,
            None => ScalarView::Str(t),
        }
    }
}

/// Reads `i64::from_str_radix` on `v[from..]`.
fn hex_i64(v: &Vec<char>, from: usize) -> (r: Option<i64>)
    requires
        from <= v.len(),
    ensures
        match r {
            Some(n) => hex_i64_of(v@.skip(from as int)) == Some(n as int),
            None => hex_i64_of(v@.skip(from as int)) is None,
        },
{
    let ghost h = v@.skip(from as int);
    let n = v.len();
    let signed = from < n && (v[from] == '+' || v[from] == '-');
    let neg = from < n && v[from] == '-';
    let start = if signed { from + 1 } else { from };
    let ghost d = if signed { h.drop_first() } else { h };
    proof {
        if from < n {
            assert(h[0] == v@[from as int]);
        }
        assert(d =~= v@.subrange(start as int, n as int));
    }
    if start == n {
        return None;
    }
    let limit: u64 = if neg { 0x8000_0000_0000_0000u64 } else { 0x7FFF_FFFF_FFFF_FFFFu64 };
    let mut acc: u64 = 0;
    let mut k = start;
    proof {
        assert(d.take(0) =~= Seq::<char>::empty());
    }
    while k < n
        invariant
            start <= k <= n == v.len(),
            start < n,
            h == v@.skip(from as int),
            signed == (h.len() > 0 && (h[0] == '+' || h[0] == '-')),
            neg == (h.len() > 0 && h[0] == '-'),
            d == (if signed { h.drop_first() } else { h }),
            limit == (if neg { 0x8000_0000_0000_0000u64 } else { 0x7FFF_FFFF_FFFF_FFFFu64 }),
            d == v@.subrange(start as int, n as int),
            all_hex(d.take(k - start)),
            acc == hex_value(d.take(k - start)),
            acc <= limit,
        decreases n - k,
    {
        if !is_hex_digit_exec(v[k]) {
            proof {
                assert(!is_hex_digit(d[k - start]));
            }
            return None;
        }
        let dv = hex_digit_value_exec(v[k]);
        proof {
            let t = d.take(k - start + 1);
            assert(t.drop_last() =~= d.take(k - start));
            assert(t.last() == v@[k as int]);
            assert forall|j: int| 0 <= j < t.len() implies #[trigger] is_hex_digit(t[j]) by {
                if j < t.len() - 1 {
                    assert(t[j] == d.take(k - start)[j]);
                }
            }
        }
        if acc > (limit - dv as u64) / 16 {
            proof {
                assert(hex_value(d.take(k - start + 1)) > limit) by (nonlinear_arith)
                    requires
                        hex_value(d.take(k - start + 1)) == acc * 16 + dv,
                        acc > (limit - dv) / 16,
                        dv < 16,
                ;
                lemma_hex_prefix_le(d, k - start + 1, d.len() as int);
                assert(d.take(d.len() as int) =~= d);
            }
            return None;
        }
        proof {
            assert(acc * 16 + dv <= limit) by (nonlinear_arith)
                requires
                    acc <= (limit - dv) / 16,
                    dv < 16,
                    dv <= limit,
            ;
        }
        acc = acc * 16 + dv as u64;
        k += 1;
    }
    proof {
        assert(d.take(d.len() as int) =~= d);
    }
    if neg {
        if acc == 0x8000_0000_0000_0000u64 {
            Some(i64::MIN)
        } else {
            Some(0 - (acc as i64))
        }
    } else {
        Some(acc as i64)
    }
}

proof fn lemma_hex_prefix_le(s: Seq<char>, i: int, j: int)
    requires
        0 <= i <= j <= s.len(),
    ensures
        hex_value(s.take(i)) <= hex_value(s.take(j)),
    decreases j - i,
{
    if i < j {
        lemma_hex_prefix_le(s, i, j - 1);
        assert(s.take(j).drop_last() =~= s.take(j - 1));
    }
}

/// The number that the text `t` stands for, if any.
fn number_of_text(t: &Vec<char>) -> (r: Option<JsonValue>)
    ensures
        match r {
            Some(v) => number_of(t@) matches Some(w) && is_scalar(v, w),
            None => number_of(t@) is None,
        },
{
    let n = t.len();
    let neg = n > 0 && t[0] == '-';
    let b: usize = if neg { 1 } else { 0 };
    let ghost body = if neg { t@.drop_first() } else { t@ };
    proof {
        assert(body =~= t@.subrange(b as int, n as int));
        assert(body.len() == n - b);
        assert(forall|k: int| 0 <= k < body.len() ==> body[k] == t@[b + k]);
    }
    if n > b + 1 && t[b] == '0' && '0' <= t[b + 1] && t[b + 1] <= '9' {
        return None;
    }
    if n >= b + 2 && t[b] == '0' && (t[b + 1] == 'x' || t[b + 1] == 'X') {
        proof {
            let body = if neg { t@.drop_first() } else { t@ };
            assert(body.skip(2) =~= t@.skip(b + 2));
        }
        return match hex_i64(t, b + 2) {
            Some(m) => {
                if !neg {
                    Some(JsonValue::Int(m))
                } else if m == i64::MIN {
                    Some(JsonValue::Int(m))
                } else {
                    Some(JsonValue::Int(0 - m))
                }
            },
            None => None,
        };
    }
    if neg {
        if let Some(v) = parse_negative_i64(t) {
            return Some(JsonValue::Int(v));
        }
    } else {
        if let Some(v) = parse_u64(t) {
            if v <= 0x7FFF_FFFF_FFFF_FFFFu64 {
                return Some(JsonValue::Int(v as i64));
            } else {
                return Some(JsonValue::UInt(v));
            }
        }
    }
    if is_float_syntax(t) {
        proof {
            assert(t@.subrange(0, n as int) =~= t@);
        }
        Some(JsonValue::Float(crate::text::string_of(t, 0, n)))
    } else {
        None
    }
}

// ---------------------------------------------------------------------------
// A scalar
// ---------------------------------------------------------------------------

/// A string read, as a scalar.
pub open spec fn as_str(r: Read<Seq<char>>) -> Read<ScalarView> {
    match r {
        Ok((t, k)) => Ok((ScalarView::Str(t), k)),
        Err(m) => Err(m),
    }
}

/// The scalar at `i` in `s[..e]`, read up to the delimiter `d`: a block
/// string, a quoted string, a `${...}` reference (kept with its braces), or
/// else the trimmed text up to the delimiter (not consumed) as a bare scalar.
pub open spec fn scalar_at(s: Seq<char>, i: int, e: int, d: char) -> Read<ScalarView> {
    if i < e && s[i] == '"' {
        if i + 2 < e && s[i + 1] == '"' && s[i + 2] == '"' {
            as_str(block_body(s, i + 3, e))
        } else {
            as_str(quoted_body(s, i + 1, e))
        }
    } else if i + 1 < e && s[i] == '$' && s[i + 1] == '{' {
        match brace_end(s, i + 2, e) {
            None => Err("Unterminated reference"@),
            Some(k) => Ok((ScalarView::Str("${"@ + s.subrange(i + 2, k) + "}"@), k + 1)),
        }
    } else {
        let j = delim_from(s, i, e, d);
        Ok((bare_scalar(trimmed_text(s, i, j)), j))
    }
}

/// Whether `r` is what `scalar_at` gives.
pub open spec fn read_matches(r: Result<(JsonValue, usize), String>, w: Read<ScalarView>) -> bool {
    match w {
        Ok((sv, k)) => r matches Ok((v, k2)) && k2 == k && is_scalar(v, sv),
        Err(m) => r matches Err(m2) && m2@ == m,
    }
}

pub proof fn lemma_quoted_text_bounds(s: Seq<char>, i: int, e: int, msg: Seq<char>)
    requires
        0 <= i <= e <= s.len(),
    ensures
        quoted_text(s, i, e, msg) matches Ok((_, k)) ==> i < k <= e,
    decreases e - i,
{
    if i < e {
        if s[i] == '\\' {
            if escape_at(s, i + 1, e) is Ok {
                let j = i + 1 + escape_len(s, i + 1);
                if j <= e {
                    lemma_quoted_text_bounds(s, j, e, msg);
                } else {
                    assert(s[i + 1] == 'u');
                }
            }
        } else if s[i] != '"' {
            lemma_quoted_text_bounds(s, i + 1, e, msg);
        }
    }
}

pub proof fn lemma_block_body_bounds(s: Seq<char>, i: int, e: int)
    requires
        0 <= i <= e <= s.len(),
    ensures
        block_body(s, i, e) matches Ok((_, k)) ==> i < k <= e,
    decreases e - i,
{
    if i < e && !(s[i] == '"' && i + 2 < e && s[i + 1] == '"' && s[i + 2] == '"') {
        lemma_block_body_bounds(s, i + 1, e);
    }
}

pub proof fn lemma_brace_end_bounds(s: Seq<char>, i: int, e: int)
    requires
        0 <= i <= e,
    ensures
        brace_end(s, i, e) matches Some(k) ==> i <= k < e,
    decreases e - i,
{
    if i < e && s[i] != '}' {
        lemma_brace_end_bounds(s, i + 1, e);
    }
}

pub proof fn lemma_delim_from_bounds(s: Seq<char>, i: int, e: int, d: char)
    requires
        0 <= i <= e,
    ensures
        i <= delim_from(s, i, e, d) <= e,
    decreases e - i,
{
    if i < e && s[i] != d {
        lemma_delim_from_bounds(s, i + 1, e, d);
    }
}

/// A scalar read ends no earlier than it starts and within the stretch.
pub proof fn lemma_scalar_at_bounds(s: Seq<char>, i: int, e: int, d: char)
    requires
        0 <= i <= e <= s.len(),
    ensures
        scalar_at(s, i, e, d) matches Ok((_, k)) ==> i <= k <= e,
{
    if i < e && s[i] == '"' {
        if i + 2 < e {
            lemma_block_body_bounds(s, i + 3, e);
        }
        lemma_quoted_text_bounds(s, i + 1, e, "Unterminated quoted string"@);
    } else if i + 1 < e && s[i] == '$' && s[i + 1] == '{' {
        lemma_brace_end_bounds(s, i + 2, e);
    } else {
        lemma_delim_from_bounds(s, i, e, d);
    }
}

pub(crate) fn slice_of(v: &Vec<char>, from: usize, to: usize) -> (r: Vec<char>)
    requires
        from <= to <= v.len(),
    ensures
        r@ == v@.subrange(from as int, to as int),
{
    let mut r: Vec<char> = Vec::new();
    let mut k = from;
    while k < to
        invariant
            from <= k <= to <= v.len(),
            r@ == v@.subrange(from as int, k as int),
        decreases to - k,
    {
        r.push(v[k]);
        proof {
            assert(r@ =~= v@.subrange(from as int, k + 1));
        }
        k += 1;
    }
    r
}

fn equals_literal(t: &Vec<char>, w: &str) -> (b: bool)
    ensures
        b == (t@ == w@),
{
    let x = crate::text::chars_of(w);
    if t.len() != x.len() {
        return false;
    }
    let mut k: usize = 0;
    while k < t.len()
        invariant
            t.len() == x.len(),
            x@ == w@,
            0 <= k <= t.len(),
            forall|j: int| 0 <= j < k ==> t@[j] == x@[j],
        decreases t.len() - k,
    {
        if t[k] != x[k] {
            return false;
        }
        k += 1;
    }
    proof {
        assert(t@ =~= x@);
    }
    true
}

/// The scalar that a bare text stands for.
pub fn bare_scalar_value(t: &Vec<char>) -> (v: JsonValue)
    ensures
        is_scalar(v, bare_scalar(t@)),
{
    proof {
        reveal_strlit("true");
        reveal_strlit("false");
        reveal_strlit("null");
    }
    if t.len() == 0 {
        let empty = String::new();
        proof {
            assert(empty@ =~= t@);
        }
        return JsonValue::String(empty);
    }
    if equals_literal(t, "true") {
        return JsonValue::Bool(true);
    }
    if equals_literal(t, "false") {
        return JsonValue::Bool(false);
    }
    if equals_literal(t, "null") {
        return JsonValue::Null;
    }
    match number_of_text(t) {
        Some(v) => v,
        None => {
            proof {
                assert(t@.subrange(0, t.len() as int) =~= t@);
            }
            JsonValue::String(crate::text::string_of(t, 0, t.len()))
        },
    }
}

/// Reads the scalar at `i` in `v[..e]` up to the delimiter `d`.
pub fn read_scalar(v: &Vec<char>, i: usize, e: usize, d: char) -> (r: Result<(JsonValue, usize), String>)
    requires
        i <= e <= v.len(),
    ensures
        read_matches(r, scalar_at(v@, i as int, e as int, d)),
{
    if i < e && v[i] == '"' {
        if e - i > 2 && v[i + 1] == '"' && v[i + 2] == '"' {
            return match read_block(v, i + 3, e) {
                Ok((t, k)) => Ok((JsonValue::String(t), k)),
                Err(m) => Err(m),
            };
        }
        proof {
            reveal_strlit("Unterminated quoted string");
        }
        return match read_quoted(v, i + 1, e, "Unterminated quoted string") {
            Ok((t, k)) => Ok((JsonValue::String(t), k)),
            Err(m) => Err(m),
        };
    }
    if e - i > 1 && v[i] == '$' && v[i + 1] == '{' {
        return match find_brace(v, i + 2, e) {
            None => {
                proof {
                    reveal_strlit("Unterminated reference");
                }
                Err(String::from_str("Unterminated reference"))
            },
            Some(k) => {
                let mut t = String::from_str("${");
                push_chars(&mut t, v, i + 2, k);
                t.push('}');
                proof {
                    reveal_strlit("${");
                    reveal_strlit("}");
                    assert(t@ =~= "${"@ + v@.subrange(i + 2, k as int) + "}"@);
                }
                Ok((JsonValue::String(t), k + 1))
            },
        };
    }
    let j = find_delim(v, i, e, d);
    let (a, b) = trim_bounds(v, i, j);
    let t = slice_of(v, a, b);
    Ok((bare_scalar_value(&t), j))
}

// ---------------------------------------------------------------------------
// A row of scalars
// ---------------------------------------------------------------------------

/// Whether `c` is skipped between items: a space, a carriage return, or a
/// tab unless tabs delimit.
pub open spec fn is_blank(c: char, d: char) -> bool {
    c == ' ' || c == '\r' || (c == '\t' && d != '\t')
}

/// The first index from `i` before `e` that is not blank.
pub open spec fn skip_blank(s: Seq<char>, i: int, e: int, d: char) -> int
    decreases e - i,
{
    if 0 <= i < e && i < s.len() && is_blank(s[i], d) {
        skip_blank(s, i + 1, e, d)
    } else {
        i
    }
}

pub proof fn lemma_skip_blank(s: Seq<char>, i: int, e: int, d: char)
    requires
        0 <= i <= e <= s.len(),
    ensures
        i <= skip_blank(s, i, e, d) <= e,
    decreases e - i,
{
    if i < e && is_blank(s[i], d) {
        lemma_skip_blank(s, i + 1, e, d);
    }
}

/// The scalars of `s[i..e]` separated by `d`: blanks around each are
/// skipped, a delimiter at the very end adds an empty string, and anything
/// else after a scalar is an error.
pub open spec fn items_from(s: Seq<char>, i: int, e: int, d: char) -> Result<Seq<ScalarView>, Seq<char>>
    decreases e - i,
{
    if !(0 <= i <= e <= s.len()) {
        Ok(Seq::empty())
    } else {
        let a = skip_blank(s, i, e, d);
        if a >= e {
            Ok(Seq::empty())
        } else {
            match scalar_at(s, a, e, d) {
                Err(m) => Err(m),
                Ok((w, k)) => {
                    proof {
                        lemma_skip_blank(s, i, e, d);
                        lemma_scalar_at_bounds(s, a, e, d);
                        lemma_skip_blank(s, k, e, d);
                    }
                    let b = skip_blank(s, k, e, d);
                    if b >= e {
                        Ok(seq![w])
                    } else if s[b] == d {
                        if b + 1 >= e {
                            Ok(seq![w, ScalarView::Str(Seq::empty())])
                        } else {
                            match items_from(s, b + 1, e, d) {
                                Ok(rest) => Ok(seq![w] + rest),
                                Err(m) => Err(m),
                            }
                        }
                    } else {
                        Err("expected delimiter"@)
                    }
                },
            }
        }
    }
}

fn skip_blank_exec(v: &Vec<char>, i: usize, e: usize, d: char) -> (a: usize)
    requires
        i <= e <= v.len(),
    ensures
        a as int == skip_blank(v@, i as int, e as int, d),
        i <= a <= e,
{
    let mut a = i;
    while a < e && (v[a] == ' ' || v[a] == '\r' || (v[a] == '\t' && d != '\t'))
        invariant
            i <= a <= e <= v.len(),
            skip_blank(v@, a as int, e as int, d) == skip_blank(v@, i as int, e as int, d),
        decreases e - a,
    {
        a += 1;
    }
    a
}

/// Whether `vals` are the scalars `ws`, one by one.
pub open spec fn all_scalars(vals: Seq<JsonValue>, ws: Seq<ScalarView>) -> bool {
    vals.len() == ws.len() && forall|k: int| 0 <= k < vals.len() ==> is_scalar(#[trigger] vals[k], ws[k])
}

/// Reads the scalars of `v[i..e]` separated by `d`.
pub fn read_items(v: &Vec<char>, i: usize, e: usize, d: char) -> (r: Result<Vec<JsonValue>, String>)
    requires
        i <= e <= v.len(),
    ensures
        match items_from(v@, i as int, e as int, d) {
            Ok(ws) => r matches Ok(vals) && all_scalars(vals@, ws),
            Err(m) => r matches Err(m2) && m2@ == m,
        },
{
    let ghost s = v@;
    let mut items: Vec<JsonValue> = Vec::new();
    let mut j = i;
    let ghost mut done: Seq<ScalarView> = Seq::empty();
    loop
        invariant
            s == v@,
            i <= j <= e <= v.len(),
            all_scalars(items@, done),
            items_from(s, i as int, e as int, d) == (match items_from(s, j as int, e as int, d) {
                Ok(rest) => Ok(done + rest),
                Err(m) => Err(m),
            }),
        decreases e - j,
    {
        let ghost j0 = j;
        let ghost done0 = done;
        let a = skip_blank_exec(v, j, e, d);
        if a >= e {
            proof {
                assert(done + Seq::<ScalarView>::empty() =~= done);
            }
            return Ok(items);
        }
        proof {
            lemma_scalar_at_bounds(s, a as int, e as int, d);
        }
        let (val, k) = match read_scalar(v, a, e, d) {
            Ok(x) => x,
            Err(m) => {
                return Err(m);
            },
        };
        let ghost w = scalar_at(s, a as int, e as int, d).get_Ok_0().0;
        let b = skip_blank_exec(v, k, e, d);
        if b >= e {
            items.push(val);
            proof {
                assert(done + seq![w] =~= done.push(w));
                assert(all_scalars(items@, done.push(w))) by {
                    assert forall|x: int| 0 <= x < items@.len() implies is_scalar(#[trigger] items@[x], done.push(w)[x]) by {
                        if x < items@.len() - 1 {
                            assert(items@[x] == items@.drop_last()[x]);
                        }
                    }
                }
            }
            return Ok(items);
        }
        if v[b] == d {
            items.push(val);
            proof {
                done = done.push(w);
            }
            if b + 1 >= e {
                let empty = String::new();
                proof {
                    assert(empty@ =~= Seq::<char>::empty());
                }
                items.push(JsonValue::String(empty));
                proof {
                    assert(done + seq![ScalarView::Str(Seq::empty())] =~= done.push(ScalarView::Str(Seq::empty())));
                }
                return Ok(items);
            }
            proof {
                let r = items_from(s, b + 1, e as int, d);
                assert(items_from(s, j0 as int, e as int, d) == match r {
                    Ok(rest) => Ok(seq![w] + rest),
                    Err(m) => Err::<Seq<ScalarView>, Seq<char>>(m),
                });
                match r {
                    Ok(rest) => {
                        assert(done0 + (seq![w] + rest) =~= done + rest);
                    },
                    Err(_) => {},
                }
            }
            j = b + 1;
        } else {
            proof {
                reveal_strlit("expected delimiter");
            }
            return Err(String::from_str("expected delimiter"));
        }
    }
}

// ---------------------------------------------------------------------------
// Comments and a line's scalar
// ---------------------------------------------------------------------------

/// Where the text of `s[i..e]` ends once a `#` comment (outside strings and
/// references) is cut off.
pub open spec fn comment_cut(s: Seq<char>, i: int, e: int, st: LineScan) -> int
    decreases e - i,
{
    if !(0 <= i < e) || i >= s.len() {
        e
    } else if !st.in_quote && !st.in_ref && s[i] == '#' {
        i
    } else {
        comment_cut(s, i + 1, e, line_scan_step(s, i, st))
    }
}

/// The start state of a scan along a line.
pub open spec fn scan_start() -> LineScan {
    LineScan { in_quote: false, escaped: false, in_ref: false }
}

/// Where `v[i..e]` ends once a comment is cut off.
pub fn cut_comment(v: &Vec<char>, i: usize, e: usize) -> (c: usize)
    requires
        i <= e <= v.len(),
    ensures
        c as int == comment_cut(v@, i as int, e as int, scan_start()),
        i <= c <= e,
{
    let mut in_quote = false;
    let mut escaped = false;
    let mut in_ref = false;
    let mut k = i;
    while k < e
        invariant
            i <= k <= e <= v.len(),
            comment_cut(v@, k as int, e as int, LineScan { in_quote, escaped, in_ref }) == comment_cut(
                v@,
                i as int,
                e as int,
                scan_start(),
            ),
        decreases e - k,
    {
        let ch = v[k];
        if in_quote {
            if escaped {
                escaped = false;
            } else if ch == '\\' {
                escaped = true;
            } else if ch == '"' {
                in_quote = false;
            }
        } else if in_ref {
            if ch == '}' {
                in_ref = false;
            }
        } else {
            if ch == '"' {
                in_quote = true;
            } else if ch == '$' {
                if k + 1 < v.len() && v[k + 1] == '{' {
                    in_ref = true;
                }
            } else if ch == '#' {
                return k;
            }
        }
        k += 1;
    }
    e
}

/// Whether `s[a..b]` starts with `w`.
pub open spec fn starts_with_at(s: Seq<char>, a: int, b: int, w: Seq<char>) -> bool {
    b - a >= w.len() && s.subrange(a, a + w.len()) == w
}

/// Whether `s[a..b]` ends with `w`.
pub open spec fn ends_with_at(s: Seq<char>, a: int, b: int, w: Seq<char>) -> bool {
    b - a >= w.len() && s.subrange(b - w.len(), b) == w
}

/// The value of a read, without where it ended.
pub open spec fn value_of(r: Read<ScalarView>) -> Result<ScalarView, Seq<char>> {
    match r {
        Ok((w, _)) => Ok(w),
        Err(m) => Err(m),
    }
}

/// The scalar a whole line `s[lo..hi]` holds: with its comment cut off and
/// trimmed, a block string (it must end with `"""` too), a quoted string
/// (it must end with a quote), a `${...}` reference, or a bare scalar.
pub open spec fn scalar_line(s: Seq<char>, lo: int, hi: int) -> Result<ScalarView, Seq<char>> {
    let c = comment_cut(s, lo, hi, scan_start());
    let (a, b) = trim_range(s, lo, c);
    if starts_with_at(s, a, b, "\"\"\""@) {
        if ends_with_at(s, a, b, "\"\"\""@) && b - a >= 6 {
            value_of(scalar_at(s, a, b, '\n'))
        } else {
            Err("Unterminated block string"@)
        }
    } else if b > a && s[a] == '"' {
        if s[b - 1] == '"' && b - a >= 2 {
            value_of(scalar_at(s, a, b, '\n'))
        } else {
            Err("Unterminated quoted string"@)
        }
    } else if starts_with_at(s, a, b, "${"@) && s[b - 1] == '}' {
        value_of(scalar_at(s, a, b, '\n'))
    } else {
        Ok(bare_scalar(s.subrange(a, b)))
    }
}

fn starts_with_exec(v: &Vec<char>, a: usize, b: usize, w: &str) -> (r: bool)
    requires
        a <= b <= v.len(),
    ensures
        r == starts_with_at(v@, a as int, b as int, w@),
{
    let x = crate::text::chars_of(w);
    if b - a < x.len() {
        return false;
    }
    let r = crate::text::range_equals(v, a, a + x.len(), &x);
    r
}

fn ends_with_exec(v: &Vec<char>, a: usize, b: usize, w: &str) -> (r: bool)
    requires
        a <= b <= v.len(),
    ensures
        r == ends_with_at(v@, a as int, b as int, w@),
{
    let x = crate::text::chars_of(w);
    if b - a < x.len() {
        return false;
    }
    crate::text::range_equals(v, b - x.len(), b, &x)
}

/// Reads the scalar of the line `v[lo..hi]`.
pub fn read_scalar_line(v: &Vec<char>, lo: usize, hi: usize) -> (r: Result<JsonValue, String>)
    requires
        lo <= hi <= v.len(),
    ensures
        match scalar_line(v@, lo as int, hi as int) {
            Ok(w) => r matches Ok(x) && is_scalar(x, w),
            Err(m) => r matches Err(m2) && m2@ == m,
        },
{
    let c = cut_comment(v, lo, hi);
    let (a, b) = trim_bounds(v, lo, c);
    proof {
        reveal_strlit("\"\"\"");
        reveal_strlit("${");
    }
    if starts_with_exec(v, a, b, "\"\"\"") {
        if ends_with_exec(v, a, b, "\"\"\"") && b - a >= 6 {
            return match read_scalar(v, a, b, '\n') {
                Ok((x, _)) => Ok(x),
                Err(m) => Err(m),
            };
        }
        proof {
            reveal_strlit("Unterminated block string");
        }
        return Err(String::from_str("Unterminated block string"));
    }
    if b > a && v[a] == '"' {
        if v[b - 1] == '"' && b - a >= 2 {
            return match read_scalar(v, a, b, '\n') {
                Ok((x, _)) => Ok(x),
                Err(m) => Err(m),
            };
        }
        proof {
            reveal_strlit("Unterminated quoted string");
        }
        return Err(String::from_str("Unterminated quoted string"));
    }
    if starts_with_exec(v, a, b, "${") && v[b - 1] == '}' {
        return match read_scalar(v, a, b, '\n') {
            Ok((x, _)) => Ok(x),
            Err(m) => Err(m),
        };
    }
    let t = slice_of(v, a, b);
    Ok(bare_scalar_value(&t))
}

// ---------------------------------------------------------------------------
// Keys
// ---------------------------------------------------------------------------

/// `s[i..e]` with its escapes decoded.
pub open spec fn unescaped(s: Seq<char>, i: int, e: int) -> Result<Seq<char>, Seq<char>>
    decreases e - i,
{
    if !(i < e) {
        Ok(Seq::empty())
    } else if s[i] == '\\' {
        match escape_at(s, i + 1, e) {
            Err(m) => Err(m),
            Ok(c) => match unescaped(s, i + 1 + escape_len(s, i + 1), e) {
                Ok(t) => Ok(seq![c] + t),
                Err(m) => Err(m),
            },
        }
    } else {
        match unescaped(s, i + 1, e) {
            Ok(t) => Ok(seq![s[i]] + t),
            Err(m) => Err(m),
        }
    }
}

/// The key that `s[lo..hi]` names: trimmed, and when quoted, the text
/// between the quotes with its escapes decoded.
pub open spec fn key_text(s: Seq<char>, lo: int, hi: int) -> Result<Seq<char>, Seq<char>> {
    let (a, b) = trim_range(s, lo, hi);
    if b - a >= 2 && s[a] == '"' && s[b - 1] == '"' {
        unescaped(s, a + 1, b - 1)
    } else {
        Ok(s.subrange(a, b))
    }
}

fn read_unescaped(v: &Vec<char>, i: usize, e: usize) -> (r: Result<String, String>)
    requires
        i <= e <= v.len(),
    ensures
        match unescaped(v@, i as int, e as int) {
            Ok(t) => r matches Ok(x) && x@ == t,
            Err(m) => r matches Err(m2) && m2@ == m,
        },
{
    let ghost s = v@;
    let mut acc = String::new();
    let mut j = i;
    proof {
        assert(acc@ =~= Seq::<char>::empty());
        match unescaped(s, i as int, e as int) {
            Ok(t) => assert(acc@ + t =~= t),
            Err(_) => {},
        }
    }
    while j < e
        invariant
            s == v@,
            i <= j <= e <= v.len(),
            unescaped(s, i as int, e as int) == (match unescaped(s, j as int, e as int) {
                Ok(t) => Ok(acc@ + t),
                Err(m) => Err::<Seq<char>, Seq<char>>(m),
            }),
        decreases e - j,
    {
        let ghost before = acc@;
        let c = v[j];
        if c == '\\' {
            match read_escape(v, j + 1, e) {
                Err(m) => {
                    return Err(m);
                },
                Ok(ch) => {
                    acc.push(ch);
                    let step: usize = if v[j + 1] == 'u' { 5 } else { 1 };
                    proof {
                        match unescaped(s, j + 1 + step, e as int) {
                            Ok(t) => assert(before + (seq![ch] + t) =~= acc@ + t),
                            Err(_) => {},
                        }
                    }
                    j = j + 1 + step;
                },
            }
        } else {
            acc.push(c);
            proof {
                match unescaped(s, j + 1, e as int) {
                    Ok(t) => assert(before + (seq![c] + t) =~= acc@ + t),
                    Err(_) => {},
                }
            }
            j += 1;
        }
    }
    proof {
        assert(acc@ + Seq::<char>::empty() =~= acc@);
    }
    Ok(acc)
}

/// Reads the key that `v[lo..hi]` names.
pub fn read_key(v: &Vec<char>, lo: usize, hi: usize) -> (r: Result<String, String>)
    requires
        lo <= hi <= v.len(),
    ensures
        match key_text(v@, lo as int, hi as int) {
            Ok(t) => r matches Ok(x) && x@ == t,
            Err(m) => r matches Err(m2) && m2@ == m,
        },
{
    let (a, b) = trim_bounds(v, lo, hi);
    if b - a >= 2 && v[a] == '"' && v[b - 1] == '"' {
        read_unescaped(v, a + 1, b - 1)
    } else {
        Ok(crate::text::string_of(v, a, b))
    }
}

// ---------------------------------------------------------------------------
// Column names and array headers
// ---------------------------------------------------------------------------

/// The first index from `i` before `e` that is neither a space nor (when
/// `cr`) a carriage return.
pub open spec fn skip_spaces(s: Seq<char>, i: int, e: int, cr: bool) -> int
    decreases e - i,
{
    if 0 <= i < e && i < s.len() && (s[i] == ' ' || (cr && s[i] == '\r')) {
        skip_spaces(s, i + 1, e, cr)
    } else {
        i
    }
}

pub proof fn lemma_skip_spaces(s: Seq<char>, i: int, e: int, cr: bool)
    requires
        0 <= i <= e <= s.len(),
    ensures
        i <= skip_spaces(s, i, e, cr) <= e,
    decreases e - i,
{
    if i < e && (s[i] == ' ' || (cr && s[i] == '\r')) {
        lemma_skip_spaces(s, i + 1, e, cr);
    }
}

/// The first index from `i` before `e` holding `d` or a line feed, or `e`.
pub open spec fn column_end(s: Seq<char>, i: int, e: int, d: char) -> int
    decreases e - i,
{
    if !(0 <= i < e) || i >= s.len() {
        e
    } else if s[i] == d || s[i] == '\n' {
        i
    } else {
        column_end(s, i + 1, e, d)
    }
}

pub proof fn lemma_column_end(s: Seq<char>, i: int, e: int, d: char)
    requires
        0 <= i <= e <= s.len(),
    ensures
        i <= column_end(s, i, e, d) <= e,
    decreases e - i,
{
    if i < e && !(s[i] == d || s[i] == '\n') {
        lemma_column_end(s, i + 1, e, d);
    }
}

/// The column names of `s[i..e]`, separated by `d`: each quoted (escapes
/// decoded, then spaces and a delimiter) or bare up to the delimiter and
/// trimmed. Reading stops at a line feed.
pub open spec fn columns_from(s: Seq<char>, i: int, e: int, d: char) -> Result<Seq<Seq<char>>, Seq<char>>
    decreases e - i,
{
    if !(0 <= i <= e <= s.len()) {
        Ok(Seq::empty())
    } else {
        let a = skip_spaces(s, i, e, true);
        proof {
            lemma_skip_spaces(s, i, e, true);
        }
        if a >= e || s[a] == '\n' {
            Ok(Seq::empty())
        } else if s[a] == '"' {
            match quoted_text(s, a + 1, e, "Unterminated quoted string in columns"@) {
                Err(m) => Err(m),
                Ok((t, k)) => {
                    proof {
                        lemma_quoted_text_bounds(s, a + 1, e, "Unterminated quoted string in columns"@);
                        lemma_skip_spaces(s, k, e, false);
                    }
                    let b = skip_spaces(s, k, e, false);
                    if b >= e {
                        Ok(seq![t])
                    } else if s[b] == d {
                        match columns_from(s, b + 1, e, d) {
                            Ok(rest) => Ok(seq![t] + rest),
                            Err(m) => Err(m),
                        }
                    } else {
                        Err("expected delimiter "@.push(d) + " after quoted column"@)
                    }
                },
            }
        } else {
            let j = column_end(s, a, e, d);
            proof {
                lemma_column_end(s, a, e, d);
            }
            let item = trimmed_text(s, a, j);
            if j < e && s[j] == d {
                match columns_from(s, j + 1, e, d) {
                    Ok(rest) => Ok(seq![item] + rest),
                    Err(m) => Err(m),
                }
            } else {
                Ok(seq![item])
            }
        }
    }
}

pub open spec fn strings_view(v: Seq<String>) -> Seq<Seq<char>> {
    v.map_values(|x: String| x@)
}

fn skip_spaces_exec(v: &Vec<char>, i: usize, e: usize, cr: bool) -> (a: usize)
    requires
        i <= e <= v.len(),
    ensures
        a as int == skip_spaces(v@, i as int, e as int, cr),
        i <= a <= e,
{
    let mut a = i;
    while a < e && (v[a] == ' ' || (cr && v[a] == '\r'))
        invariant
            i <= a <= e <= v.len(),
            skip_spaces(v@, a as int, e as int, cr) == skip_spaces(v@, i as int, e as int, cr),
        decreases e - a,
    {
        a += 1;
    }
    a
}

/// Reads the column names of `v[i..e]` separated by `d`.
pub fn read_columns(v: &Vec<char>, i: usize, e: usize, d: char) -> (r: Result<Vec<String>, String>)
    requires
        i <= e <= v.len(),
    ensures
        match columns_from(v@, i as int, e as int, d) {
            Ok(cols) => r matches Ok(x) && strings_view(x@) == cols,
            Err(m) => r matches Err(m2) && m2@ == m,
        },
{
    let ghost s = v@;
    let mut cols: Vec<String> = Vec::new();
    let mut j = i;
    proof {
        assert(strings_view(cols@) =~= Seq::<Seq<char>>::empty());
        match columns_from(s, i as int, e as int, d) {
            Ok(c) => assert(strings_view(cols@) + c =~= c),
            Err(_) => {},
        }
    }
    loop
        invariant
            s == v@,
            i <= j <= e <= v.len(),
            columns_from(s, i as int, e as int, d) == (match columns_from(s, j as int, e as int, d) {
                Ok(rest) => Ok(strings_view(cols@) + rest),
                Err(m) => Err::<Seq<Seq<char>>, Seq<char>>(m),
            }),
        decreases e - j,
    {
        let ghost j0 = j;
        let ghost before = strings_view(cols@);
        let a = skip_spaces_exec(v, j, e, true);
        if a >= e || v[a] == '\n' {
            proof {
                assert(before + Seq::<Seq<char>>::empty() =~= before);
            }
            return Ok(cols);
        }
        if v[a] == '"' {
            proof {
                reveal_strlit("Unterminated quoted string in columns");
                lemma_quoted_text_bounds(s, a + 1, e as int, "Unterminated quoted string in columns"@);
            }
            let (t, k) = match read_quoted(v, a + 1, e, "Unterminated quoted string in columns") {
                Ok(x) => x,
                Err(m) => {
                    return Err(m);
                },
            };
            let b = skip_spaces_exec(v, k, e, false);
            if b >= e {
                cols.push(t);
                proof {
                    assert(strings_view(cols@) =~= before + seq![t@]);
                }
                return Ok(cols);
            }
            if v[b] != d {
                let mut m = String::from_str("expected delimiter ");
                m.push(d);
                m.append(" after quoted column");
                proof {
                    reveal_strlit("expected delimiter ");
                    reveal_strlit(" after quoted column");
                }
                return Err(m);
            }
            cols.push(t);
            proof {
                assert(strings_view(cols@) =~= before.push(t@));
                match columns_from(s, b + 1, e as int, d) {
                    Ok(rest) => assert(before + (seq![t@] + rest) =~= strings_view(cols@) + rest),
                    Err(_) => {},
                }
            }
            j = b + 1;
        } else {
            let mut k = a;
            while k < e && v[k] != d && v[k] != '\n'
                invariant
                    a <= k <= e <= v.len(),
                    column_end(v@, k as int, e as int, d) == column_end(v@, a as int, e as int, d),
                decreases e - k,
            {
                k += 1;
            }
            let (ta, tb) = trim_bounds(v, a, k);
            let item = crate::text::string_of(v, ta, tb);
            cols.push(item);
            proof {
                assert(strings_view(cols@) =~= before.push(item@));
            }
            if k < e && v[k] == d {
                proof {
                    match columns_from(s, k + 1, e as int, d) {
                        Ok(rest) => assert(before + (seq![item@] + rest) =~= strings_view(cols@) + rest),
                        Err(_) => {},
                    }
                }
                j = k + 1;
            } else {
                proof {
                    assert(before + seq![item@] =~= strings_view(cols@));
                }
                return Ok(cols);
            }
        }
    }
}

/// The count and delimiter of a bracket `s[lo..hi]`: after spaces and
/// carriage returns, one or more digits that `usize` holds, then the
/// delimiter if anything follows.
pub open spec fn bracket_content(s: Seq<char>, lo: int, hi: int) -> Option<(usize, Option<char>)> {
    let a = skip_spaces(s, lo, hi, true);
    let j = digit_end(s, a, hi);
    if j == a {
        None
    } else {
        match crate::parser::numbers::usize_of(s.subrange(a, j)) {
            None => None,
            Some(c) => Some((c, if j < hi { Some(s[j]) } else { None })),
        }
    }
}

/// The first index from `i` before `e` that is not a decimal digit.
pub open spec fn digit_end(s: Seq<char>, i: int, e: int) -> int
    decreases e - i,
{
    if 0 <= i < e && i < s.len() && '0' <= s[i] && s[i] <= '9' {
        digit_end(s, i + 1, e)
    } else {
        i
    }
}

fn read_bracket(v: &Vec<char>, lo: usize, hi: usize) -> (r: Option<(usize, Option<char>)>)
    requires
        lo <= hi <= v.len(),
    ensures
        r == bracket_content(v@, lo as int, hi as int),
{
    let a = skip_spaces_exec(v, lo, hi, true);
    let mut j = a;
    while j < hi && '0' <= v[j] && v[j] <= '9'
        invariant
            a <= j <= hi <= v.len(),
            digit_end(v@, j as int, hi as int) == digit_end(v@, a as int, hi as int),
        decreases hi - j,
    {
        j += 1;
    }
    if j == a {
        return None;
    }
    let digits = slice_of(v, a, j);
    match crate::parser::numbers::parse_usize(&digits) {
        None => None,
        Some(c) => Some((c, if j < hi { Some(v[j]) } else { None })),
    }
}

/// The last index in `s[lo..hi]` holding `c`.
pub open spec fn rfind(s: Seq<char>, lo: int, hi: int, c: char) -> Option<int>
    decreases hi - lo,
{
    if !(lo < hi) {
        None
    } else if s[hi - 1] == c {
        Some(hi - 1)
    } else {
        rfind(s, lo, hi - 1, c)
    }
}

fn rfind_exec(v: &Vec<char>, lo: usize, hi: usize, c: char) -> (r: Option<usize>)
    requires
        lo <= hi <= v.len(),
    ensures
        match r {
            Some(k) => rfind(v@, lo as int, hi as int, c) == Some(k as int) && lo <= k < hi && v@[k as int] == c,
            None => rfind(v@, lo as int, hi as int, c) is None,
        },
{
    let mut k = hi;
    while k > lo
        invariant
            lo <= k <= hi <= v.len(),
            rfind(v@, lo as int, k as int, c) == rfind(v@, lo as int, hi as int, c),
        decreases k,
    {
        if v[k - 1] == c {
            return Some(k - 1);
        }
        k -= 1;
    }
    None
}

/// The model of an array header: the key, the declared count, the
/// delimiter, the column names of a tabular header, and whether it has no
/// key (a root array).
pub struct HeaderView {
    pub name: Seq<char>,
    pub count: usize,
    pub delim: Option<char>,
    pub cols: Option<Seq<Seq<char>>>,
    pub is_root: bool,
}

/// Whether `t` holds a bracket or a brace.
pub open spec fn has_bracket(t: Seq<char>) -> bool {
    t.contains('[') || t.contains(']') || t.contains('{') || t.contains('}')
}

/// The header with its key read from `s[lo..hi]`: none when the key fails
/// to read or, unquoted, holds a bracket or a brace.
pub open spec fn named_header(
    s: Seq<char>,
    lo: int,
    hi: int,
    count: usize,
    delim: Option<char>,
    cols: Option<Seq<Seq<char>>>,
) -> Option<HeaderView> {
    let (na, nb) = trim_range(s, lo, hi);
    match key_text(s, na, nb) {
        Err(_) => None,
        Ok(name) => if !(nb > na && s[na] == '"') && has_bracket(name) {
            None
        } else {
            Some(HeaderView { name, count, delim, cols, is_root: nb == na })
        },
    }
}

/// The array header that the key part `s[lo..hi]` spells, if any:
/// `key[N]` or `key[N]{cols}`, the bracket holding the count and maybe a
/// delimiter.
pub open spec fn array_header(s: Seq<char>, lo: int, hi: int) -> Option<HeaderView> {
    let (a, b) = trim_range(s, lo, hi);
    if b > a && s[b - 1] == '}' {
        match rfind(s, a, b, '{') {
            None => None,
            Some(bs) => {
                let (pa, pb) = trim_range(s, a, bs);
                if !(pb > pa && s[pb - 1] == ']') {
                    None
                } else {
                    match rfind(s, pa, pb, '[') {
                        None => None,
                        Some(ks) => match bracket_content(s, ks + 1, pb - 1) {
                            None => None,
                            Some((count, delim)) => match columns_from(
                                s,
                                bs + 1,
                                b - 1,
                                match delim {
                                    Some(c) => c,
                                    None => ',',
                                },
                            ) {
                                Err(_) => None,
                                Ok(cols) => named_header(s, pa, ks, count, delim, Some(cols)),
                            },
                        },
                    }
                }
            },
        }
    } else if b > a && s[b - 1] == ']' {
        match rfind(s, a, b, '[') {
            None => None,
            Some(ks) => match bracket_content(s, ks + 1, b - 1) {
                None => None,
                Some((count, delim)) => named_header(s, a, ks, count, delim, None),
            },
        }
    } else {
        None
    }
}

/// An array header read from the text.
pub struct Header {
    pub name: String,
    pub count: usize,
    pub delim: Option<char>,
    pub cols: Option<Vec<String>>,
    pub is_root: bool,
}

pub open spec fn header_view(h: Header) -> HeaderView {
    HeaderView {
        name: h.name@,
        count: h.count,
        delim: h.delim,
        cols: match h.cols {
            Some(c) => Some(strings_view(c@)),
            None => None,
        },
        is_root: h.is_root,
    }
}

fn contains_bracket(t: &String) -> (b: bool)
    ensures
        b == has_bracket(t@),
{
    let v = crate::text::chars_of(t.as_str());
    let mut k: usize = 0;
    while k < v.len()
        invariant
            0 <= k <= v.len(),
            v@ == t@,
            forall|j: int| 0 <= j < k ==> v@[j] != '[' && v@[j] != ']' && v@[j] != '{' && v@[j] != '}',
        decreases v.len() - k,
    {
        if v[k] == '[' || v[k] == ']' || v[k] == '{' || v[k] == '}' {
            proof {
                assert(t@[k as int] == v@[k as int]);
            }
            return true;
        }
        k += 1;
    }
    proof {
        assert(!t@.contains('[') && !t@.contains(']') && !t@.contains('{') && !t@.contains('}')) by {
            assert forall|j: int| 0 <= j < t@.len() implies t@[j] != '[' && t@[j] != ']' && t@[j] != '{' && t@[j]
                != '}' by {
                assert(t@[j] == v@[j]);
            }
        }
    }
    false
}

fn read_named_header(
    v: &Vec<char>,
    lo: usize,
    hi: usize,
    count: usize,
    delim: Option<char>,
    cols: Option<Vec<String>>,
) -> (r: Option<Header>)
    requires
        lo <= hi <= v.len(),
    ensures
        match r {
            Some(h) => named_header(v@, lo as int, hi as int, count, delim, match cols {
                Some(c) => Some(strings_view(c@)),
                None => None,
            }) == Some(header_view(h)),
            None => named_header(v@, lo as int, hi as int, count, delim, match cols {
                Some(c) => Some(strings_view(c@)),
                None => None,
            }) is None,
        },
{
    let (na, nb) = trim_bounds(v, lo, hi);
    match read_key(v, na, nb) {
        Err(_) => None,
        Ok(name) => {
            if !(nb > na && v[na] == '"') && contains_bracket(&name) {
                None
            } else {
                Some(Header { name, count, delim, cols, is_root: nb == na })
            }
        },
    }
}

/// Reads the array header that the key part `v[lo..hi]` spells, if any.
pub fn read_array_header(v: &Vec<char>, lo: usize, hi: usize) -> (r: Option<Header>)
    requires
        lo <= hi <= v.len(),
    ensures
        match r {
            Some(h) => array_header(v@, lo as int, hi as int) == Some(header_view(h)),
            None => array_header(v@, lo as int, hi as int) is None,
        },
{
    let (a, b) = trim_bounds(v, lo, hi);
    if b > a && v[b - 1] == '}' {
        let bs = match rfind_exec(v, a, b, '{') {
            None => return None,
            Some(k) => k,
        };
        let (pa, pb) = trim_bounds(v, a, bs);
        if !(pb > pa && v[pb - 1] == ']') {
            return None;
        }
        let ks = match rfind_exec(v, pa, pb, '[') {
            None => return None,
            Some(k) => k,
        };
        let (count, delim) = match read_bracket(v, ks + 1, pb - 1) {
            None => return None,
            Some(x) => x,
        };
        let d = match delim {
            Some(c) => c,
            None => ',',
        };
        let cols = match read_columns(v, bs + 1, b - 1, d) {
            Err(_) => return None,
            Ok(c) => c,
        };
        read_named_header(v, pa, ks, count, delim, Some(cols))
    } else if b > a && v[b - 1] == ']' {
        let ks = match rfind_exec(v, a, b, '[') {
            None => return None,
            Some(k) => k,
        };
        let (count, delim) = match read_bracket(v, ks + 1, b - 1) {
            None => return None,
            Some(x) => x,
        };
        read_named_header(v, a, ks, count, delim, None)
    } else {
        None
    }
}

} // verus!
