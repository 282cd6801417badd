//! Number literals: the texts std's `u64`, `i64`, `usize` and `f64` parsers
//! accept, and the conversion of a number token into a `NumberValue`.
use super::error::{ErrView, ParseError, ParseErrorKind};
use super::lexical::{digits_end, lemma_digits_end};
use crate::ast::node::NumberView;
use crate::ast::{NumberValue, Span};
use crate::text::{all_digits, chars_of, decimal_value, digit_value, is_digit};
use vstd::prelude::*;

verus! {

/// The digits of an unsigned integer text: the text without one leading `+`.
pub open spec fn unsigned_digits(t: Seq<char>) -> Seq<char> {
    if t.len() > 0 && t[0] == '+' {
        t.drop_first()
    } else {
        t
    }
}

/// The value of an unsigned integer text as std's integer parsers read it
/// (an optional `+`, then one or more decimal digits), if it is one.
pub open spec fn unsigned_value(t: Seq<char>) -> Option<nat> {
    let d = unsigned_digits(t);
    if d.len() > 0 && all_digits(d) {
        Some(decimal_value(d))
    } else {
        None
    }
}

/// What `str::parse::<u64>` gives for `t`.
pub open spec fn u64_of(t: Seq<char>) -> Option<u64> {
    match unsigned_value(t) {
        Some(v) => if v <= u64::MAX {
            Some(v as u64)
        } else {
            None
        },
        None => None,
    }
}

/// What `str::parse::<usize>` gives for `t`.
pub open spec fn usize_of(t: Seq<char>) -> Option<usize> {
    match unsigned_value(t) {
        Some(v) => if v <= usize::MAX {
            Some(v as usize)
        } else {
            None
        },
        None => None,
    }
}

/// What `str::parse::<i64>` gives for a text that starts with `-`.
pub open spec fn negative_i64_of(t: Seq<char>) -> Option<i64> {
    let d = t.drop_first();
    if t.len() > 1 && t[0] == '-' && all_digits(d) && decimal_value(d) <= 0x8000_0000_0000_0000 {
        Some((0 - decimal_value(d)) as i64)
    } else {
        None
    }
}

/// Whether `t` is a decimal floating-point literal that std's `f64` parser
/// accepts: an optional sign, digits with at most one `.` and at least one
/// digit, then optionally `e` or `E`, an optional sign and one or more digits.
pub open spec fn float_syntax(t: Seq<char>) -> bool {
    let i0: int = if t.len() > 0 && (t[0] == '+' || t[0] == '-') { 1 } else { 0 };
    let i1 = digits_end(t, i0);
    let has_dot = i1 < t.len() && t[i1] == '.';
    let i2 = if has_dot { digits_end(t, i1 + 1) } else { i1 };
    let mantissa_digits = (i1 - i0) + if has_dot { i2 - (i1 + 1) } else { 0 };
    &&& mantissa_digits > 0
    &&& (i2 == t.len() || (
        (t[i2] == 'e' || t[i2] == 'E') && {
            let k: int = if i2 + 1 < t.len() && (t[i2 + 1] == '+' || t[i2 + 1] == '-') { i2 + 2 } else { i2 + 1 };
            let m = digits_end(t, k);
            m > k && m == t.len()
        }))
}

/// The value of a number token, or the error the parser reports for it: a
/// text holding `.`, `e` or `E` is a float, one starting with `-` a signed
/// integer and any other an unsigned integer.
pub open spec fn number_value_spec(t: Seq<char>, span: Span) -> Result<NumberView, ErrView> {
    let invalid = ErrView { kind: ParseErrorKind::InvalidNumber, span, context: None };
    if t.contains('.') || t.contains('e') || t.contains('E') {
        if float_syntax(t) {
            Ok(NumberView::Float(t))
        } else {
            Err(invalid)
        }
    } else if t.len() > 0 && t[0] == '-' {
        match negative_i64_of(t) {
            Some(v) => Ok(NumberView::NegInt(v)),
            None => Err(invalid),
        }
    } else {
        match u64_of(t) {
            Some(v) => Ok(NumberView::PosInt(v)),
            None => Err(invalid),
        }
    }
}

/// The view of a parse result for a number value.
pub open spec fn number_result_view(r: Result<NumberValue, ParseError>) -> Result<NumberView, ErrView> {
    match r {
        Ok(v) => Ok(v@),
        Err(e) => Err(e@),
    }
}

proof fn lemma_decimal_take_step(s: Seq<char>, i: int)
    requires
        0 <= i < s.len(),
    ensures
        decimal_value(s.take(i + 1)) == decimal_value(s.take(i)) * 10 + digit_value(s[i]),
{
    assert(s.take(i + 1).drop_last() =~= s.take(i));
}

proof fn lemma_decimal_prefix_le(s: Seq<char>, i: int, j: int)
    requires
        0 <= i <= j <= s.len(),
    ensures
        decimal_value(s.take(i)) <= decimal_value(s.take(j)),
    decreases j - i,
{
    if i < j {
        lemma_decimal_prefix_le(s, i, j - 1);
        lemma_decimal_take_step(s, j - 1);
    }
}

/// Reads the digits `v[from..]` as a decimal number, or `None` when one is not
/// a digit, when there are none, or when the value exceeds `limit`.
fn read_decimal(v: &Vec<char>, from: usize, limit: u64) -> (r: Option<u64>)
    requires
        from <= v.len(),
    ensures
        ({
            let d = v@.subrange(from as int, v.len() as int);
            match r {
                Some(n) => d.len() > 0 && all_digits(d) && n == decimal_value(d) && n <= limit,
                None => !(d.len() > 0 && all_digits(d) && decimal_value(d) <= limit),
            }
        }),
{
    let ghost d = v@.subrange(from as int, v.len() as int);
    if from == v.len() {
        return None;
    }
    let mut acc: u128 = 0;
    let mut i = from;
    while i < v.len()
        invariant
            from <= i <= v.len(),
            d == v@.subrange(from as int, v.len() as int),
            forall|k: int| 0 <= k < i - from ==> is_digit(#[trigger] d[k]),
            acc == decimal_value(d.take(i - from)),
            acc <= limit,
        decreases v.len() - i,
    {
        let c = v[i];
        if !('0' <= c && c <= '9') {
            proof {
                assert(!is_digit(d[i - from]));
            }
            return None;
        }
        proof {
            lemma_decimal_take_step(d, i - from);
        }
        acc = acc * 10 + ((c as u32) - ('0' as u32)) as u128;
        i += 1;
        if acc > limit as u128 {
            proof {
                lemma_decimal_prefix_le(d, i - from, d.len() as int);
                assert(d.take(d.len() as int) =~= d);
            }
            return None;
        }
    }
    proof {
        assert(d.take(d.len() as int) =~= d);
    }
    Some(acc as u64)
}

proof fn lemma_unsigned_digits(v: Seq<char>)
    ensures
        v.len() > 0 && v[0] == '+' ==> unsigned_digits(v) =~= v.subrange(1, v.len() as int),
        !(v.len() > 0 && v[0] == '+') ==> unsigned_digits(v) =~= v.subrange(0, v.len() as int),
{
}

/// `str::parse::<u64>` on the characters `v`.
pub fn parse_u64(v: &Vec<char>) -> (r: Option<u64>)
    ensures
        r == u64_of(v@),
{
    let from: usize = if v.len() > 0 && v[0] == '+' { 1 } else { 0 };
    proof {
        lemma_unsigned_digits(v@);
    }
    read_decimal(v, from, u64::MAX)
}

/// `str::parse::<usize>` on the characters `v`.
pub fn parse_usize(v: &Vec<char>) -> (r: Option<usize>)
    ensures
        r == usize_of(v@),
{
    let from: usize = if v.len() > 0 && v[0] == '+' { 1 } else { 0 };
    proof {
        lemma_unsigned_digits(v@);
    }
    match read_decimal(v, from, usize::MAX as u64) {
        Some(n) => Some(n as usize),
        None => None,
    }
}

/// `str::parse::<i64>` on characters `v` that start with `-`.
pub(crate) fn parse_negative_i64(v: &Vec<char>) -> (r: Option<i64>)
    requires
        v.len() > 0,
        v@[0] == '-',
    ensures
        r == negative_i64_of(v@),
{
    proof {
        assert(v@.drop_first() =~= v@.subrange(1, v.len() as int));
    }
    match read_decimal(v, 1, 0x8000_0000_0000_0000u64) {
        Some(n) => {
            if n == 0x8000_0000_0000_0000u64 {
                Some(i64::MIN)
            } else {
                let m = n as i64;
                Some(-m)
            }
        },
        None => None,
    }
}

/// End of the run of digits in `v` that starts at `i`.
fn digit_run_end(v: &Vec<char>, i: usize) -> (e: usize)
    requires
        i <= v.len(),
    ensures
        e as int == digits_end(v@, i as int),
        i <= e <= v.len(),
{
    let mut j = i;
    while j < v.len() && '0' <= v[j] && v[j] <= '9'
        invariant
            i <= j <= v.len(),
            digits_end(v@, j as int) == digits_end(v@, i as int),
        decreases v.len() - j,
    {
        j += 1;
    }
    proof {
        lemma_digits_end(v@, j as int);
    }
    j
}

/// Whether `v` is a float literal std's `f64` parser accepts.
pub fn is_float_syntax(v: &Vec<char>) -> (b: bool)
    ensures
        b == float_syntax(v@),
{
    let n = v.len();
    let i0: usize = if n > 0 && (v[0] == '+' || v[0] == '-') { 1 } else { 0 };
    let i1 = digit_run_end(v, i0);
    let has_dot = i1 < n && v[i1] == '.';
    let i2 = if has_dot { digit_run_end(v, i1 + 1) } else { i1 };
    let mantissa_digits = (i1 - i0) + if has_dot { i2 - (i1 + 1) } else { 0 };
    if mantissa_digits == 0 {
        return false;
    }
    if i2 == n {
        return true;
    }
    if !(v[i2] == 'e' || v[i2] == 'E') {
        return false;
    }
    let k: usize = if i2 + 1 < n && (v[i2 + 1] == '+' || v[i2 + 1] == '-') { i2 + 2 } else { i2 + 1 };
    let m = digit_run_end(v, k);
    m > k && m == n
}

/// Whether `c` occurs in `v`.
fn contains_char(v: &Vec<char>, c: char) -> (b: bool)
    ensures
        b == v@.contains(c),
{
    let mut i: usize = 0;
    while i < v.len()
        invariant
            0 <= i <= v.len(),
            forall|k: int| 0 <= k < i ==> v@[k] != c,
        decreases v.len() - i,
    {
        if v[i] == c {
            return true;
        }
        i += 1;
    }
    false
}

/// Convert the text of a number token into a `NumberValue`.
pub fn number_value(text: &str, span: Span) -> (r: Result<NumberValue, ParseError>)
    ensures
        number_result_view(r) == number_value_spec(text@, span),
{
    let v = chars_of(text);
    if contains_char(&v, '.') || contains_char(&v, 'e') || contains_char(&v, 'E') {
        if is_float_syntax(&v) {
            Ok(NumberValue::Float(String::from_str(text)))
        } else {
            Err(ParseError::new(ParseErrorKind::InvalidNumber, span))
        }
    } else if v.len() > 0 && v[0] == '-' {
        match parse_negative_i64(&v) {
            Some(n) => Ok(NumberValue::NegInt(n)),
            None => Err(ParseError::new(ParseErrorKind::InvalidNumber, span)),
        }
    } else {
        match parse_u64(&v) {
            Some(n) => Ok(NumberValue::PosInt(n)),
            None => Err(ParseError::new(ParseErrorKind::InvalidNumber, span)),
        }
    }
}

} // verus!
