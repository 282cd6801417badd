//! The lexical grammar of TOON as spec functions over character sequences:
//! where each kind of token ends, and what its value is.
use crate::text::is_digit;
use vstd::prelude::*;

verus! {

/// `s[i] == c`, false out of range.
pub open spec fn char_is(s: Seq<char>, i: int, c: char) -> bool {
    0 <= i < s.len() && s[i] == c
}

/// ASCII letter.
pub open spec fn is_alpha(c: char) -> bool {
    ('a' <= c && c <= 'z') || ('A' <= c && c <= 'Z')
}

/// Character allowed inside an identifier: `[A-Za-z0-9_]`.
pub open spec fn is_ident_char(c: char) -> bool {
    is_alpha(c) || is_digit(c) || c == '_'
}

/// ASCII hexadecimal digit.
pub open spec fn is_hex_digit(c: char) -> bool {
    is_digit(c) || ('a' <= c && c <= 'f') || ('A' <= c && c <= 'F')
}

/// Character that continues a leading-zero literal such as `007a.b`.
pub open spec fn is_zero_tail_char(c: char) -> bool {
    is_ident_char(c) || c == '.'
}

/// First index at or after `i` whose character is not an identifier character.
pub open spec fn ident_end(s: Seq<char>, i: int) -> int
    decreases s.len() - i,
{
    if 0 <= i < s.len() && is_ident_char(s[i]) {
        ident_end(s, i + 1)
    } else {
        i
    }
}

/// First index at or after `i` whose character is not a decimal digit.
pub open spec fn digits_end(s: Seq<char>, i: int) -> int
    decreases s.len() - i,
{
    if 0 <= i < s.len() && is_digit(s[i]) {
        digits_end(s, i + 1)
    } else {
        i
    }
}

/// First index at or after `i` whose character is not a hexadecimal digit.
pub open spec fn hex_end(s: Seq<char>, i: int) -> int
    decreases s.len() - i,
{
    if 0 <= i < s.len() && is_hex_digit(s[i]) {
        hex_end(s, i + 1)
    } else {
        i
    }
}

/// First index at or after `i` whose character cannot continue a leading-zero literal.
pub open spec fn zero_tail_end(s: Seq<char>, i: int) -> int
    decreases s.len() - i,
{
    if 0 <= i < s.len() && is_zero_tail_char(s[i]) {
        zero_tail_end(s, i + 1)
    } else {
        i
    }
}

/// First index at or after `i` holding a line feed (or the end).
pub open spec fn line_end(s: Seq<char>, i: int) -> int
    decreases s.len() - i,
{
    if 0 <= i < s.len() && s[i] != '\n' {
        line_end(s, i + 1)
    } else {
        i
    }
}

/// Where the trivia (blanks, `#` line comments, `/* */` block comments)
/// starting at `i` ends.
pub open spec fn trivia_end(s: Seq<char>, i: int) -> int
    decreases s.len() - i, 1int,
{
    if i < 0 || i >= s.len() {
        i
    } else if s[i] == ' ' || s[i] == '\t' || s[i] == '\r' {
        trivia_end(s, i + 1)
    } else if s[i] == '#' {
        line_end(s, i + 1)
    } else if s[i] == '/' && char_is(s, i + 1, '*') {
        block_comment_end(s, i + 2)
    } else {
        i
    }
}

/// Inside a block comment at `i`: where the trivia ends once the comment is
/// closed (or the end of input, for an unterminated comment).
pub open spec fn block_comment_end(s: Seq<char>, i: int) -> int
    decreases s.len() - i, 0int,
{
    if i < 0 || i >= s.len() {
        if i < 0 { i } else { s.len() as int }
    } else if s[i] == '*' && char_is(s, i + 1, '/') {
        trivia_end(s, i + 2)
    } else {
        block_comment_end(s, i + 1)
    }
}

/// First index at or after `i` that is neither a space nor a tab.
pub open spec fn blanks_end(s: Seq<char>, i: int) -> int
    decreases s.len() - i,
{
    if 0 <= i < s.len() && (s[i] == ' ' || s[i] == '\t') {
        blanks_end(s, i + 1)
    } else {
        i
    }
}

/// Number of spaces in `s[i..j]`.
pub open spec fn space_count(s: Seq<char>, i: int, j: int) -> nat
    decreases j - i,
{
    if i >= j {
        0
    } else {
        space_count(s, i, j - 1) + if s[j - 1] == ' ' { 1nat } else { 0nat }
    }
}

/// Whether `s[i..j]` holds a tab.
pub open spec fn has_tab(s: Seq<char>, i: int, j: int) -> bool {
    exists|k: int| i <= k < j && s[k] == '\t'
}

/// Whether a number token starts at `i`: a digit, or `-` then a digit.
pub open spec fn number_starts(s: Seq<char>, i: int) -> bool {
    (0 <= i < s.len() && is_digit(s[i])) || (char_is(s, i, '-') && 0 <= i + 1 < s.len()
        && is_digit(s[i + 1]))
}

/// Index after the optional minus sign of a number at `i`.
pub open spec fn after_sign(s: Seq<char>, i: int) -> int {
    if char_is(s, i, '-') { i + 1 } else { i }
}

/// Whether the number at `i` is a hexadecimal literal `0x...`.
pub open spec fn is_hex_literal(s: Seq<char>, i: int) -> bool {
    let j = after_sign(s, i);
    char_is(s, j, '0') && (char_is(s, j + 1, 'x') || char_is(s, j + 1, 'X'))
}

/// Whether the number at `i` has a leading zero followed by a digit (`05`),
/// which TOON reads as a string.
pub open spec fn is_leading_zero_literal(s: Seq<char>, i: int) -> bool {
    let j = after_sign(s, i);
    !is_hex_literal(s, i) && char_is(s, j, '0') && 0 <= j + 1 < s.len() && is_digit(s[j + 1])
}

/// End of the integer part of a decimal number at `i`.
pub open spec fn int_part_end(s: Seq<char>, i: int) -> int {
    let j = after_sign(s, i);
    if char_is(s, j, '0') { j + 1 } else { digits_end(s, j) }
}

/// End of the fraction part (if any) that starts at `k`.
pub open spec fn fraction_end(s: Seq<char>, k: int) -> int {
    if char_is(s, k, '.') && 0 <= k + 1 < s.len() && is_digit(s[k + 1]) {
        digits_end(s, k + 1)
    } else {
        k
    }
}

/// End of the exponent part (if any) that starts at `k`.
pub open spec fn exponent_end(s: Seq<char>, k: int) -> int {
    if char_is(s, k, 'e') || char_is(s, k, 'E') {
        let e = if char_is(s, k + 1, '+') || char_is(s, k + 1, '-') { k + 2 } else { k + 1 };
        digits_end(s, e)
    } else {
        k
    }
}

/// Where a number literal starting at `i` ends.
pub open spec fn number_end(s: Seq<char>, i: int) -> int {
    let j = after_sign(s, i);
    if is_hex_literal(s, i) {
        hex_end(s, j + 2)
    } else if is_leading_zero_literal(s, i) {
        zero_tail_end(s, j + 1)
    } else {
        exponent_end(s, fraction_end(s, int_part_end(s, i)))
    }
}

/// Outcome of reading a quoted string whose content starts at some index.
pub enum QuotedScan {
    /// Closed by `"`; `end` is after the closing quote.
    Closed { end: int, value: Seq<char> },
    /// A line feed or the end of input came before the closing quote.
    Unterminated { end: int },
    /// A backslash followed by a character that is not a known escape.
    BadEscape { end: int, ch: char },
    /// A backslash at the end of input.
    EscapeAtEnd { end: int },
}

/// The character an escape letter stands for, if it is one of `n r t " \`.
pub open spec fn escape_value(c: char) -> Option<char> {
    if c == 'n' {
        Some('\n')
    } else if c == 'r' {
        Some('\r')
    } else if c == 't' {
        Some('\t')
    } else if c == '"' {
        Some('"')
    } else if c == '\\' {
        Some('\\')
    } else {
        None
    }
}

/// Reading quoted-string content at `i`, with `acc` decoded so far.
pub open spec fn quoted_scan(s: Seq<char>, i: int, acc: Seq<char>) -> QuotedScan
    decreases s.len() - i,
{
    if i < 0 || i >= s.len() || s[i] == '\n' {
        QuotedScan::Unterminated { end: i }
    } else if s[i] == '"' {
        QuotedScan::Closed { end: i + 1, value: acc }
    } else if s[i] == '\\' {
        if i + 1 >= s.len() {
            QuotedScan::EscapeAtEnd { end: i + 1 }
        } else {
            match escape_value(s[i + 1]) {
                Some(v) => quoted_scan(s, i + 2, acc.push(v)),
                None => QuotedScan::BadEscape { end: i + 1, ch: s[i + 1] },
            }
        }
    } else {
        quoted_scan(s, i + 1, acc.push(s[i]))
    }
}

/// Whether `s[i..i+3]` is `"""`.
pub open spec fn triple_quote_at(s: Seq<char>, i: int) -> bool {
    char_is(s, i, '"') && char_is(s, i + 1, '"') && char_is(s, i + 2, '"')
}

/// First index at or after `i` where `"""` starts, if any.
pub open spec fn triple_quote_from(s: Seq<char>, i: int) -> Option<int>
    decreases s.len() - i,
{
    if i < 0 || i >= s.len() {
        None
    } else if triple_quote_at(s, i) {
        Some(i)
    } else {
        triple_quote_from(s, i + 1)
    }
}

/// First index at or after `i` holding `}`, if any.
pub open spec fn close_brace_from(s: Seq<char>, i: int) -> Option<int>
    decreases s.len() - i,
{
    if i < 0 || i >= s.len() {
        None
    } else if s[i] == '}' {
        Some(i)
    } else {
        close_brace_from(s, i + 1)
    }
}

/// Control characters that TOON refuses (other than tab, line feed, carriage return).
pub open spec fn is_refused_control(c: char) -> bool {
    let v = c as u32;
    v <= 0x08 || v == 0x0B || v == 0x0C || (0x0E <= v && v <= 0x1F) || v == 0x7F
}

/// Single-character structural tokens.
pub open spec fn is_structural(c: char) -> bool {
    c == ':' || c == ',' || c == '[' || c == ']' || c == '{' || c == '}' || c == '-'
}

// ---------------------------------------------------------------------------
// Facts about the run functions.
// ---------------------------------------------------------------------------

pub proof fn lemma_ident_end(s: Seq<char>, i: int)
    requires
        0 <= i <= s.len(),
    ensures
        i <= ident_end(s, i) <= s.len(),
        forall|k: int| i <= k < ident_end(s, i) ==> is_ident_char(#[trigger] s[k]),
    decreases s.len() - i,
{
    if i < s.len() && is_ident_char(s[i]) {
        lemma_ident_end(s, i + 1);
    }
}

pub proof fn lemma_digits_end(s: Seq<char>, i: int)
    requires
        0 <= i <= s.len(),
    ensures
        i <= digits_end(s, i) <= s.len(),
        forall|k: int| i <= k < digits_end(s, i) ==> is_digit(#[trigger] s[k]),
    decreases s.len() - i,
{
    if i < s.len() && is_digit(s[i]) {
        lemma_digits_end(s, i + 1);
    }
}

pub proof fn lemma_hex_end(s: Seq<char>, i: int)
    requires
        0 <= i <= s.len(),
    ensures
        i <= hex_end(s, i) <= s.len(),
    decreases s.len() - i,
{
    if i < s.len() && is_hex_digit(s[i]) {
        lemma_hex_end(s, i + 1);
    }
}

pub proof fn lemma_zero_tail_end(s: Seq<char>, i: int)
    requires
        0 <= i <= s.len(),
    ensures
        i <= zero_tail_end(s, i) <= s.len(),
    decreases s.len() - i,
{
    if i < s.len() && is_zero_tail_char(s[i]) {
        lemma_zero_tail_end(s, i + 1);
    }
}

pub proof fn lemma_line_end(s: Seq<char>, i: int)
    requires
        0 <= i <= s.len(),
    ensures
        i <= line_end(s, i) <= s.len(),
    decreases s.len() - i,
{
    if i < s.len() && s[i] != '\n' {
        lemma_line_end(s, i + 1);
    }
}

pub proof fn lemma_blanks_end(s: Seq<char>, i: int)
    requires
        0 <= i <= s.len(),
    ensures
        i <= blanks_end(s, i) <= s.len(),
    decreases s.len() - i,
{
    if i < s.len() && (s[i] == ' ' || s[i] == '\t') {
        lemma_blanks_end(s, i + 1);
    }
}

pub proof fn lemma_trivia_end(s: Seq<char>, i: int)
    requires
        0 <= i <= s.len(),
    ensures
        i <= trivia_end(s, i) <= s.len(),
    decreases s.len() - i, 1int,
{
    if i < s.len() {
        if s[i] == ' ' || s[i] == '\t' || s[i] == '\r' {
            lemma_trivia_end(s, i + 1);
        } else if s[i] == '#' {
            lemma_line_end(s, i + 1);
        } else if s[i] == '/' && char_is(s, i + 1, '*') {
            lemma_block_comment_end(s, i + 2);
        }
    }
}

pub proof fn lemma_block_comment_end(s: Seq<char>, i: int)
    requires
        0 <= i <= s.len(),
    ensures
        i <= block_comment_end(s, i) <= s.len(),
    decreases s.len() - i, 0int,
{
    if i < s.len() {
        if s[i] == '*' && char_is(s, i + 1, '/') {
            lemma_trivia_end(s, i + 2);
        } else {
            lemma_block_comment_end(s, i + 1);
        }
    }
}

} // verus!
