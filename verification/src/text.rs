//! Character-level helpers shared by the scanner, the encoder and the
//! position conversions: UTF-8/UTF-16 widths, source positions of character
//! indices, and decimal/hexadecimal rendering of integers.
use vstd::prelude::*;

verus! {

/// Appends a character to a `String` (std's `String::push`).
pub assume_specification[ std::string::String::push ](s: &mut std::string::String, ch: char)
    ensures
        final(s)@ == old(s)@.push(ch),
;

/// The characters of a string slice, in order.
pub fn chars_of(s: &str) -> (v: Vec<char>)
    ensures
        v@ == s@,
{
    let mut v: Vec<char> = Vec::new();
    for c in it: s.chars()
        invariant
            v@ == it.seq().take(it.index() as int),
    {
        v.push(c);
    }
    v
}

/// Number of bytes `c` takes in UTF-8.
pub open spec fn utf8_width(c: char) -> nat {
    if (c as u32) < 0x80 {
        1
    } else if (c as u32) < 0x800 {
        2
    } else if (c as u32) < 0x10000 {
        3
    } else {
        4
    }
}

/// Number of code units `c` takes in UTF-16.
pub open spec fn utf16_width(c: char) -> nat {
    if (c as u32) > 0xFFFF {
        2
    } else {
        1
    }
}

/// Byte length of the UTF-8 encoding of `s`.
pub open spec fn utf8_len(s: Seq<char>) -> nat
    decreases s.len(),
{
    if s.len() == 0 {
        0
    } else {
        utf8_len(s.drop_last()) + utf8_width(s.last())
    }
}

/// Code-unit length of the UTF-16 encoding of `s`.
pub open spec fn utf16_len(s: Seq<char>) -> nat
    decreases s.len(),
{
    if s.len() == 0 {
        0
    } else {
        utf16_len(s.drop_last()) + utf16_width(s.last())
    }
}

/// Number of line feeds in `s`.
pub open spec fn newline_count(s: Seq<char>) -> nat
    decreases s.len(),
{
    if s.len() == 0 {
        0
    } else {
        newline_count(s.drop_last()) + if s.last() == '\n' { 1nat } else { 0nat }
    }
}

/// Column reached after reading `s`: UTF-16 units since the last line feed,
/// not counting carriage returns.
pub open spec fn column_after(s: Seq<char>) -> nat
    decreases s.len(),
{
    if s.len() == 0 {
        0
    } else if s.last() == '\n' {
        0
    } else if s.last() == '\r' {
        column_after(s.drop_last())
    } else {
        column_after(s.drop_last()) + utf16_width(s.last())
    }
}

/// UTF-8 width of a character (`char::len_utf8`).
pub fn char_utf8_width(c: char) -> (n: u32)
    ensures
        n == utf8_width(c),
{
    let v = c as u32;
    if v < 0x80 {
        1
    } else if v < 0x800 {
        2
    } else if v < 0x10000 {
        3
    } else {
        4
    }
}

/// UTF-16 width of a character (`char::len_utf16`).
pub fn char_utf16_width(c: char) -> (n: u32)
    ensures
        n == utf16_width(c),
{
    if (c as u32) > 0xFFFF {
        2
    } else {
        1
    }
}

/// The bounds that the position measures of a prefix obey.
pub proof fn lemma_measure_bounds(s: Seq<char>)
    ensures
        utf8_len(s) <= 4 * s.len(),
        utf8_len(s) >= s.len(),
        utf16_len(s) <= 2 * s.len(),
        newline_count(s) <= s.len(),
        column_after(s) <= 2 * s.len(),
    decreases s.len(),
{
    if s.len() > 0 {
        lemma_measure_bounds(s.drop_last());
    }
}

/// Whether `c` is an ASCII decimal digit.
pub open spec fn is_digit(c: char) -> bool {
    '0' <= c && c <= '9'
}

/// The value of an ASCII decimal digit.
pub open spec fn digit_value(c: char) -> nat {
    ((c as u32) - ('0' as u32)) as nat
}

/// The value of a non-empty string of decimal digits.
pub open spec fn decimal_value(s: Seq<char>) -> nat
    decreases s.len(),
{
    if s.len() == 0 {
        0
    } else {
        decimal_value(s.drop_last()) * 10 + digit_value(s.last())
    }
}

/// Whether every character of `s` is a decimal digit.
pub open spec fn all_digits(s: Seq<char>) -> bool {
    forall|i: int| 0 <= i < s.len() ==> #[trigger] is_digit(s[i])
}

/// The decimal digits of `n`, most significant first, without leading zeros
/// (`"0"` for zero).
pub open spec fn decimal_digits(n: nat) -> Seq<char>
    decreases n,
{
    if n < 10 {
        seq![digit_char(n)]
    } else {
        decimal_digits(n / 10).push(digit_char(n % 10))
    }
}

/// The ASCII digit for a value below ten.
pub open spec fn digit_char(d: nat) -> char {
    if d == 0 { '0' }
    else if d == 1 { '1' }
    else if d == 2 { '2' }
    else if d == 3 { '3' }
    else if d == 4 { '4' }
    else if d == 5 { '5' }
    else if d == 6 { '6' }
    else if d == 7 { '7' }
    else if d == 8 { '8' }
    else { '9' }
}

/// The upper-case hexadecimal digit for a value below sixteen.
pub open spec fn hex_char(d: nat) -> char {
    if d < 10 { digit_char(d) }
    else if d == 10 { 'A' }
    else if d == 11 { 'B' }
    else if d == 12 { 'C' }
    else if d == 13 { 'D' }
    else if d == 14 { 'E' }
    else { 'F' }
}

fn exec_digit_char(d: u64) -> (c: char)
    requires
        d < 10,
    ensures
        c == digit_char(d as nat),
{
    if d == 0 { '0' }
    else if d == 1 { '1' }
    else if d == 2 { '2' }
    else if d == 3 { '3' }
    else if d == 4 { '4' }
    else if d == 5 { '5' }
    else if d == 6 { '6' }
    else if d == 7 { '7' }
    else if d == 8 { '8' }
    else { '9' }
}

fn exec_hex_char(d: u32) -> (c: char)
    requires
        d < 16,
    ensures
        c == hex_char(d as nat),
{
    if d < 10 {
        exec_digit_char(d as u64)
    } else if d == 10 { 'A' }
    else if d == 11 { 'B' }
    else if d == 12 { 'C' }
    else if d == 13 { 'D' }
    else if d == 14 { 'E' }
    else { 'F' }
}

/// Appends the decimal rendering of `n` to `out`.
pub fn push_decimal(out: &mut String, n: u64)
    ensures
        final(out)@ == old(out)@ + decimal_digits(n as nat),
    decreases n,
{
    if n < 10 {
        out.push(exec_digit_char(n));
    } else {
        push_decimal(out, n / 10);
        out.push(exec_digit_char(n % 10));
    }
}

/// The decimal rendering of `n` as a new string.
pub fn decimal_string(n: u64) -> (s: String)
    ensures
        s@ == decimal_digits(n as nat),
{
    let mut s = String::new();
    push_decimal(&mut s, n);
    s
}

/// The four upper-case hexadecimal digits of a value below `0x10000`.
pub open spec fn hex4(v: nat) -> Seq<char> {
    seq![hex_char((v / 4096) % 16), hex_char((v / 256) % 16), hex_char((v / 16) % 16), hex_char(v % 16)]
}

/// Appends `hex4(v)` to `out`.
pub fn push_hex4(out: &mut String, v: u32)
    requires
        v < 0x10000,
    ensures
        final(out)@ == old(out)@ + hex4(v as nat),
{
    out.push(exec_hex_char((v / 4096) % 16));
    out.push(exec_hex_char((v / 256) % 16));
    out.push(exec_hex_char((v / 16) % 16));
    out.push(exec_hex_char(v % 16));
    proof {
        assert(final(out)@ =~= old(out)@ + hex4(v as nat));
    }
}

/// Appends every character of `s` to `out`.
pub fn push_chars(out: &mut String, s: &Vec<char>, from: usize, to: usize)
    requires
        from <= to <= s.len(),
    ensures
        final(out)@ == old(out)@ + s@.subrange(from as int, to as int),
{
    let mut i = from;
    while i < to
        invariant
            from <= i <= to <= s.len(),
            out@ == old(out)@ + s@.subrange(from as int, i as int),
        decreases to - i,
    {
        out.push(s[i]);
        i += 1;
        proof {
            assert(s@.subrange(from as int, i as int) =~= s@.subrange(from as int, i - 1).push(s@[i - 1]));
        }
    }
}

/// A new string holding the characters `s[from..to]`.
pub fn string_of(s: &Vec<char>, from: usize, to: usize) -> (r: String)
    requires
        from <= to <= s.len(),
    ensures
        r@ == s@.subrange(from as int, to as int),
{
    let mut r = String::new();
    push_chars(&mut r, s, from, to);
    proof {
        assert(r@ =~= s@.subrange(from as int, to as int));
    }
    r
}

/// Whether `v[from..to]` equals `w`.
pub fn range_equals(v: &Vec<char>, from: usize, to: usize, w: &Vec<char>) -> (b: bool)
    requires
        from <= to <= v.len(),
    ensures
        b == (v@.subrange(from as int, to as int) == w@),
{
    if to - from != w.len() {
        proof {
            assert(v@.subrange(from as int, to as int).len() != w@.len());
        }
        return false;
    }
    let mut i: usize = 0;
    while i < w.len()
        invariant
            from <= to <= v.len(),
            to - from == w.len(),
            0 <= i <= w.len(),
            forall|k: int| 0 <= k < i ==> v@[from + k] == w@[k],
        decreases w.len() - i,
    {
        if v[from + i] != w[i] {
            proof {
                assert(v@.subrange(from as int, to as int)[i as int] != w@[i as int]);
            }
            return false;
        }
        i += 1;
    }
    proof {
        assert(v@.subrange(from as int, to as int) =~= w@);
    }
    true
}

/// A string takes at least one byte per character in UTF-8.
/// Line feeds, the column and the characters never outnumber the bytes.
pub proof fn lemma_measures_within_utf8(s: Seq<char>)
    ensures
        newline_count(s) <= utf8_len(s),
        column_after(s) <= utf8_len(s),
        s.len() <= utf8_len(s),
    decreases s.len(),
{
    if s.len() > 0 {
        lemma_measures_within_utf8(s.drop_last());
    }
}

proof fn lemma_utf8_len_first(s: Seq<char>)
    requires
        s.len() > 0,
    ensures
        utf8_len(s) == utf8_width(s[0]) + utf8_len(s.drop_first()),
    decreases s.len(),
{
    if s.len() > 1 {
        lemma_utf8_len_first(s.drop_last());
        assert(s.drop_last().drop_first() =~= s.drop_first().drop_last());
        assert(s.drop_last()[0] == s[0]);
        assert(s.drop_first().last() == s.last());
        assert(utf8_len(s.drop_first()) == utf8_len(s.drop_first().drop_last()) + utf8_width(s.drop_first().last()));
    } else {
        assert(s.drop_first().len() == 0);
        assert(s.drop_last().len() == 0);
        assert(utf8_len(s) == utf8_len(s.drop_last()) + utf8_width(s.last()));
    }
}

/// `utf8_len` is the length of the UTF-8 encoding.
pub proof fn lemma_utf8_bytes_exact(s: Seq<char>)
    ensures
        vstd::utf8::encode_utf8(s).len() == utf8_len(s),
    decreases s.len(),
{
    if s.len() > 0 {
        lemma_utf8_len_first(s);
        lemma_utf8_bytes_exact(s.drop_first());
        let c = s[0] as u32;
        assert(vstd::utf8::encode_scalar(c).len() == utf8_width(s[0])) by {
            vstd::utf8::char_is_scalar(s[0]);
        }
    }
}

/// First index at or after `i` holding a line feed, or the length.
pub open spec fn newline_from(s: Seq<char>, i: int) -> int
    decreases s.len() - i,
{
    if 0 <= i < s.len() && s[i] != '\n' {
        newline_from(s, i + 1)
    } else {
        i
    }
}

pub proof fn lemma_newline_from(s: Seq<char>, i: int)
    requires
        0 <= i <= s.len(),
    ensures
        i <= newline_from(s, i) <= s.len(),
        newline_from(s, i) < s.len() ==> s[newline_from(s, i)] == '\n',
        forall|k: int| i <= k < newline_from(s, i) ==> s[k] != '\n',
    decreases s.len() - i,
{
    if i < s.len() && s[i] != '\n' {
        lemma_newline_from(s, i + 1);
    }
}

/// A line's text: a carriage return before its line feed is dropped.
pub open spec fn line_text(seg: Seq<char>, ended: bool) -> Seq<char> {
    if ended && seg.len() > 0 && seg.last() == '\r' {
        seg.drop_last()
    } else {
        seg
    }
}

/// The lines of `s[i..]` as `str::lines` yields them: split at line feeds
/// (a carriage return before one is dropped), with no empty line after a
/// final line feed.
pub open spec fn lines_from(s: Seq<char>, i: int) -> Seq<Seq<char>>
    decreases s.len() - i,
{
    if !(0 <= i < s.len()) {
        Seq::empty()
    } else {
        let j = newline_from(s, i);
        proof {
            lemma_newline_from(s, i);
        }
        if j < s.len() {
            seq![line_text(s.subrange(i, j), true)] + lines_from(s, j + 1)
        } else {
            seq![line_text(s.subrange(i, j), false)]
        }
    }
}

/// The lines of `s` (`str::lines`).
pub open spec fn lines_of(s: Seq<char>) -> Seq<Seq<char>> {
    lines_from(s, 0)
}

/// The line of `v` with index `idx` (`str::lines().nth(idx)`).
pub fn nth_line(v: &Vec<char>, idx: usize) -> (r: Option<String>)
    ensures
        r matches Some(l) ==> idx < lines_of(v@).len() && l@ == lines_of(v@)[idx as int],
        r is None ==> idx >= lines_of(v@).len(),
{
    let ghost s = v@;
    let mut i: usize = 0;
    let mut line: usize = 0;
    proof {
        assert(lines_of(s).skip(0) =~= lines_of(s));
    }
    while line < idx
        invariant
            s == v@,
            0 <= i <= v.len(),
            0 <= line <= idx,
            lines_from(s, i as int) =~= lines_of(s).skip(line as int),
            line <= lines_of(s).len(),
        decreases idx - line,
    {
        if i >= v.len() {
            return None;
        }
        let mut j = i;
        while j < v.len() && v[j] != '\n'
            invariant
                i <= j <= v.len(),
                newline_from(s, j as int) == newline_from(s, i as int),
                s == v@,
            decreases v.len() - j,
        {
            j += 1;
        }
        proof {
            lemma_newline_from(s, i as int);
        }
        if j >= v.len() {
            proof {
                assert(lines_from(s, i as int).len() == 1);
            }
            return None;
        }
        proof {
            assert(lines_from(s, i as int).skip(1) =~= lines_from(s, j + 1));
            assert(lines_of(s).skip(line as int).skip(1) =~= lines_of(s).skip(line + 1));
        }
        i = j + 1;
        line += 1;
    }
    if i >= v.len() {
        return None;
    }
    let mut j = i;
    while j < v.len() && v[j] != '\n'
        invariant
            i <= j <= v.len(),
            newline_from(s, j as int) == newline_from(s, i as int),
            s == v@,
        decreases v.len() - j,
    {
        j += 1;
    }
    proof {
        lemma_newline_from(s, i as int);
        assert(lines_from(s, i as int)[0] == lines_of(s)[idx as int]);
    }
    let end = if j < v.len() && j > i && v[j - 1] == '\r' { j - 1 } else { j };
    let r = string_of(v, i, end);
    proof {
        assert(r@ =~= line_text(s.subrange(i as int, j as int), j < v.len()));
    }
    Some(r)
}

/// Unicode white space (`char::is_whitespace`).
pub open spec fn white_space(c: char) -> bool {
    ('\u{9}' <= c <= '\u{d}') || c == ' ' || c == '\u{85}' || c == '\u{a0}' || c == '\u{1680}' || ('\u{2000}' <= c
        <= '\u{200a}') || c == '\u{2028}' || c == '\u{2029}' || c == '\u{202f}' || c == '\u{205f}' || c == '\u{3000}'
}

/// Whether `c` is Unicode white space.
pub fn is_white_space_char(c: char) -> (b: bool)
    ensures
        b == white_space(c),
{
    ('\u{9}' <= c && c <= '\u{d}') || c == ' ' || c == '\u{85}' || c == '\u{a0}' || c == '\u{1680}' || ('\u{2000}'
        <= c && c <= '\u{200a}') || c == '\u{2028}' || c == '\u{2029}' || c == '\u{202f}' || c == '\u{205f}' || c
        == '\u{3000}'
}

} // verus!
