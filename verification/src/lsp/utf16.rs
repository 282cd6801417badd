//! Conversions between UTF-8 byte columns (what the parser reports) and
//! UTF-16 code-unit columns (what the protocol speaks).
use crate::text::{char_utf16_width, char_utf8_width, chars_of, lines_of, nth_line, utf16_len, utf8_len};
use vstd::prelude::*;

verus! {

/// The number of leading characters of `s` (from `k` on) that end at or
/// past byte `col`: the first prefix whose UTF-8 length reaches `col`, or
/// the whole line.
pub open spec fn chars_to_byte(s: Seq<char>, col: nat, k: int) -> int
    decreases s.len() - k,
{
    if 0 <= k < s.len() && utf8_len(s.take(k)) < col {
        chars_to_byte(s, col, k + 1)
    } else {
        k
    }
}

/// The first prefix of `s` (from `k` on) whose UTF-16 length reaches `col`,
/// or the whole line.
pub open spec fn chars_to_unit(s: Seq<char>, col: nat, k: int) -> int
    decreases s.len() - k,
{
    if 0 <= k < s.len() && utf16_len(s.take(k)) < col {
        chars_to_unit(s, col, k + 1)
    } else {
        k
    }
}

/// Whether byte column `col` is a character boundary of `s` or lies past
/// its end.
pub open spec fn is_byte_column(s: Seq<char>, col: nat) -> bool {
    col >= utf8_len(s) || exists|k: int| 0 <= k <= s.len() && utf8_len(#[trigger] s.take(k)) == col
}

/// One more character adds its UTF-8 and UTF-16 widths.
pub proof fn lemma_take_step(s: Seq<char>, i: int)
    requires
        0 <= i < s.len(),
    ensures
        utf8_len(s.take(i + 1)) == utf8_len(s.take(i)) + crate::text::utf8_width(s[i]),
        utf16_len(s.take(i + 1)) == utf16_len(s.take(i)) + crate::text::utf16_width(s[i]),
{
    assert(s.take(i + 1).drop_last() =~= s.take(i));
}

/// Longer prefixes are longer in both encodings.
pub proof fn lemma_prefix_lens_le(s: Seq<char>, i: int, j: int)
    requires
        0 <= i <= j <= s.len(),
    ensures
        utf8_len(s.take(i)) <= utf8_len(s.take(j)),
        utf16_len(s.take(i)) <= utf16_len(s.take(j)),
        j > i ==> utf8_len(s.take(i)) < utf8_len(s.take(j)),
    decreases j - i,
{
    if i < j {
        lemma_prefix_lens_le(s, i, j - 1);
        lemma_take_step(s, j - 1);
    }
}

proof fn lemma_chars_to_byte_at(s: Seq<char>, k: int, j: int)
    requires
        0 <= j <= k <= s.len(),
    ensures
        chars_to_byte(s, utf8_len(s.take(k)), j) == k,
    decreases k - j,
{
    if j < k {
        lemma_prefix_lens_le(s, j, k);
        lemma_chars_to_byte_at(s, k, j + 1);
    }
}

proof fn lemma_chars_to_unit_at(s: Seq<char>, k: int, j: int)
    requires
        0 <= j <= k <= s.len(),
    ensures
        chars_to_unit(s, utf16_len(s.take(k)), j) == k,
    decreases k - j,
{
    if j < k {
        lemma_utf16_strict(s, j, k);
        lemma_chars_to_unit_at(s, k, j + 1);
    }
}

proof fn lemma_utf16_strict(s: Seq<char>, i: int, j: int)
    requires
        0 <= i < j <= s.len(),
    ensures
        utf16_len(s.take(i)) < utf16_len(s.take(j)),
    decreases j - i,
{
    lemma_take_step(s, j - 1);
    if i < j - 1 {
        lemma_utf16_strict(s, i, j - 1);
    }
}

/// Converting a byte column on a character boundary to UTF-16 and back
/// gives the column again.
pub proof fn lemma_utf16_round_trip(s: Seq<char>, k: int)
    requires
        0 <= k <= s.len(),
    ensures
        ({
            let c = utf8_len(s.take(k));
            let u = utf16_len(s.take(chars_to_byte(s, c, 0)));
            utf8_len(s.take(chars_to_unit(s, u, 0))) == c
        }),
{
    lemma_chars_to_byte_at(s, k, 0);
    lemma_chars_to_unit_at(s, k, 0);
}

/// Convert a UTF-8 byte column of a line to a UTF-16 column; a column past
/// the end of the line gives the line's full UTF-16 length.
pub fn utf8_to_utf16_col(line_text: &str, utf8_column: u32) -> (r: u32)
    requires
        is_byte_column(line_text@, utf8_column as nat),
        utf16_len(line_text@) <= u32::MAX,
    ensures
        r == utf16_len(line_text@.take(chars_to_byte(line_text@, utf8_column as nat, 0))),
{
    let v = chars_of(line_text);
    let ghost s = v@;
    let mut bytes: u64 = 0;
    let mut units: u32 = 0;
    let mut i: usize = 0;
    proof {
        assert(s.take(0) =~= Seq::<char>::empty());
    }
    while i < v.len() && bytes < utf8_column as u64
        invariant
            s == v@,
            s == line_text@,
            0 <= i <= v.len(),
            bytes == utf8_len(s.take(i as int)),
            units == utf16_len(s.take(i as int)),
            bytes <= utf8_column,
            utf16_len(s) <= u32::MAX,
            is_byte_column(s, utf8_column as nat),
            chars_to_byte(s, utf8_column as nat, i as int) == chars_to_byte(s, utf8_column as nat, 0),
        decreases v.len() - i,
    {
        proof {
            lemma_take_step(s, i as int);
            lemma_prefix_lens_le(s, i + 1, s.len() as int);
            assert(s.take(s.len() as int) =~= s);
            if utf8_len(s.take(i + 1)) > utf8_column {
                // A character starting before the column ends past it: the
                // column would not be a boundary.
                let k = choose|k: int| 0 <= k <= s.len() && utf8_len(#[trigger] s.take(k)) == utf8_column;
                if k <= i {
                    lemma_prefix_lens_le(s, k, i as int);
                    if k < i {
                        assert(false);
                    }
                } else {
                    lemma_prefix_lens_le(s, i + 1, k);
                }
            }
        }
        bytes = bytes + char_utf8_width(v[i]) as u64;
        units = units + char_utf16_width(v[i]);
        i += 1;
    }
    units
}

/// Convert a UTF-16 column of a line to a UTF-8 byte column: the bytes of
/// the shortest prefix that reaches the column, or of the whole line.
pub fn utf16_to_utf8_col(line_text: &str, utf16_column: u32) -> (r: u32)
    requires
        utf8_len(line_text@) <= u32::MAX,
        utf16_len(line_text@) <= u32::MAX,
    ensures
        r == utf8_len(line_text@.take(chars_to_unit(line_text@, utf16_column as nat, 0))),
{
    let v = chars_of(line_text);
    let ghost s = v@;
    let mut utf16_count: u32 = 0;
    let mut utf8_offset: u32 = 0;
    let mut i: usize = 0;
    proof {
        assert(s.take(0) =~= Seq::<char>::empty());
        assert(s.take(s.len() as int) =~= s);
    }
    while i < v.len()
        invariant
            s == v@,
            s == line_text@,
            0 <= i <= v.len(),
            utf16_count == utf16_len(s.take(i as int)),
            utf8_offset == utf8_len(s.take(i as int)),
            utf8_len(s) <= u32::MAX,
            utf16_len(s) <= u32::MAX,
            s.take(s.len() as int) == s,
            chars_to_unit(s, utf16_column as nat, i as int) == chars_to_unit(s, utf16_column as nat, 0),
        ensures
            utf8_offset == utf8_len(s.take(chars_to_unit(s, utf16_column as nat, 0))),
        decreases v.len() - i,
    {
        if utf16_count >= utf16_column {
            break;
        }
        proof {
            lemma_take_step(s, i as int);
            lemma_prefix_lens_le(s, i + 1, s.len() as int);
        }
        utf16_count = utf16_count + char_utf16_width(v[i]);
        utf8_offset = utf8_offset + char_utf8_width(v[i]);
        i += 1;
    }
    utf8_offset
}

/// A position as the protocol counts it (0-based line, UTF-16 column).
#[derive(Debug, Clone, Copy, PartialEq, Eq, Structural)]
pub struct LspPosition {
    pub line: u32,
    pub character: u32,
}

/// A range of protocol positions.
#[derive(Debug, Clone, Copy, PartialEq, Eq, Structural)]
pub struct LspRange {
    pub start: LspPosition,
    pub end: LspPosition,
}

/// The protocol position of a source position: its UTF-8 column converted
/// on its line, or kept as it is when the source has no such line.
pub open spec fn protocol_position(src: Seq<char>, p: crate::ast::Position) -> LspPosition {
    let lines = lines_of(src);
    LspPosition {
        line: p.line,
        character: if (p.line as int) < lines.len() {
            let l = lines[p.line as int];
            utf16_len(l.take(chars_to_byte(l, p.column as nat, 0))) as u32
        } else {
            p.column
        },
    }
}

/// Whether a source position can be converted: on an existing line, its
/// column is a character boundary (or past the end) and the line's UTF-16
/// length fits in a `u32`.
pub open spec fn convertible(src: Seq<char>, p: crate::ast::Position) -> bool {
    let lines = lines_of(src);
    (p.line as int) < lines.len() ==> {
        let l = lines[p.line as int];
        is_byte_column(l, p.column as nat) && utf16_len(l) <= u32::MAX
    }
}

fn position_to_protocol(src: &Vec<char>, p: crate::ast::Position) -> (r: LspPosition)
    requires
        convertible(src@, p),
    ensures
        r == protocol_position(src@, p),
{
    match nth_line(src, p.line as usize) {
        Some(line) => LspPosition { line: p.line, character: utf8_to_utf16_col(line.as_str(), p.column) },
        None => LspPosition { line: p.line, character: p.column },
    }
}

/// Convert a span to a protocol range.
pub fn span_to_range(span: &crate::ast::Span, source: &str) -> (r: LspRange)
    requires
        convertible(source@, span.start),
        convertible(source@, span.end),
    ensures
        r == (LspRange { start: protocol_position(source@, span.start), end: protocol_position(source@, span.end) }),
{
    let src = chars_of(source);
    LspRange { start: position_to_protocol(&src, span.start), end: position_to_protocol(&src, span.end) }
}

/// The UTF-16 column of byte column `col` of a line.
pub open spec fn utf16_column(line: Seq<char>, col: nat) -> nat {
    utf16_len(line.take(chars_to_byte(line, col, 0)))
}

proof fn lemma_chars_to_byte_ge(s: Seq<char>, c: nat, j: int)
    requires
        0 <= j <= s.len(),
    ensures
        j <= chars_to_byte(s, c, j) <= s.len(),
    decreases s.len() - j,
{
    if j < s.len() && utf8_len(s.take(j)) < c {
        lemma_chars_to_byte_ge(s, c, j + 1);
    }
}

proof fn lemma_chars_to_byte_mono(s: Seq<char>, c1: nat, c2: nat, j: int)
    requires
        0 <= j <= s.len(),
        c1 <= c2,
    ensures
        chars_to_byte(s, c1, j) <= chars_to_byte(s, c2, j),
    decreases s.len() - j,
{
    if j < s.len() && utf8_len(s.take(j)) < c1 {
        lemma_chars_to_byte_mono(s, c1, c2, j + 1);
    } else {
        lemma_chars_to_byte_ge(s, c2, j);
    }
}

/// A later byte column has a later (or the same) UTF-16 column.
pub proof fn lemma_utf16_column_mono(line: Seq<char>, c1: nat, c2: nat)
    requires
        c1 <= c2,
    ensures
        utf16_column(line, c1) <= utf16_column(line, c2),
        utf16_column(line, c2) <= utf16_len(line),
{
    lemma_chars_to_byte_mono(line, c1, c2, 0);
    lemma_chars_to_byte_ge(line, c1, 0);
    lemma_chars_to_byte_ge(line, c2, 0);
    lemma_prefix_lens_le(line, chars_to_byte(line, c1, 0), chars_to_byte(line, c2, 0));
    lemma_prefix_lens_le(line, chars_to_byte(line, c2, 0), line.len() as int);
    assert(line.take(line.len() as int) =~= line);
}

/// Whether byte column `col` is a character boundary of `line` or lies past
/// its end.
pub fn byte_column_ok(line: &Vec<char>, col: u32) -> (b: bool)
    ensures
        b == is_byte_column(line@, col as nat),
{
    let ghost s = line@;
    let mut k: usize = 0;
    let mut bytes: u64 = 0;
    proof {
        assert(s.take(0) =~= Seq::<char>::empty());
    }
    while k < line.len() && bytes < col as u64
        invariant
            s == line@,
            0 <= k <= line.len(),
            bytes == utf8_len(s.take(k as int)),
            bytes <= col + 4,
            forall|j: int| 0 <= j < k ==> utf8_len(#[trigger] s.take(j)) < col,
        decreases line.len() - k,
    {
        proof {
            lemma_take_step(s, k as int);
        }
        bytes = bytes + char_utf8_width(line[k]) as u64;
        k += 1;
    }
    proof {
        assert(s.take(s.len() as int) =~= s);
        lemma_prefix_lens_le(s, k as int, s.len() as int);
    }
    if bytes == col as u64 {
        proof {
            assert(utf8_len(s.take(k as int)) == col);
        }
        true
    } else if bytes < col as u64 {
        true
    } else {
        proof {
            assert forall|j: int| 0 <= j <= s.len() implies utf8_len(#[trigger] s.take(j)) != col by {
                if j >= k {
                    lemma_prefix_lens_le(s, k as int, j);
                }
            }
        }
        false
    }
}

/// Whether the UTF-16 length of a line fits in a `u32`.
pub fn utf16_fits(line: &Vec<char>) -> (b: bool)
    ensures
        b == (utf16_len(line@) <= u32::MAX),
{
    let ghost s = line@;
    let mut k: usize = 0;
    let mut units: u64 = 0;
    proof {
        assert(s.take(0) =~= Seq::<char>::empty());
    }
    while k < line.len() && units <= u32::MAX as u64
        invariant
            s == line@,
            0 <= k <= line.len(),
            units == utf16_len(s.take(k as int)),
            units <= u32::MAX + 2,
        decreases line.len() - k,
    {
        proof {
            lemma_take_step(s, k as int);
        }
        units = units + char_utf16_width(line[k]) as u64;
        k += 1;
    }
    proof {
        assert(s.take(s.len() as int) =~= s);
        lemma_prefix_lens_le(s, k as int, s.len() as int);
    }
    units <= u32::MAX as u64
}

/// Whether a source position can be converted (see `convertible`).
pub fn position_convertible(src: &Vec<char>, p: crate::ast::Position) -> (b: bool)
    ensures
        b == convertible(src@, p),
{
    match nth_line(src, p.line as usize) {
        Some(line) => {
            let v = chars_of(line.as_str());
            byte_column_ok(&v, p.column) && utf16_fits(&v)
        },
        None => true,
    }
}

} // verus!
