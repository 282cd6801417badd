//! Text passes of the TOON decoder: block comments blanked out before
//! decoding, the colon that ends a key, and number literals with a leading
//! zero.
use crate::text::chars_of;
use crate::toon::error::DecodeError;
use vstd::prelude::*;

verus! {

/// Whether `s[i..]` starts with `c`.
pub open spec fn char_at(s: Seq<char>, i: int, c: char) -> bool {
    0 <= i < s.len() && s[i] == c
}

/// The end of a triple-quoted string whose body starts at `j`: just after
/// the first `"""` (or the end of the text).
pub open spec fn triple_end(s: Seq<char>, j: int) -> int
    decreases s.len() - j,
{
    if !(0 <= j < s.len()) {
        s.len() as int
    } else if s[j] == '"' && char_at(s, j + 1, '"') && char_at(s, j + 2, '"') {
        j + 3
    } else {
        triple_end(s, j + 1)
    }
}

/// The end of a quoted string whose body starts at `j` (escaped when the
/// previous character was an unescaped backslash): just after the closing
/// quote (or the end of the text).
pub open spec fn quoted_end(s: Seq<char>, j: int, escaped: bool) -> int
    decreases s.len() - j,
{
    if !(0 <= j < s.len()) {
        s.len() as int
    } else if escaped {
        quoted_end(s, j + 1, false)
    } else if s[j] == '\\' {
        quoted_end(s, j + 1, true)
    } else if s[j] == '"' {
        j + 1
    } else {
        quoted_end(s, j + 1, false)
    }
}

/// The end of a line comment whose rest starts at `j`: just after the line
/// feed (or the end of the text).
pub open spec fn comment_end(s: Seq<char>, j: int) -> int
    decreases s.len() - j,
{
    if !(0 <= j < s.len()) {
        s.len() as int
    } else if s[j] == '\n' {
        j + 1
    } else {
        comment_end(s, j + 1)
    }
}

/// Just after the first `*/` at or after `j`, if there is one.
pub open spec fn block_end(s: Seq<char>, j: int) -> Option<int>
    decreases s.len() - j,
{
    if !(0 <= j < s.len()) {
        None
    } else if s[j] == '*' && char_at(s, j + 1, '/') {
        Some(j + 2)
    } else {
        block_end(s, j + 1)
    }
}

/// The end of the piece of text that starts at `i` and is kept as it is: a
/// triple-quoted or quoted string, a line comment, or one character.
pub open spec fn kept_end(s: Seq<char>, i: int) -> int {
    if s[i] == '"' {
        if char_at(s, i + 1, '"') && char_at(s, i + 2, '"') {
            triple_end(s, i + 3)
        } else {
            quoted_end(s, i + 1, false)
        }
    } else if s[i] == '#' {
        comment_end(s, i + 1)
    } else {
        i + 1
    }
}

/// A block comment as it is blanked out: every character a space but line
/// feeds, which are kept.
pub open spec fn blanked(s: Seq<char>) -> Seq<char> {
    s.map_values(|c: char| if c == '\n' { '\n' } else { ' ' })
}

pub proof fn lemma_quoted_end(s: Seq<char>, j: int, e: bool)
    requires
        0 <= j <= s.len(),
    ensures
        j <= quoted_end(s, j, e) <= s.len(),
    decreases s.len() - j,
{
    if j < s.len() {
        lemma_quoted_end(s, j + 1, true);
        lemma_quoted_end(s, j + 1, false);
    }
}

pub proof fn lemma_ends(s: Seq<char>, j: int)
    requires
        0 <= j <= s.len(),
    ensures
        j <= triple_end(s, j) <= s.len(),
        j <= comment_end(s, j) <= s.len(),
        j <= quoted_end(s, j, false) <= s.len(),
        block_end(s, j) matches Some(e) ==> j + 2 <= e <= s.len(),
    decreases s.len() - j,
{
    lemma_quoted_end(s, j, false);
    if j < s.len() {
        lemma_ends(s, j + 1);
    }
}

/// The text from `i` on with block comments blanked out, or `None` when a
/// block comment is never closed. Strings and line comments are kept as
/// they are, so a `/*` inside one starts no comment.
pub open spec fn strip_from(s: Seq<char>, i: int) -> Option<Seq<char>>
    decreases s.len() - i,
{
    if !(0 <= i < s.len()) {
        Some(Seq::empty())
    } else if s[i] == '/' && char_at(s, i + 1, '*') {
        proof {
            lemma_ends(s, i + 2);
        }
        match block_end(s, i + 2) {
            None => None,
            Some(e) => match strip_from(s, e) {
                Some(rest) => Some(blanked(s.subrange(i, e)) + rest),
                None => None,
            },
        }
    } else {
        let e = kept_end(s, i);
        proof {
            lemma_ends(s, i + 1);
            if char_at(s, i + 1, '"') && char_at(s, i + 2, '"') {
                lemma_ends(s, i + 3);
            }
        }
        if i < e <= s.len() {
            match strip_from(s, e) {
                Some(rest) => Some(s.subrange(i, e) + rest),
                None => None,
            }
        } else {
            None
        }
    }
}

/// Replace block comments `/* ... */` with spaces (keeping line feeds), so
/// that offsets, lines and columns stay where they were.
pub fn remove_block_comments(input: &str) -> (r: Result<String, DecodeError>)
    ensures
        match r {
            Ok(out) => strip_from(input@, 0) == Some(out@) && out@.len() == input@.len() && forall|k: int|
                0 <= k < out@.len() ==> ((#[trigger] out@[k]) == '\n' <==> input@[k] == '\n'),
            Err(e) => strip_from(input@, 0) is None && (e matches DecodeError::Structure(m)
                && m@ == "Unterminated block comment"@),
        },
{
    let v = chars_of(input);
    let ghost s = v@;
    let mut out = String::new();
    let mut i: usize = 0;
    while i < v.len()
        invariant
            s == v@,
            s == input@,
            0 <= i <= v.len(),
            strip_from(s, 0) == match strip_from(s, i as int) {
                Some(rest) => Some(out@ + rest),
                None => None::<Seq<char>>,
            },
        decreases v.len() - i,
    {
        let ghost before = out@;
        let ghost i0 = i as int;
        let ch = v[i];
        if ch == '/' && i + 1 < v.len() && v[i + 1] == '*' {
            proof {
                lemma_ends(s, i0 + 2);
            }
            out.push(' ');
            out.push(' ');
            proof {
                assert(blanked(s.subrange(i0, i0 + 2)) =~= seq![' ', ' ']);
            }
            let mut j = i + 2;
            while j < v.len() && !(v[j] == '*' && j + 1 < v.len() && v[j + 1] == '/')
                invariant
                    s == v@,
                    0 <= i0,
                    i0 + 2 <= j <= v.len(),
                    block_end(s, j as int) == block_end(s, i0 + 2),
                    out@ == before + blanked(s.subrange(i0, j as int)),
                decreases v.len() - j,
            {
                let c = v[j];
                if c == '\n' {
                    out.push('\n');
                } else {
                    out.push(' ');
                }
                proof {
                    assert(blanked(s.subrange(i0, j + 1)) =~= blanked(s.subrange(i0, j as int)).push(
                        if c == '\n' { '\n' } else { ' ' }));
                }
                j += 1;
            }
            if j >= v.len() {
                return Err(DecodeError::new("Unterminated block comment"));
            }
            out.push(' ');
            out.push(' ');
            proof {
                assert(blanked(s.subrange(i0, j + 2)) =~= blanked(s.subrange(i0, j as int)) + seq![' ', ' ']);
                assert(block_end(s, i0 + 2) == Some(j + 2));
            }
            i = j + 2;
        } else {
            let e = kept_end_exec(&v, i);
            let mut k = i;
            while k < e
                invariant
                    s == v@,
                    0 <= i0 <= k <= e <= v.len(),
                    out@ == before + s.subrange(i0, k as int),
                decreases e - k,
            {
                out.push(v[k]);
                proof {
                    assert(s.subrange(i0, k + 1) =~= s.subrange(i0, k as int).push(s[k as int]));
                }
                k += 1;
            }
            i = e;
        }
    }
    proof {
        assert(out@ + Seq::<char>::empty() =~= out@);
        lemma_strip_keeps_layout(input@, 0);
    }
    Ok(out)
}

/// `kept_end` computed.
fn kept_end_exec(v: &Vec<char>, i: usize) -> (e: usize)
    requires
        i < v.len(),
    ensures
        e as int == kept_end(v@, i as int),
        i < e <= v.len(),
{
    let ghost s = v@;
    proof {
        lemma_ends(s, i + 1);
    }
    if v[i] == '"' {
        if v.len() - i > 2 && v[i + 1] == '"' && v[i + 2] == '"' {
            proof {
                lemma_ends(s, i + 3);
            }
            let mut j = i + 3;
            while j < v.len() && !(v[j] == '"' && v.len() - j > 2 && v[j + 1] == '"' && v[j + 2] == '"')
                invariant
                    i + 3 <= j <= v.len(),
                    triple_end(s, j as int) == triple_end(s, i + 3),
                    s == v@,
                decreases v.len() - j,
            {
                j += 1;
            }
            if j < v.len() { j + 3 } else { j }
        } else {
            let mut j = i + 1;
            let mut escaped = false;
            while j < v.len()
                invariant
                    i + 1 <= j <= v.len(),
                    quoted_end(s, j as int, escaped) == quoted_end(s, i + 1, false),
                    kept_end(s, i as int) == quoted_end(s, i + 1, false),
                    s == v@,
                decreases v.len() - j,
            {
                let c = v[j];
                if escaped {
                    escaped = false;
                } else if c == '\\' {
                    escaped = true;
                } else if c == '"' {
                    return j + 1;
                }
                j += 1;
            }
            j
        }
    } else if v[i] == '#' {
        let mut j = i + 1;
        while j < v.len() && v[j] != '\n'
            invariant
                i + 1 <= j <= v.len(),
                comment_end(s, j as int) == comment_end(s, i + 1),
                s == v@,
            decreases v.len() - j,
        {
            j += 1;
        }
        if j < v.len() { j + 1 } else { j }
    } else {
        i + 1
    }
}

/// Whether a number text has a leading zero: `0` (after an optional `-`)
/// followed by another digit.
pub open spec fn has_leading_zero_spec(s: Seq<char>) -> bool {
    let body = if s.len() > 0 && s[0] == '-' { s.drop_first() } else { s };
    body.len() > 1 && body[0] == '0' && '0' <= body[1] && body[1] <= '9'
}

/// Blanking block comments keeps the layout of the text: the result has as
/// many characters as the text from `i` on, and a line feed exactly where
/// the text has one, so every offset, line and column stays where it was.
pub proof fn lemma_strip_keeps_layout(s: Seq<char>, i: int)
    requires
        0 <= i <= s.len(),
    ensures
        strip_from(s, i) matches Some(t) ==> {
            &&& t.len() == s.len() - i
            &&& forall|k: int| 0 <= k < t.len() ==> ((#[trigger] t[k]) == '\n' <==> s[i + k] == '\n')
        },
    decreases s.len() - i,
{
    if i < s.len() {
        if s[i] == '/' && char_at(s, i + 1, '*') {
            lemma_ends(s, i + 2);
            if let Some(e) = block_end(s, i + 2) {
                lemma_strip_keeps_layout(s, e);
                if let Some(rest) = strip_from(s, e) {
                    let b = blanked(s.subrange(i, e));
                    let t = b + rest;
                    assert(strip_from(s, i) == Some(t));
                    assert forall|k: int| 0 <= k < t.len() implies (t[k] == '\n' <==> s[i + k] == '\n') by {
                        if k < b.len() {
                            assert(t[k] == b[k]);
                        } else {
                            assert(t[k] == rest[k - b.len()]);
                        }
                    }
                }
            }
        } else {
            let e = kept_end(s, i);
            lemma_ends(s, i + 1);
            if char_at(s, i + 1, '"') && char_at(s, i + 2, '"') {
                lemma_ends(s, i + 3);
            }
            if i < e <= s.len() {
                lemma_strip_keeps_layout(s, e);
                if let Some(rest) = strip_from(s, e) {
                    let a = s.subrange(i, e);
                    let t = a + rest;
                    assert(strip_from(s, i) == Some(t));
                    assert forall|k: int| 0 <= k < t.len() implies (t[k] == '\n' <==> s[i + k] == '\n') by {
                        if k < a.len() {
                            assert(t[k] == a[k]);
                        } else {
                            assert(t[k] == rest[k - a.len()]);
                        }
                    }
                }
            }
        }
    }
}

/// Whether a number text has a leading zero.
pub fn has_leading_zero(s: &str) -> (b: bool)
    ensures
        b == has_leading_zero_spec(s@),
{
    let v = chars_of(s);
    let start: usize = if v.len() > 0 && v[0] == '-' { 1 } else { 0 };
    proof {
        if v.len() > 0 && v[0] == '-' {
            assert(v@.drop_first() =~= v@.subrange(1, v.len() as int));
        }
    }
    v.len() > start + 1 && v[start] == '0' && '0' <= v[start + 1] && v[start + 1] <= '9'
}

/// The state of a scan along a line: inside a quoted string (and after a
/// backslash there), or inside a `${...}` reference.
pub struct LineScan {
    pub in_quote: bool,
    pub escaped: bool,
    pub in_ref: bool,
}

/// The state after the character at `i`.
pub open spec fn line_scan_step(s: Seq<char>, i: int, st: LineScan) -> LineScan {
    let ch = s[i];
    if st.in_quote {
        if st.escaped {
            LineScan { escaped: false, ..st }
        } else if ch == '\\' {
            LineScan { escaped: true, ..st }
        } else if ch == '"' {
            LineScan { in_quote: false, ..st }
        } else {
            st
        }
    } else if st.in_ref {
        if ch == '}' {
            LineScan { in_ref: false, ..st }
        } else {
            st
        }
    } else if ch == '"' {
        LineScan { in_quote: true, ..st }
    } else if ch == '$' && char_at(s, i + 1, '{') {
        LineScan { in_ref: true, ..st }
    } else {
        st
    }
}

/// The index of the first colon outside strings and references on the first
/// line of `s` from `i` on, before any comment.
pub open spec fn unquoted_colon_from(s: Seq<char>, i: int, st: LineScan) -> Option<int>
    decreases s.len() - i,
{
    if !(0 <= i < s.len()) || s[i] == '\n' {
        None
    } else if !st.in_quote && !st.in_ref && s[i] == '#' {
        None
    } else if !st.in_quote && !st.in_ref && s[i] == ':' {
        Some(i)
    } else {
        unquoted_colon_from(s, i + 1, line_scan_step(s, i, st))
    }
}

/// The character index of the first colon of the first line of `s` that is
/// outside quotes and `${...}` references and before a `#` comment.
pub fn find_unquoted_colon(s: &Vec<char>) -> (r: Option<usize>)
    ensures
        match r {
            Some(k) => unquoted_colon_from(s@, 0, LineScan { in_quote: false, escaped: false, in_ref: false })
                == Some(k as int),
            None => unquoted_colon_from(s@, 0, LineScan { in_quote: false, escaped: false, in_ref: false }) is None,
        },
{
    let mut in_quote = false;
    let mut escaped = false;
    let mut in_ref = false;
    let mut i: usize = 0;
    while i < s.len()
        invariant
            0 <= i <= s.len(),
            unquoted_colon_from(s@, i as int, LineScan { in_quote, escaped, in_ref })
                == unquoted_colon_from(s@, 0, LineScan { in_quote: false, escaped: false, in_ref: false }),
        decreases s.len() - i,
    {
        let ch = s[i];
        if ch == '\n' {
            return None;
        }
        if in_quote {
            if escaped {
                escaped = false;
            } else if ch == '\\' {
                escaped = true;
            } else if ch == '"' {
                in_quote = false;
            }
        } else if in_ref {
            if ch == '}' {
                in_ref = false;
            }
        } else {
            if ch == '"' {
                in_quote = true;
            } else if ch == '$' {
                if i + 1 < s.len() && s[i + 1] == '{' {
                    in_ref = true;
                }
            } else if ch == '#' {
                return None;
            } else if ch == ':' {
                return Some(i);
            }
        }
        i += 1;
    }
    None
}

} // verus!
