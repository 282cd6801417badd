//! Code actions: the source action that sorts the keys of the object under
//! the cursor, moving each entry's text as it stands.
use super::ast_utils::{descent, find_node_at_position, steps_view, NodePathEntry, StepView};
use super::utf16::{chars_to_unit, utf16_to_utf8_col, lemma_prefix_lens_le, lemma_take_step, LspPosition, LspRange};
use crate::ast::{AstNode, ObjectEntry, Position};
use crate::text::{
    char_utf16_width, char_utf8_width, lemma_newline_from, newline_count, newline_from, string_of, utf16_len, utf16_width,
    utf8_len, utf8_width,
};
use vstd::prelude::*;

verus! {

// ---------------------------------------------------------------------------
// Protocol positions and byte offsets
// ---------------------------------------------------------------------------

/// The character index where line `line` starts, counting lines from index
/// `a`; past the last line, where the last line starts.
pub open spec fn clamped_line_start(s: Seq<char>, line: nat, a: int) -> int
    decreases line,
{
    if line == 0 {
        a
    } else {
        let e = newline_from(s, a);
        if e < s.len() {
            clamped_line_start(s, (line - 1) as nat, e + 1)
        } else {
            a
        }
    }
}

/// The byte offset of a protocol position (line, UTF-16 column): where the
/// line starts (the last line when there are fewer) plus the bytes of the
/// shortest prefix of that line that reaches the column (the whole line
/// when the column lies past its end).
pub open spec fn protocol_offset(s: Seq<char>, line: u32, character: u32) -> nat {
    let a = clamped_line_start(s, line as nat, 0);
    let l = s.subrange(a, newline_from(s, a));
    utf8_len(s.take(a)) + utf8_len(l.take(chars_to_unit(l, character as nat, 0)))
}

/// UTF-16 units after the last line feed of `s`.
pub open spec fn units_since_newline(s: Seq<char>) -> nat
    decreases s.len(),
{
    if s.len() == 0 {
        0
    } else if s.last() == '\n' {
        0
    } else {
        units_since_newline(s.drop_last()) + utf16_width(s.last())
    }
}

/// The protocol position of character index `k`: the line feeds before it
/// and the UTF-16 units since the last of them.
pub open spec fn position_at(s: Seq<char>, k: int) -> LspPosition {
    LspPosition { line: newline_count(s.take(k)) as u32, character: units_since_newline(s.take(k)) as u32 }
}

/// Whether byte offset `b` falls on a character boundary of `s` (its end
/// included).
pub open spec fn byte_boundary(s: Seq<char>, b: nat) -> bool {
    exists|k: int| 0 <= k <= s.len() && utf8_len(#[trigger] s.take(k)) == b
}

/// The character index of byte offset `b`: the first prefix of `s` whose
/// UTF-8 length reaches `b`.
pub open spec fn char_index(s: Seq<char>, b: nat) -> int {
    super::utf16::chars_to_byte(s, b, 0)
}

pub proof fn lemma_clamped_line_start(s: Seq<char>, line: nat, a: int)
    requires
        0 <= a <= s.len(),
    ensures
        a <= clamped_line_start(s, line, a) <= s.len(),
    decreases line,
{
    if line > 0 {
        lemma_newline_from(s, a);
        let e = newline_from(s, a);
        if e < s.len() {
            lemma_clamped_line_start(s, (line - 1) as nat, e + 1);
        }
    }
}

proof fn lemma_utf8_concat(x: Seq<char>, y: Seq<char>)
    ensures
        utf8_len(x + y) == utf8_len(x) + utf8_len(y),
    decreases y.len(),
{
    if y.len() > 0 {
        assert((x + y).drop_last() =~= x + y.drop_last());
        lemma_utf8_concat(x, y.drop_last());
    } else {
        assert(x + y =~= x);
    }
}

proof fn lemma_utf16_le_utf8(s: Seq<char>)
    ensures
        utf16_len(s) <= utf8_len(s),
        units_since_newline(s) <= utf16_len(s),
        newline_count(s) <= s.len() <= utf8_len(s),
    decreases s.len(),
{
    if s.len() > 0 {
        lemma_utf16_le_utf8(s.drop_last());
    }
}

proof fn lemma_take_le(s: Seq<char>, k: int)
    requires
        0 <= k <= s.len(),
    ensures
        utf8_len(s.take(k)) <= utf8_len(s),
{
    lemma_prefix_lens_le(s, k, s.len() as int);
    assert(s.take(s.len() as int) =~= s);
}

proof fn lemma_char_index_exact(s: Seq<char>, k: int, j: int)
    requires
        0 <= j <= k <= s.len(),
    ensures
        super::utf16::chars_to_byte(s, utf8_len(s.take(k)), j) == k,
    decreases k - j,
{
    if j < k {
        lemma_prefix_lens_le(s, j, k);
        lemma_char_index_exact(s, k, j + 1);
    }
}

/// On a boundary, the character index is the one whose prefix has exactly
/// `b` bytes; boundaries in order give indices in order.
pub proof fn lemma_char_index(s: Seq<char>, b1: nat, b2: nat)
    requires
        byte_boundary(s, b1),
        byte_boundary(s, b2),
    ensures
        0 <= char_index(s, b1) <= s.len(),
        utf8_len(s.take(char_index(s, b1))) == b1,
        b1 <= b2 ==> char_index(s, b1) <= char_index(s, b2),
{
    let k1 = choose|k: int| 0 <= k <= s.len() && utf8_len(#[trigger] s.take(k)) == b1;
    let k2 = choose|k: int| 0 <= k <= s.len() && utf8_len(#[trigger] s.take(k)) == b2;
    lemma_char_index_exact(s, k1, 0);
    lemma_char_index_exact(s, k2, 0);
    if b1 <= b2 && k1 > k2 {
        lemma_prefix_lens_le(s, k2, k1);
    }
}

/// Convert a protocol position (line, UTF-16 column) to a byte offset.
pub fn lsp_pos_to_offset(v: &Vec<char>, line: u32, character: u32) -> (r: u32)
    requires
        utf8_len(v@) <= u32::MAX,
    ensures
        r == protocol_offset(v@, line, character),
{
    let ghost s = v@;
    let mut a: usize = 0;
    let mut a_bytes: u32 = 0;
    let mut cur: u32 = 0;
    let mut done = false;
    proof {
        assert(s.take(0) =~= Seq::<char>::empty());
    }
    while cur < line && !done
        invariant
            s == v@,
            utf8_len(s) <= u32::MAX,
            0 <= a <= v.len(),
            cur <= line,
            a_bytes == utf8_len(s.take(a as int)),
            done ==> clamped_line_start(s, line as nat, 0) == a,
            !done ==> clamped_line_start(s, (line - cur) as nat, a as int) == clamped_line_start(s, line as nat, 0),
        decreases line - cur, if done { 0nat } else { 1nat },
    {
        let mut e = a;
        let mut e_bytes = a_bytes;
        while e < v.len() && v[e] != '\n'
            invariant
                s == v@,
                utf8_len(s) <= u32::MAX,
                a <= e <= v.len(),
                newline_from(s, e as int) == newline_from(s, a as int),
                e_bytes == utf8_len(s.take(e as int)),
            decreases v.len() - e,
        {
            proof {
                lemma_take_step(s, e as int);
                lemma_take_le(s, e + 1);
            }
            e_bytes = e_bytes + char_utf8_width(v[e]);
            e += 1;
        }
        if e >= v.len() {
            done = true;
        } else {
            proof {
                lemma_take_step(s, e as int);
                lemma_take_le(s, e + 1);
            }
            a = e + 1;
            a_bytes = e_bytes + 1;
            cur = cur + 1;
        }
    }
    let ghost target = clamped_line_start(s, line as nat, 0);
    proof {
        lemma_clamped_line_start(s, line as nat, 0);
    }
    let mut e = a;
    while e < v.len() && v[e] != '\n'
        invariant
            a <= e <= v.len(),
            newline_from(s, e as int) == newline_from(s, a as int),
            s == v@,
        decreases v.len() - e,
    {
        e += 1;
    }
    proof {
        lemma_newline_from(s, a as int);
    }
    let text = string_of(v, a, e);
    let ghost l = s.subrange(a as int, e as int);
    proof {
        lemma_utf8_concat(s.take(a as int), l);
        assert(s.take(e as int) =~= s.take(a as int) + l);
        lemma_take_le(s, e as int);
        lemma_utf16_le_utf8(l);
    }
    let col = utf16_to_utf8_col(text.as_str(), character);
    proof {
        let k = chars_to_unit(l, character as nat, 0);
        assert(0 <= k <= l.len()) by {
            chars_to_unit_bounds(l, character as nat, 0);
        }
        lemma_utf8_concat(s.take(a as int), l.take(k));
        assert(s.take(a + k) =~= s.take(a as int) + l.take(k));
        lemma_take_le(s, a + k);
    }
    a_bytes + col
}

proof fn chars_to_unit_bounds(s: Seq<char>, c: nat, j: int)
    requires
        0 <= j <= s.len(),
    ensures
        j <= chars_to_unit(s, c, j) <= s.len(),
    decreases s.len() - j,
{
    if j < s.len() && utf16_len(s.take(j)) < c {
        chars_to_unit_bounds(s, c, j + 1);
    }
}

/// The character index of a byte offset on a boundary.
fn char_index_of(v: &Vec<char>, b: u32) -> (k: usize)
    requires
        byte_boundary(v@, b as nat),
    ensures
        k == char_index(v@, b as nat),
        utf8_len(v@.take(k as int)) == b,
        k <= v.len(),
{
    let ghost s = v@;
    proof {
        lemma_char_index(s, b as nat, b as nat);
        lemma_take_le(s, char_index(s, b as nat));
    }
    let mut k: usize = 0;
    let mut bytes: u32 = 0;
    proof {
        assert(s.take(0) =~= Seq::<char>::empty());
    }
    while k < v.len() && bytes < b
        invariant
            s == v@,
            0 <= k <= char_index(s, b as nat),
            char_index(s, b as nat) <= s.len(),
            utf8_len(s.take(char_index(s, b as nat))) == b,
            bytes == utf8_len(s.take(k as int)),
            super::utf16::chars_to_byte(s, b as nat, k as int) == char_index(s, b as nat),
        decreases v.len() - k,
    {
        proof {
            lemma_take_step(s, k as int);
            lemma_prefix_lens_le(s, k + 1, char_index(s, b as nat));
        }
        bytes = bytes + char_utf8_width(v[k]);
        k += 1;
    }
    k
}

/// The protocol position of character index `k`.
fn position_of_index(v: &Vec<char>, k: usize) -> (p: LspPosition)
    requires
        k <= v.len(),
        utf8_len(v@) <= u32::MAX,
    ensures
        p == position_at(v@, k as int),
{
    let ghost s = v@;
    let mut line: u32 = 0;
    let mut units: u32 = 0;
    let mut i: usize = 0;
    proof {
        assert(s.take(0) =~= Seq::<char>::empty());
    }
    while i < k
        invariant
            s == v@,
            k <= v.len(),
            utf8_len(s) <= u32::MAX,
            0 <= i <= k,
            line == newline_count(s.take(i as int)),
            units == units_since_newline(s.take(i as int)),
        decreases k - i,
    {
        proof {
            assert(s.take(i + 1).drop_last() =~= s.take(i as int));
            lemma_utf16_le_utf8(s.take(i + 1));
            lemma_take_le(s, i + 1);
        }
        if v[i] == '\n' {
            line = line + 1;
            units = 0;
        } else {
            units = units + char_utf16_width(v[i]);
        }
        i += 1;
    }
    LspPosition { line, character: units }
}

/// The protocol position of a byte offset on a boundary.
pub fn offset_to_lsp_pos(v: &Vec<char>, offset: u32) -> (p: LspPosition)
    requires
        byte_boundary(v@, offset as nat),
        utf8_len(v@) <= u32::MAX,
    ensures
        p == position_at(v@, char_index(v@, offset as nat)),
{
    let k = char_index_of(v, offset);
    position_of_index(v, k)
}

// ---------------------------------------------------------------------------
// The order of keys
// ---------------------------------------------------------------------------

/// `a` sorts no later than `b` in the order of `str`: character by
/// character (UTF-8 byte order and code point order agree), a prefix first.
pub open spec fn key_le(a: Seq<char>, b: Seq<char>) -> bool
    decreases a.len(),
{
    if a.len() == 0 {
        true
    } else if b.len() == 0 {
        false
    } else if a[0] != b[0] {
        a[0] < b[0]
    } else {
        key_le(a.drop_first(), b.drop_first())
    }
}

/// Any two keys are ordered one way or the other.
pub proof fn lemma_key_le_total(a: Seq<char>, b: Seq<char>)
    ensures
        key_le(a, b) || key_le(b, a),
        key_le(a, b) && key_le(b, a) ==> a == b,
    decreases a.len(),
{
    if a.len() > 0 && b.len() > 0 && a[0] == b[0] {
        lemma_key_le_total(a.drop_first(), b.drop_first());
        if key_le(a, b) && key_le(b, a) {
            assert(a =~= seq![a[0]] + a.drop_first());
            assert(b =~= seq![b[0]] + b.drop_first());
        }
    } else if a.len() == 0 && b.len() == 0 {
        assert(a =~= b);
    }
}

/// The order of keys is transitive.
pub proof fn lemma_key_le_trans(a: Seq<char>, b: Seq<char>, c: Seq<char>)
    requires
        key_le(a, b),
        key_le(b, c),
    ensures
        key_le(a, c),
    decreases a.len(),
{
    if a.len() > 0 && b.len() > 0 && c.len() > 0 && a[0] == b[0] && b[0] == c[0] {
        lemma_key_le_trans(a.drop_first(), b.drop_first(), c.drop_first());
    }
}

/// Whether `a` sorts no later than `b`.
fn key_le_exec(a: &str, b: &str) -> (r: bool)
    ensures
        r == key_le(a@, b@),
{
    let x = crate::text::chars_of(a);
    let y = crate::text::chars_of(b);
    let mut i: usize = 0;
    proof {
        assert(x@.skip(0) =~= x@);
        assert(y@.skip(0) =~= y@);
    }
    while i < x.len() && i < y.len() && x[i] == y[i]
        invariant
            0 <= i <= x.len(),
            i <= y.len(),
            key_le(x@, y@) == key_le(x@.skip(i as int), y@.skip(i as int)),
        decreases x.len() - i,
    {
        proof {
            assert(x@.skip(i as int).drop_first() =~= x@.skip(i + 1));
            assert(y@.skip(i as int).drop_first() =~= y@.skip(i + 1));
        }
        i += 1;
    }
    proof {
        if i < x.len() && i < y.len() {
            assert(x@.skip(i as int)[0] == x@[i as int]);
            assert(y@.skip(i as int)[0] == y@[i as int]);
        }
    }
    if i >= x.len() {
        true
    } else if i >= y.len() {
        false
    } else {
        x[i] < y[i]
    }
}

/// Where a stable insertion puts index `x` into `t`: before the first
/// index from `j` on whose key sorts after the key of `x`.
pub open spec fn key_insertion_point(keys: Seq<Seq<char>>, t: Seq<int>, x: int, j: int) -> int
    decreases t.len() - j,
{
    if j < 0 || j >= t.len() {
        t.len() as int
    } else if !key_le(keys[t[j]], keys[x]) {
        j
    } else {
        key_insertion_point(keys, t, x, j + 1)
    }
}

/// The indices `0..m` stably sorted by their keys (what `sort_by` with the
/// order of `str` gives): equal keys keep their order.
pub open spec fn sorted_order(keys: Seq<Seq<char>>, m: nat) -> Seq<int>
    decreases m,
{
    if m == 0 {
        Seq::empty()
    } else {
        let t = sorted_order(keys, (m - 1) as nat);
        t.insert(key_insertion_point(keys, t, m - 1, 0), m - 1)
    }
}

proof fn lemma_key_insertion_point(keys: Seq<Seq<char>>, t: Seq<int>, x: int, j: int)
    requires
        0 <= j <= t.len(),
    ensures
        j <= key_insertion_point(keys, t, x, j) <= t.len(),
        forall|k: int| j <= k < key_insertion_point(keys, t, x, j) ==> key_le(keys[#[trigger] t[k]], keys[x]),
        key_insertion_point(keys, t, x, j) < t.len() ==> !key_le(keys[t[key_insertion_point(keys, t, x, j)]], keys[x]),
    decreases t.len() - j,
{
    if j < t.len() && key_le(keys[t[j]], keys[x]) {
        lemma_key_insertion_point(keys, t, x, j + 1);
    }
}

/// Sorting the indices `0..m` by key gives every index once, with keys in
/// order, and indices with equal keys in their first order.
pub proof fn lemma_sorted_order(keys: Seq<Seq<char>>, m: nat)
    requires
        m <= keys.len(),
    ensures
        sorted_order(keys, m).len() == m,
        forall|i: int| 0 <= i < m ==> 0 <= #[trigger] sorted_order(keys, m)[i] < m,
        forall|v: int| 0 <= v < m ==> sorted_order(keys, m).contains(v),
        sorted_order(keys, m).no_duplicates(),
        forall|i: int, j: int|
            0 <= i < j < m ==> key_le(keys[#[trigger] sorted_order(keys, m)[i]], keys[#[trigger] sorted_order(keys, m)[j]]),
        forall|i: int, j: int|
            0 <= i < j < m && keys[#[trigger] sorted_order(keys, m)[i]] == keys[#[trigger] sorted_order(keys, m)[j]]
                ==> sorted_order(keys, m)[i] < sorted_order(keys, m)[j],
    decreases m,
{
    if m > 0 {
        let t = sorted_order(keys, (m - 1) as nat);
        let x = m - 1;
        lemma_sorted_order(keys, (m - 1) as nat);
        lemma_key_insertion_point(keys, t, x, 0);
        let p = key_insertion_point(keys, t, x, 0);
        let r = t.insert(p, x);
        assert(r == sorted_order(keys, m));
        assert forall|i: int| 0 <= i < m implies 0 <= #[trigger] r[i] < m by {
            if i < p {
                assert(r[i] == t[i]);
            } else if i > p {
                assert(r[i] == t[i - 1]);
            }
        }
        assert forall|v: int| 0 <= v < m implies r.contains(v) by {
            if v == x {
                assert(r[p] == x);
            } else {
                assert(t.contains(v));
                let k = choose|k: int| 0 <= k < t.len() && t[k] == v;
                if k < p {
                    assert(r[k] == v);
                } else {
                    assert(r[k + 1] == v);
                }
            }
        }
        assert(r.no_duplicates()) by {
            assert forall|i: int, j: int| 0 <= i < r.len() && 0 <= j < r.len() && i != j implies r[i] != r[j] by {
                let ti = if i < p { i } else { i - 1 };
                let tj = if j < p { j } else { j - 1 };
                if i != p && j != p {
                    assert(r[i] == t[ti] && r[j] == t[tj]);
                } else if i == p {
                    assert(r[j] == t[tj]);
                    assert(t[tj] < m - 1);
                } else {
                    assert(r[i] == t[ti]);
                    assert(t[ti] < m - 1);
                }
            }
        }
        assert forall|i: int, j: int| 0 <= i < j < m implies key_le(keys[#[trigger] r[i]], keys[#[trigger] r[j]]) by {
            if j < p {
                assert(r[i] == t[i] && r[j] == t[j]);
            } else if j == p {
                assert(r[i] == t[i]);
            } else if i < p {
                assert(r[i] == t[i] && r[j] == t[j - 1]);
            } else if i == p {
                assert(r[j] == t[j - 1]);
                lemma_key_le_total(keys[x], keys[t[p]]);
                if j - 1 > p {
                    lemma_key_le_trans(keys[x], keys[t[p]], keys[t[j - 1]]);
                }
            } else {
                assert(r[i] == t[i - 1] && r[j] == t[j - 1]);
            }
        }
        assert forall|i: int, j: int| 0 <= i < j < m && keys[#[trigger] r[i]] == keys[#[trigger] r[j]] implies r[i] < r[j] by {
            if j < p {
                assert(r[i] == t[i] && r[j] == t[j]);
            } else if j == p {
                assert(r[i] == t[i]);
            } else if i < p {
                assert(r[i] == t[i] && r[j] == t[j - 1]);
            } else if i == p {
                assert(r[j] == t[j - 1]);
                if j - 1 > p {
                    assert(key_le(keys[t[p]], keys[t[j - 1]]));
                    lemma_key_le_trans(keys[t[p]], keys[t[j - 1]], keys[x]);
                }
            } else {
                assert(r[i] == t[i - 1] && r[j] == t[j - 1]);
            }
        }
    }
}

fn sort_indices(entries: &Vec<ObjectEntry>) -> (order: Vec<usize>)
    ensures
        indices(order@) == sorted_order(entry_keys(entries@), entries.len() as nat),
        order.len() == entries.len(),
        forall|k: int| 0 <= k < order.len() ==> order@[k] < entries.len(),
{
    let ghost keys = entry_keys(entries@);
    let mut out: Vec<usize> = Vec::new();
    let mut i: usize = 0;
    proof {
        assert(indices(out@) =~= Seq::<int>::empty());
    }
    while i < entries.len()
        invariant
            0 <= i <= entries.len(),
            keys == entry_keys(entries@),
            indices(out@) == sorted_order(keys, i as nat),
            out.len() == i,
            forall|k: int| 0 <= k < out.len() ==> out@[k] < i,
        decreases entries.len() - i,
    {
        let ghost t = indices(out@);
        let mut j: usize = 0;
        while j < out.len() && key_le_exec(entries[out[j]].key.as_str(), entries[i].key.as_str())
            invariant
                0 <= j <= out.len(),
                i < entries.len(),
                keys == entry_keys(entries@),
                t == indices(out@),
                forall|k: int| 0 <= k < out.len() ==> out@[k] < i,
                key_insertion_point(keys, t, i as int, j as int) == key_insertion_point(keys, t, i as int, 0),
            decreases out.len() - j,
        {
            proof {
                assert(t[j as int] == out@[j as int]);
            }
            j += 1;
        }
        proof {
            if j < out.len() {
                assert(t[j as int] == out@[j as int]);
            }
            assert(key_insertion_point(keys, t, i as int, j as int) == j);
        }
        out.insert(j, i);
        proof {
            assert(indices(out@) =~= t.insert(j as int, i as int));
            assert forall|k: int| 0 <= k < out.len() implies out@[k] < i + 1 by {
                if k < j {
                    assert(out@[k] == t[k]);
                }
            }
        }
        i += 1;
    }
    out
}

pub open spec fn indices(v: Seq<usize>) -> Seq<int> {
    v.map_values(|i: usize| i as int)
}

pub open spec fn entry_keys(es: Seq<ObjectEntry>) -> Seq<Seq<char>> {
    es.map_values(|e: ObjectEntry| e.key@)
}

// ---------------------------------------------------------------------------
// The sorted text of an object
// ---------------------------------------------------------------------------

pub open spec fn key_start(es: Seq<ObjectEntry>, i: int) -> nat {
    es[i].key_span.start.offset as nat
}

pub open spec fn value_end(es: Seq<ObjectEntry>, i: int) -> nat {
    es[i].value.spec_span().end.offset as nat
}

/// Whether entry `i`'s offsets can cut the text: its key start and value
/// end fall on character boundaries, it ends no earlier than it starts,
/// and it starts no earlier than the previous entry ends.
pub open spec fn entry_ready(s: Seq<char>, es: Seq<ObjectEntry>, i: int) -> bool {
    &&& byte_boundary(s, key_start(es, i))
    &&& byte_boundary(s, value_end(es, i))
    &&& key_start(es, i) <= value_end(es, i)
    &&& i >= 1 ==> value_end(es, i - 1) <= key_start(es, i)
}

/// Whether the offsets of every entry can cut the text.
pub open spec fn entries_ready(s: Seq<char>, es: Seq<ObjectEntry>) -> bool {
    forall|i: int| 0 <= i < es.len() ==> #[trigger] entry_ready(s, es, i)
}

/// The text of entry `i`: its key through the end of its value.
pub open spec fn entry_text(s: Seq<char>, es: Seq<ObjectEntry>, i: int) -> Seq<char> {
    s.subrange(char_index(s, key_start(es, i)), char_index(s, value_end(es, i)))
}

/// The text that leads to entry `i`: from the end of the previous entry
/// to its key (nothing for the first entry).
pub open spec fn lead_text(s: Seq<char>, es: Seq<ObjectEntry>, i: int) -> Seq<char> {
    if i == 0 {
        Seq::empty()
    } else {
        s.subrange(char_index(s, value_end(es, i - 1)), char_index(s, key_start(es, i)))
    }
}

/// The text after the last line feed of `p` (all of `p` when it has none).
pub open spec fn after_last_newline(p: Seq<char>) -> Seq<char>
    decreases p.len(),
{
    if p.len() == 0 {
        p
    } else if p.last() == '\n' {
        Seq::empty()
    } else {
        after_last_newline(p.drop_last()).push(p.last())
    }
}

/// The indentation shared by the entries: what follows the last line feed
/// of the first non-empty leading text from entry `i` on.
pub open spec fn shared_indent(s: Seq<char>, es: Seq<ObjectEntry>, i: int) -> Seq<char>
    decreases es.len() - i,
{
    if !(1 <= i < es.len()) {
        Seq::empty()
    } else if lead_text(s, es, i).len() > 0 {
        after_last_newline(lead_text(s, es, i))
    } else {
        shared_indent(s, es, i + 1)
    }
}

/// What goes before entry `i` when it is not placed first: its leading
/// text, or a line feed and the shared indentation when it has none.
pub open spec fn separator(s: Seq<char>, es: Seq<ObjectEntry>, i: int) -> Seq<char> {
    if lead_text(s, es, i).len() == 0 {
        seq!['\n'] + shared_indent(s, es, 1)
    } else {
        lead_text(s, es, i)
    }
}

/// The entries in `order`, the first `m` of them: each entry's text,
/// preceded by its separator but for the first.
pub open spec fn sorted_text(s: Seq<char>, es: Seq<ObjectEntry>, order: Seq<int>, m: nat) -> Seq<char>
    decreases m,
{
    if m == 0 {
        Seq::empty()
    } else {
        let idx = order[m - 1];
        sorted_text(s, es, order, (m - 1) as nat) + (if m == 1 {
            Seq::empty()
        } else {
            separator(s, es, idx)
        }) + entry_text(s, es, idx)
    }
}

proof fn lemma_entry_indices(s: Seq<char>, es: Seq<ObjectEntry>, i: int)
    requires
        entries_ready(s, es),
        0 <= i < es.len(),
    ensures
        0 <= char_index(s, key_start(es, i)) <= char_index(s, value_end(es, i)) <= s.len(),
        i >= 1 ==> char_index(s, value_end(es, i - 1)) <= char_index(s, key_start(es, i)),
{
    assert(entry_ready(s, es, i));
    lemma_char_index(s, key_start(es, i), value_end(es, i));
    lemma_char_index(s, value_end(es, i), value_end(es, i));
    if i >= 1 {
        assert(entry_ready(s, es, i - 1));
        lemma_char_index(s, value_end(es, i - 1), key_start(es, i));
    }
}

/// The text after the last line feed of `v[from..to]`.
fn after_last_newline_of(v: &Vec<char>, from: usize, to: usize) -> (r: String)
    requires
        from <= to <= v.len(),
    ensures
        r@ == after_last_newline(v@.subrange(from as int, to as int)),
{
    let ghost s = v@;
    let mut j = to;
    while j > from && v[j - 1] != '\n'
        invariant
            from <= j <= to <= v.len(),
            s == v@,
            after_last_newline(s.subrange(from as int, to as int)) == after_last_newline(s.subrange(from as int, j as int))
                + s.subrange(j as int, to as int),
        decreases j,
    {
        proof {
            let p = s.subrange(from as int, j as int);
            assert(p.drop_last() =~= s.subrange(from as int, j - 1));
            assert(p.last() == s[j - 1]);
            assert(seq![s[j - 1]] + s.subrange(j as int, to as int) =~= s.subrange(j - 1, to as int));
            assert(after_last_newline(p) =~= after_last_newline(s.subrange(from as int, j - 1)).push(s[j - 1]));
            assert(after_last_newline(p) + s.subrange(j as int, to as int) =~= after_last_newline(
                s.subrange(from as int, j - 1),
            ) + s.subrange(j - 1, to as int));
        }
        j -= 1;
    }
    proof {
        let p = s.subrange(from as int, j as int);
        if j > from {
            assert(p.last() == s[j - 1]);
        }
        assert(after_last_newline(p) =~= Seq::<char>::empty());
        assert(after_last_newline(s.subrange(from as int, to as int)) =~= s.subrange(j as int, to as int));
    }
    string_of(v, j, to)
}


/// The sorted text of entries whose offsets can cut the text.
fn build_sorted_text(v: &Vec<char>, entries: &Vec<ObjectEntry>, order: &Vec<usize>) -> (t: String)
    requires
        entries_ready(v@, entries@),
        entries.len() >= 1,
        order.len() == entries.len(),
        forall|k: int| 0 <= k < order.len() ==> order@[k] < entries.len(),
    ensures
        t@ == sorted_text(v@, entries@, indices(order@), entries.len() as nat),
{
    let ghost s = v@;
    let ghost es = entries@;
    let n = entries.len();
    // Character indices of every key start and value end.
    let mut ks: Vec<usize> = Vec::new();
    let mut ve: Vec<usize> = Vec::new();
    let mut i: usize = 0;
    while i < n
        invariant
            0 <= i <= n,
            n == entries.len(),
            s == v@,
            es == entries@,
            entries_ready(s, es),
            ks.len() == i,
            ve.len() == i,
            forall|k: int| 0 <= k < i ==> #[trigger] ks@[k] == char_index(s, key_start(es, k)),
            forall|k: int| 0 <= k < i ==> #[trigger] ve@[k] == char_index(s, value_end(es, k)),
        decreases n - i,
    {
        assert(entry_ready(s, es, i as int));
        ks.push(char_index_of(v, entries[i].key_span.start.offset));
        ve.push(char_index_of(v, entries[i].value.span().end.offset));
        i += 1;
    }
    // The shared indentation.
    let mut indent = String::new();
    let mut found = false;
    proof {
        assert(indent@ =~= Seq::<char>::empty());
    }
    let mut j: usize = 1;
    while j < n && !found
        invariant
            1 <= j <= n,
            n == entries.len(),
            s == v@,
            es == entries@,
            entries_ready(s, es),
            ks.len() == n,
            ve.len() == n,
            forall|k: int| 0 <= k < n ==> #[trigger] ks@[k] == char_index(s, key_start(es, k)),
            forall|k: int| 0 <= k < n ==> #[trigger] ve@[k] == char_index(s, value_end(es, k)),
            found ==> indent@ == shared_indent(s, es, 1),
            !found ==> indent@ == Seq::<char>::empty(),
            !found ==> shared_indent(s, es, j as int) == shared_indent(s, es, 1),
        decreases n - j, if found { 0nat } else { 1nat },
    {
        proof {
            lemma_entry_indices(s, es, j as int);
            assert(ks@[j as int] == char_index(s, key_start(es, j as int)));
            assert(ve@[j - 1] == char_index(s, value_end(es, j - 1)));
        }
        if ks[j] > ve[j - 1] {
            indent = after_last_newline_of(v, ve[j - 1], ks[j]);
            found = true;
        } else {
            proof {
                assert(lead_text(s, es, j as int).len() == 0);
            }
            j += 1;
        }
    }
    proof {
        if !found {
            assert(shared_indent(s, es, j as int) =~= Seq::<char>::empty());
        }
    }
    let mut out = String::new();
    let ghost ord = indices(order@);
    let mut m: usize = 0;
    proof {
        assert(out@ =~= Seq::<char>::empty());
    }
    while m < n
        invariant
            0 <= m <= n,
            n == entries.len(),
            s == v@,
            es == entries@,
            entries_ready(s, es),
            ks.len() == n,
            ve.len() == n,
            order.len() == n,
            ord == indices(order@),
            forall|k: int| 0 <= k < order.len() ==> order@[k] < entries.len(),
            forall|k: int| 0 <= k < n ==> #[trigger] ks@[k] == char_index(s, key_start(es, k)),
            forall|k: int| 0 <= k < n ==> #[trigger] ve@[k] == char_index(s, value_end(es, k)),
            indent@ == shared_indent(s, es, 1),
            out@ == sorted_text(s, es, ord, m as nat),
        decreases n - m,
    {
        let idx = order[m];
        proof {
            lemma_entry_indices(s, es, idx as int);
            assert(ord[m as int] == idx);
        }
        let ghost before = out@;
        if m != 0 {
            if idx == 0 || ks[idx] == ve[idx - 1] {
                proof {
                    assert(lead_text(s, es, idx as int) =~= Seq::<char>::empty());
                }
                out.push('\n');
                out.append(indent.as_str());
            } else {
                crate::text::push_chars(&mut out, v, ve[idx - 1], ks[idx]);
            }
        }
        let ghost mid = out@;
        crate::text::push_chars(&mut out, v, ks[idx], ve[idx]);
        proof {
            if m != 0 {
                assert(mid =~= before + separator(s, es, idx as int));
            } else {
                assert(mid =~= before + Seq::<char>::empty());
            }
            assert(out@ =~= sorted_text(s, es, ord, (m + 1) as nat));
        }
        m += 1;
    }
    out
}

// ---------------------------------------------------------------------------
// The action
// ---------------------------------------------------------------------------

/// A code action: a title, a kind, and the text that replaces a range of
/// the document.
#[derive(Debug, Clone)]
pub struct CodeAction {
    /// The title shown to the user
    pub title: String,
    /// The action's kind
    pub kind: String,
    /// The range the edit replaces
    pub range: LspRange,
    /// The replacement text
    pub new_text: String,
}

/// The entries of the innermost object on a path.
pub open spec fn innermost_object(steps: Seq<StepView>) -> Option<Seq<ObjectEntry>>
    decreases steps.len(),
{
    if steps.len() == 0 {
        None
    } else {
        match steps.last().0 {
            AstNode::Object { entries, .. } => Some(entries@),
            _ => innermost_object(steps.drop_last()),
        }
    }
}

/// Whether the keys of `es` are in order, each no later than the next.
pub open spec fn keys_sorted(es: Seq<ObjectEntry>) -> bool {
    forall|i: int| 0 <= i < es.len() - 1 ==> key_le(#[trigger] es[i].key@, es[i + 1].key@)
}

/// The object whose keys the cursor asks to sort: the innermost object on
/// the path to the cursor, when it has two keys or more, out of order.
pub open spec fn sort_target(ast: AstNode, s: Seq<char>, line: u32, character: u32) -> Option<Seq<ObjectEntry>> {
    let pos = Position { line, column: character, offset: protocol_offset(s, line, character) as u32 };
    if !ast.spec_span().spec_contains(pos) {
        None
    } else {
        match innermost_object(seq![(ast, None::<Seq<char>>, None::<usize>)] + descent(ast, pos).0) {
            Some(es) => if es.len() >= 2 && !keys_sorted(es) {
                Some(es)
            } else {
                None
            },
            None => None,
        }
    }
}

/// The edit that sorts `es`: the range from the first key to the end of the
/// last value, and the entries' texts in key order.
pub open spec fn sort_edit(s: Seq<char>, es: Seq<ObjectEntry>) -> (LspRange, Seq<char>) {
    (
        LspRange {
            start: position_at(s, char_index(s, key_start(es, 0))),
            end: position_at(s, char_index(s, value_end(es, es.len() - 1))),
        },
        sorted_text(s, es, sorted_order(entry_keys(es), es.len()), es.len()),
    )
}

/// Whether the object that the cursor asks to sort can have its text cut.
pub open spec fn sort_keys_safe(ast: AstNode, s: Seq<char>, line: u32, character: u32) -> bool {
    sort_target(ast, s, line, character) matches Some(es) ==> entries_ready(s, es)
}

fn innermost_object_of<'a>(path: &Vec<NodePathEntry<'a>>) -> (r: Option<&'a Vec<ObjectEntry>>)
    ensures
        match r {
            Some(es) => innermost_object(steps_view(path@)) == Some(es@),
            None => innermost_object(steps_view(path@)) is None,
        },
{
    let ghost st = steps_view(path@);
    let mut i = path.len();
    proof {
        assert(st.take(st.len() as int) =~= st);
    }
    while i > 0
        invariant
            0 <= i <= path.len(),
            st == steps_view(path@),
            innermost_object(st.take(i as int)) == innermost_object(st),
        decreases i,
    {
        proof {
            assert(st.take(i as int).last() == st[i - 1]);
            assert(st.take(i as int).drop_last() =~= st.take(i - 1));
        }
        match path[i - 1].node {
            AstNode::Object { entries, .. } => {
                return Some(entries);
            },
            _ => {},
        }
        i -= 1;
    }
    proof {
        assert(st.take(0) =~= Seq::<StepView>::empty());
    }
    None
}

fn keys_in_order(entries: &Vec<ObjectEntry>) -> (b: bool)
    ensures
        b == keys_sorted(entries@),
{
    if entries.len() < 2 {
        return true;
    }
    let mut i: usize = 0;
    while i < entries.len() - 1
        invariant
            entries.len() >= 2,
            0 <= i <= entries.len() - 1,
            forall|k: int| 0 <= k < i ==> key_le(#[trigger] entries@[k].key@, entries@[k + 1].key@),
        decreases entries.len() - i,
    {
        if !key_le_exec(entries[i].key.as_str(), entries[i + 1].key.as_str()) {
            return false;
        }
        i += 1;
    }
    true
}

/// The object under the cursor whose keys could be sorted, if any.
fn sort_target_of<'a>(ast: &'a AstNode, v: &Vec<char>, line: u32, character: u32) -> (r: Option<&'a Vec<ObjectEntry>>)
    requires
        utf8_len(v@) <= u32::MAX,
    ensures
        match r {
            Some(es) => sort_target(*ast, v@, line, character) == Some(es@),
            None => sort_target(*ast, v@, line, character) is None,
        },
{
    let offset = lsp_pos_to_offset(v, line, character);
    let found = find_node_at_position(ast, line, character, offset);
    match found {
        None => None,
        Some(found) => match innermost_object_of(&found.path) {
            None => None,
            Some(entries) => {
                if entries.len() < 2 || keys_in_order(entries) {
                    None
                } else {
                    Some(entries)
                }
            },
        },
    }
}

/// Whether every entry's offsets can cut the text.
fn entries_fit(v: &Vec<char>, entries: &Vec<ObjectEntry>) -> (b: bool)
    ensures
        b == entries_ready(v@, entries@),
{
    let ghost s = v@;
    let ghost es = entries@;
    let mut i: usize = 0;
    while i < entries.len()
        invariant
            0 <= i <= entries.len(),
            s == v@,
            es == entries@,
            forall|k: int| 0 <= k < i ==> #[trigger] entry_ready(s, es, k),
        decreases entries.len() - i,
    {
        let ks = entries[i].key_span.start.offset;
        let ve = entries[i].value.span().end.offset;
        if !is_byte_boundary(v, ks) || !is_byte_boundary(v, ve) || ks > ve || (i >= 1 && entries[i
            - 1].value.span().end.offset > ks) {
            proof {
                assert(!entry_ready(s, es, i as int));
            }
            return false;
        }
        proof {
            assert(entry_ready(s, es, i as int));
        }
        i += 1;
    }
    true
}

/// Whether byte offset `b` falls on a character boundary of `v`.
fn is_byte_boundary(v: &Vec<char>, b: u32) -> (r: bool)
    ensures
        r == byte_boundary(v@, b as nat),
{
    let ghost s = v@;
    let mut k: usize = 0;
    let mut bytes: u64 = 0;
    proof {
        assert(s.take(0) =~= Seq::<char>::empty());
    }
    while k < v.len() && bytes < b as u64
        invariant
            s == v@,
            0 <= k <= v.len(),
            bytes == utf8_len(s.take(k as int)),
            bytes <= b + 4,
            forall|j: int| 0 <= j < k ==> utf8_len(#[trigger] s.take(j)) < b,
        decreases v.len() - k,
    {
        proof {
            lemma_take_step(s, k as int);
        }
        bytes = bytes + char_utf8_width(v[k]) as u64;
        k += 1;
    }
    if bytes == b as u64 {
        return true;
    }
    proof {
        assert forall|j: int| 0 <= j <= s.len() implies utf8_len(#[trigger] s.take(j)) != b by {
            if j > k {
                lemma_prefix_lens_le(s, k as int, j);
            }
        }
    }
    false
}

/// Whether the keys of the object under the cursor can be sorted without
/// cutting a character: the condition of `collect_code_actions`.
pub fn sort_keys_ready(ast: &AstNode, source: &str, line: u32, character: u32) -> (b: bool)
    requires
        utf8_len(source@) <= u32::MAX,
    ensures
        b == sort_keys_safe(*ast, source@, line, character),
{
    let v = crate::text::chars_of(source);
    match sort_target_of(ast, &v, line, character) {
        None => true,
        Some(entries) => entries_fit(&v, entries),
    }
}

/// The code actions for a cursor position: one action, "Sort Object Keys
/// Alphabetically" (kind `source.sortObjectKeys`), when the innermost
/// object on the path to the cursor has two keys or more out of order. Its
/// edit replaces the text from the first key to the end of the last value
/// with the entries' texts in key order (stably), each entry but the first
/// preceded by the text that led to it, or by a line feed and the shared
/// indentation when it had none.
pub fn collect_code_actions(ast: &AstNode, source: &str, range: LspRange) -> (r: Vec<CodeAction>)
    requires
        utf8_len(source@) <= u32::MAX,
        sort_keys_safe(*ast, source@, range.start.line, range.start.character),
    ensures
        match sort_target(*ast, source@, range.start.line, range.start.character) {
            None => r.len() == 0,
            Some(es) => {
                &&& r.len() == 1
                &&& r[0].title@ == "Sort Object Keys Alphabetically"@
                &&& r[0].kind@ == "source.sortObjectKeys"@
                &&& (r[0].range, r[0].new_text@) == sort_edit(source@, es)
            },
        },
{
    let mut actions: Vec<CodeAction> = Vec::new();
    match generate_sort_keys_action(ast, source, range) {
        Some(a) => actions.push(a),
        None => {},
    }
    actions
}

fn generate_sort_keys_action(ast: &AstNode, source: &str, range: LspRange) -> (r: Option<CodeAction>)
    requires
        utf8_len(source@) <= u32::MAX,
        sort_keys_safe(*ast, source@, range.start.line, range.start.character),
    ensures
        match sort_target(*ast, source@, range.start.line, range.start.character) {
            None => r is None,
            Some(es) => r matches Some(a) && a.title@ == "Sort Object Keys Alphabetically"@ && a.kind@
                == "source.sortObjectKeys"@ && (a.range, a.new_text@) == sort_edit(source@, es),
        },
{
    let v = crate::text::chars_of(source);
    let entries = match sort_target_of(ast, &v, range.start.line, range.start.character) {
        None => return None,
        Some(entries) => entries,
    };
    let ghost s = v@;
    let ghost es = entries@;
    let n = entries.len();
    let order = sort_indices(entries);
    let new_text = build_sorted_text(&v, entries, &order);
    proof {
        assert(entry_ready(s, es, 0));
        assert(entry_ready(s, es, n - 1));
        lemma_entry_indices(s, es, 0);
        lemma_entry_indices(s, es, n - 1);
    }
    let start = offset_to_lsp_pos(&v, entries[0].key_span.start.offset);
    let end = offset_to_lsp_pos(&v, entries[n - 1].value.span().end.offset);
    let title = String::from_str("Sort Object Keys Alphabetically");
    let kind = String::from_str("source.sortObjectKeys");
    proof {
        reveal_strlit("Sort Object Keys Alphabetically");
        reveal_strlit("source.sortObjectKeys");
    }
    Some(CodeAction { title, kind, range: LspRange { start, end }, new_text })
}

} // verus!
