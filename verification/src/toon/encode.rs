//! The TOON encoder: JSON values written as TOON text. Objects become
//! indented `key: value` lines; arrays of scalars become one `key[N]: a,b`
//! line; arrays of uniform flat objects become a tabular block; any other
//! array becomes `- ` items.
use super::emit::{
    delimiter_char, emit_json_scalar, emit_scalar_string, is_container, is_container_exec, scalar_string_text,
    scalar_text, Delimiter,
};
use super::error::EncodeError;
use super::fold::{flatten_keys, flatten_view, fold_keys, fold_view};
use super::value::{json_view, JsonValue, JsonView};
use super::ToonConfig;
use crate::text::{decimal_digits, push_decimal};
use vstd::prelude::*;

verus! {

/// `n` spaces.
pub open spec fn spaces(n: nat) -> Seq<char> {
    Seq::new(n, |i: int| ' ')
}

/// `level + k`, held at `usize::MAX`.
pub open spec fn deeper(level: usize, k: usize) -> usize {
    if level + k > usize::MAX {
        usize::MAX
    } else {
        (level + k) as usize
    }
}

/// The indentation of a line at `level`.
pub open spec fn indent_text(level: usize, ind: usize) -> Seq<char> {
    spaces((level * ind) as nat)
}

/// `[N]` for a count.
pub open spec fn count_text(n: nat) -> Seq<char> {
    seq!['['] + decimal_digits(n) + seq![']']
}

/// Whether no item is a container.
pub open spec fn all_scalar(s: Seq<JsonValue>) -> bool {
    forall|i: int| 0 <= i < s.len() ==> !is_container(#[trigger] s[i])
}

/// The scalars of `s` joined by `d`.
pub open spec fn joined_scalars(s: Seq<JsonValue>, d: char) -> Seq<char>
    decreases s.len(),
{
    if s.len() == 0 {
        Seq::empty()
    } else if s.len() == 1 {
        scalar_text(s[0], d)
    } else {
        joined_scalars(s.drop_last(), d) + seq![d] + scalar_text(s.last(), d)
    }
}

/// The value of the first entry with key `k`.
pub open spec fn lookup(m: Seq<(String, JsonValue)>, k: Seq<char>) -> Option<JsonValue>
    decreases m.len(),
{
    if m.len() == 0 {
        None
    } else if m[0].0@ == k {
        Some(m[0].1)
    } else {
        lookup(m.drop_first(), k)
    }
}

/// Whether `v` is an object with as many entries as `first` and a scalar
/// under each of `first`'s keys.
pub open spec fn uniform_row(v: JsonValue, first: Seq<(String, JsonValue)>) -> bool {
    v matches JsonValue::Object(m) && m@.len() == first.len() && forall|i: int|
        0 <= i < first.len() ==> (#[trigger] lookup(m@, first[i].0@) matches Some(x) && !is_container(x))
}

/// The entries of the first item when `arr` goes in tabular form: the first
/// item is a non-empty object of scalars and every item is uniform with it.
pub open spec fn tabular_first(arr: Seq<JsonValue>) -> Option<Seq<(String, JsonValue)>> {
    if arr.len() > 0 && arr[0] is Object {
        let first = arr[0]->Object_0@;
        if first.len() > 0 && (forall|i: int| 0 <= i < first.len() ==> !is_container(#[trigger] first[i].1)) && (forall|
            j: int,
        | 0 <= j < arr.len() ==> uniform_row(#[trigger] arr[j], first)) {
            Some(first)
        } else {
            None
        }
    } else {
        None
    }
}

/// The header fields of a tabular block: the keys, joined by `d`.
pub open spec fn header_fields(first: Seq<(String, JsonValue)>, d: char) -> Seq<char>
    decreases first.len(),
{
    if first.len() == 0 {
        Seq::empty()
    } else if first.len() == 1 {
        scalar_string_text(first[0].0@, d)
    } else {
        header_fields(first.drop_last(), d) + seq![d] + scalar_string_text(first.last().0@, d)
    }
}

/// The cells of a row: the value under each of the first `k` keys of
/// `first`, joined by `d`.
pub open spec fn row_cells(m: Seq<(String, JsonValue)>, first: Seq<(String, JsonValue)>, k: int, d: char) -> Seq<char>
    decreases k,
{
    if k <= 0 {
        Seq::empty()
    } else {
        row_cells(m, first, k - 1, d) + (if k > 1 {
            seq![d]
        } else {
            Seq::empty()
        }) + match lookup(m, first[k - 1].0@) {
            Some(v) => scalar_text(v, d),
            None => Seq::empty(),
        }
    }
}

/// The rows of a tabular block, one line each at `level + 1`.
pub open spec fn tabular_rows(arr: Seq<JsonValue>, first: Seq<(String, JsonValue)>, level: usize, ind: usize, d: char) -> Seq<
    char,
>
    decreases arr.len(),
{
    if arr.len() == 0 {
        Seq::empty()
    } else {
        tabular_rows(arr.drop_last(), first, level, ind, d) + match arr.last() {
            JsonValue::Object(m) => indent_text(deeper(level, 1), ind) + row_cells(m@, first, first.len() as int, d)
                + seq!['\n'],
            _ => Seq::empty(),
        }
    }
}

/// A tabular block: `[N]{fields}:` and the rows.
pub open spec fn tabular_text(arr: Seq<JsonValue>, first: Seq<(String, JsonValue)>, level: usize, ind: usize, d: char) -> Seq<
    char,
> {
    count_text(arr.len()) + seq!['{'] + header_fields(first, d) + "}:\n"@ + tabular_rows(arr, first, level, ind, d)
}

/// The lines of an object's entries at `level`.
pub open spec fn object_text(m: Seq<(String, JsonValue)>, level: usize, ind: usize, d: char) -> Seq<char>
    decreases m, 0int,
{
    if m.len() == 0 {
        Seq::empty()
    } else {
        let k = m.last().0@;
        let v = m.last().1;
        object_text(m.drop_last(), level, ind, d) + match v {
            JsonValue::Array(arr) => indent_text(level, ind) + scalar_string_text(k, d) + if arr@.len() == 0 {
                ": []\n"@
            } else {
                array_body_text(arr@, level, ind, d)
            },
            JsonValue::Object(child) => indent_text(level, ind) + scalar_string_text(k, d) + ":\n"@ + object_text(
                child@,
                deeper(level, 1),
                ind,
                d,
            ),
            _ => indent_text(level, ind) + scalar_string_text(k, d) + ": "@ + scalar_text(v, d) + seq!['\n'],
        }
    }
}

/// An array from its `[N]` on: inline scalars, a tabular block, or
/// expanded items one level deeper.
pub open spec fn array_body_text(arr: Seq<JsonValue>, level: usize, ind: usize, d: char) -> Seq<char>
    decreases arr, 1int,
{
    if all_scalar(arr) {
        count_text(arr.len()) + seq![':'] + (if arr.len() > 0 {
            seq![' '] + joined_scalars(arr, d)
        } else {
            Seq::empty()
        }) + seq!['\n']
    } else {
        match tabular_first(arr) {
            Some(first) => tabular_text(arr, first, level, ind, d),
            None => count_text(arr.len()) + ":\n"@ + expanded_items_text(arr, deeper(level, 1), ind, d),
        }
    }
}

/// Expanded items at `level`.
pub open spec fn expanded_items_text(arr: Seq<JsonValue>, level: usize, ind: usize, d: char) -> Seq<char>
    decreases arr, 0int,
{
    if arr.len() == 0 {
        Seq::empty()
    } else {
        expanded_items_text(arr.drop_last(), level, ind, d) + expanded_item_text(arr.last(), level, ind, d)
    }
}

/// One expanded item at `level`: an object, an array, or a scalar after
/// `- `.
pub open spec fn expanded_item_text(v: JsonValue, level: usize, ind: usize, d: char) -> Seq<char>
    decreases v, 0int,
{
    match v {
        JsonValue::Object(m) => if m@.len() == 0 {
            indent_text(level, ind) + "-\n"@
        } else {
            expanded_entries_text(m@, m@.len() as int, level, ind, d)
        },
        JsonValue::Array(inner) => indent_text(level, ind) + "- "@ + array_body_text(inner@, level, ind, d),
        _ => indent_text(level, ind) + "- "@ + scalar_text(v, d) + seq!['\n'],
    }
}

/// How entry `k` (counting from one) of an expanded object starts: the
/// first after `- `, the others one level deeper.
pub open spec fn entry_lead(k: int, level: usize, ind: usize) -> Seq<char> {
    if k == 1 {
        indent_text(level, ind) + "- "@
    } else {
        indent_text(deeper(level, 1), ind)
    }
}

/// An entry of an expanded object after its lead: a nested object two
/// levels deeper, an array one level deeper, or a scalar.
pub open spec fn expanded_entry_text(e: (String, JsonValue), level: usize, ind: usize, d: char) -> Seq<char>
    decreases e, 0int,
{
    match e.1 {
        JsonValue::Object(child) => scalar_string_text(e.0@, d) + ":\n"@ + object_text(child@, deeper(level, 2), ind, d),
        JsonValue::Array(arr) => scalar_string_text(e.0@, d) + array_body_text(arr@, deeper(level, 1), ind, d),
        _ => scalar_string_text(e.0@, d) + ": "@ + scalar_text(e.1, d) + seq!['\n'],
    }
}

/// The first `k` entries of an object written as an expanded item.
pub open spec fn expanded_entries_text(m: Seq<(String, JsonValue)>, k: int, level: usize, ind: usize, d: char) -> Seq<char>
    decreases m, k,
{
    if k <= 0 || k > m.len() {
        Seq::empty()
    } else {
        expanded_entries_text(m, k - 1, level, ind, d) + entry_lead(k, level, ind) + expanded_entry_text(
            m[k - 1],
            level,
            ind,
            d,
        )
    }
}

// ---------------------------------------------------------------------------
// Writing
// ---------------------------------------------------------------------------

/// Appends the indentation of a line at `level`.
fn push_indent(out: &mut String, level: usize, ind: usize)
    ensures
        final(out)@ == old(out)@ + indent_text(level, ind),
{
    let mut i: usize = 0;
    while i < level
        invariant
            0 <= i <= level,
            out@ == old(out)@ + spaces((i * ind) as nat),
        decreases level - i,
    {
        let mut j: usize = 0;
        while j < ind
            invariant
                0 <= j <= ind,
                i < level,
                out@ == old(out)@ + spaces((i * ind + j) as nat),
            decreases ind - j,
        {
            out.push(' ');
            proof {
                assert(spaces((i * ind + j) as nat).push(' ') =~= spaces((i * ind + j + 1) as nat));
            }
            j += 1;
        }
        proof {
            assert((i + 1) * ind == i * ind + ind) by (nonlinear_arith);
        }
        i += 1;
    }
}

/// The value of the first entry with key `k`.
fn lookup_exec<'a>(m: &'a Vec<(String, JsonValue)>, k: &String) -> (r: Option<&'a JsonValue>)
    ensures
        match r {
            Some(v) => lookup(m@, k@) == Some(*v),
            None => lookup(m@, k@) is None,
        },
{
    let mut i: usize = 0;
    proof {
        assert(m@.skip(0) =~= m@);
    }
    while i < m.len()
        invariant
            0 <= i <= m.len(),
            lookup(m@.skip(i as int), k@) == lookup(m@, k@),
        decreases m.len() - i,
    {
        proof {
            assert(m@.skip(i as int)[0] == m@[i as int]);
            assert(m@.skip(i as int).drop_first() =~= m@.skip(i + 1));
        }
        if m[i].0 == *k {
            return Some(&m[i].1);
        }
        i += 1;
    }
    None
}

fn all_scalar_exec(arr: &Vec<JsonValue>) -> (b: bool)
    ensures
        b == all_scalar(arr@),
{
    let mut i: usize = 0;
    while i < arr.len()
        invariant
            0 <= i <= arr.len(),
            forall|j: int| 0 <= j < i ==> !is_container(#[trigger] arr@[j]),
        decreases arr.len() - i,
    {
        if is_container_exec(&arr[i]) {
            return false;
        }
        i += 1;
    }
    true
}

fn uniform_row_exec(v: &JsonValue, first: &Vec<(String, JsonValue)>) -> (b: bool)
    ensures
        b == uniform_row(*v, first@),
{
    match v {
        JsonValue::Object(m) => {
            if m.len() != first.len() {
                return false;
            }
            let mut i: usize = 0;
            while i < first.len()
                invariant
                    0 <= i <= first.len(),
                    m.len() == first.len(),
                    *v == JsonValue::Object(*m),
                    forall|j: int|
                        0 <= j < i ==> (#[trigger] lookup(m@, first@[j].0@) matches Some(x) && !is_container(x)),
                decreases first.len() - i,
            {
                match lookup_exec(m, &first[i].0) {
                    None => {
                        return false;
                    },
                    Some(x) => {
                        if is_container_exec(x) {
                            return false;
                        }
                    },
                }
                i += 1;
            }
            true
        },
        _ => false,
    }
}

fn tabular_first_exec(arr: &Vec<JsonValue>) -> (r: Option<&Vec<(String, JsonValue)>>)
    ensures
        match r {
            Some(f) => tabular_first(arr@) == Some(f@),
            None => tabular_first(arr@) is None,
        },
{
    if arr.len() == 0 {
        return None;
    }
    let first = match &arr[0] {
        JsonValue::Object(m) => m,
        _ => {
            return None;
        },
    };
    if first.len() == 0 {
        return None;
    }
    let mut i: usize = 0;
    while i < first.len()
        invariant
            0 <= i <= first.len(),
            arr.len() > 0,
            arr@[0] == JsonValue::Object(*first),
            forall|j: int| 0 <= j < i ==> !is_container(#[trigger] first@[j].1),
        decreases first.len() - i,
    {
        if is_container_exec(&first[i].1) {
            proof {
                assert(is_container(first@[i as int].1));
            }
            return None;
        }
        i += 1;
    }
    let mut j: usize = 0;
    while j < arr.len()
        invariant
            0 <= j <= arr.len(),
            arr.len() > 0,
            arr@[0] == JsonValue::Object(*first),
            forall|k: int| 0 <= k < j ==> uniform_row(#[trigger] arr@[k], first@),
        decreases arr.len() - j,
    {
        if !uniform_row_exec(&arr[j], first) {
            proof {
                assert(!uniform_row(arr@[j as int], first@));
            }
            return None;
        }
        j += 1;
    }
    Some(first)
}

/// Appends the scalars of `arr` joined by the delimiter.
fn push_joined(out: &mut String, arr: &Vec<JsonValue>, delim: Delimiter)
    ensures
        final(out)@ == old(out)@ + joined_scalars(arr@, delimiter_char(delim)),
{
    let ghost d = delimiter_char(delim);
    let mut i: usize = 0;
    proof {
        assert(arr@.take(0) =~= Seq::<JsonValue>::empty());
    }
    while i < arr.len()
        invariant
            0 <= i <= arr.len(),
            d == delimiter_char(delim),
            out@ == old(out)@ + joined_scalars(arr@.take(i as int), d),
        decreases arr.len() - i,
    {
        let ghost before = out@;
        if i > 0 {
            out.push(delim.as_char());
        }
        let _ = emit_json_scalar(out, &arr[i], delim);
        proof {
            let t = arr@.take(i + 1);
            assert(t.drop_last() =~= arr@.take(i as int));
            assert(t.last() == arr@[i as int]);
            if i == 0 {
                assert(t[0] == arr@[0]);
            }
            assert(out@ =~= old(out)@ + joined_scalars(t, d));
        }
        i += 1;
    }
    proof {
        assert(arr@.take(arr.len() as int) =~= arr@);
    }
}

fn push_count(out: &mut String, n: usize)
    ensures
        final(out)@ == old(out)@ + count_text(n as nat),
{
    out.push('[');
    push_decimal(out, n as u64);
    out.push(']');
    proof {
        assert(final(out)@ =~= old(out)@ + count_text(n as nat));
    }
}

/// Appends a tabular block.
fn emit_tabular(out: &mut String, arr: &Vec<JsonValue>, first: &Vec<(String, JsonValue)>, level: usize, ind: usize, delim: Delimiter)
    ensures
        final(out)@ == old(out)@ + tabular_text(arr@, first@, level, ind, delimiter_char(delim)),
{
    let ghost d = delimiter_char(delim);
    push_count(out, arr.len());
    out.push('{');
    let ghost head = out@;
    let mut i: usize = 0;
    proof {
        assert(first@.take(0) =~= Seq::<(String, JsonValue)>::empty());
    }
    while i < first.len()
        invariant
            0 <= i <= first.len(),
            d == delimiter_char(delim),
            out@ == head + header_fields(first@.take(i as int), d),
        decreases first.len() - i,
    {
        if i > 0 {
            out.push(delim.as_char());
        }
        emit_scalar_string(out, first[i].0.as_str(), delim);
        proof {
            let t = first@.take(i + 1);
            assert(t.drop_last() =~= first@.take(i as int));
            assert(t.last() == first@[i as int]);
            if i == 0 {
                assert(t[0] == first@[0]);
            }
            assert(out@ =~= head + header_fields(t, d));
        }
        i += 1;
    }
    proof {
        assert(first@.take(first.len() as int) =~= first@);
    }
    out.append("}:\n");
    proof {
        reveal_strlit("}:\n");
    }
    let ghost body = out@;
    let mut r: usize = 0;
    proof {
        assert(arr@.take(0) =~= Seq::<JsonValue>::empty());
    }
    while r < arr.len()
        invariant
            0 <= r <= arr.len(),
            d == delimiter_char(delim),
            out@ == body + tabular_rows(arr@.take(r as int), first@, level, ind, d),
        decreases arr.len() - r,
    {
        let ghost before = out@;
        match &arr[r] {
            JsonValue::Object(m) => {
                push_indent(out, level.saturating_add(1), ind);
                let ghost cells = out@;
                let mut c: usize = 0;
                while c < first.len()
                    invariant
                        0 <= c <= first.len(),
                        d == delimiter_char(delim),
                        out@ == cells + row_cells(m@, first@, c as int, d),
                    decreases first.len() - c,
                {
                    if c > 0 {
                        out.push(delim.as_char());
                    }
                    let ghost mid = out@;
                    match lookup_exec(m, &first[c].0) {
                        Some(v) => {
                            let _ = emit_json_scalar(out, v, delim);
                        },
                        None => {},
                    }
                    proof {
                        assert(out@ =~= cells + row_cells(m@, first@, c + 1, d));
                    }
                    c += 1;
                }
                out.push('\n');
            },
            _ => {},
        }
        proof {
            let t = arr@.take(r + 1);
            assert(t.drop_last() =~= arr@.take(r as int));
            assert(t.last() == arr@[r as int]);
            assert(out@ =~= body + tabular_rows(t, first@, level, ind, d));
        }
        r += 1;
    }
    proof {
        assert(arr@.take(arr.len() as int) =~= arr@);
        assert(out@ =~= old(out)@ + tabular_text(arr@, first@, level, ind, d));
    }
}

/// Appends the lines of an object's entries at `level`.
fn encode_object(out: &mut String, m: &Vec<(String, JsonValue)>, level: usize, ind: usize, delim: Delimiter)
    ensures
        final(out)@ == old(out)@ + object_text(m@, level, ind, delimiter_char(delim)),
    decreases m, 0int,
{
    let ghost d = delimiter_char(delim);
    let mut i: usize = 0;
    proof {
        assert(m@.take(0) =~= Seq::<(String, JsonValue)>::empty());
    }
    while i < m.len()
        invariant
            0 <= i <= m.len(),
            d == delimiter_char(delim),
            out@ == old(out)@ + object_text(m@.take(i as int), level, ind, d),
        decreases m.len() - i,
    {
        let ghost before = out@;
        let key = &m[i].0;
        let value = &m[i].1;
        push_indent(out, level, ind);
        emit_scalar_string(out, key.as_str(), delim);
        match value {
            JsonValue::Array(arr) => {
                if arr.len() == 0 {
                    out.append(": []\n");
                    proof {
                        reveal_strlit(": []\n");
                    }
                } else {
                    encode_array_body(out, arr, level, ind, delim);
                }
            },
            JsonValue::Object(child) => {
                out.append(":\n");
                proof {
                    reveal_strlit(":\n");
                }
                encode_object(out, child, level.saturating_add(1), ind, delim);
            },
            _ => {
                out.append(": ");
                proof {
                    reveal_strlit(": ");
                }
                let _ = emit_json_scalar(out, value, delim);
                out.push('\n');
            },
        }
        proof {
            let t = m@.take(i + 1);
            assert(t.drop_last() =~= m@.take(i as int));
            assert(t.last() == m@[i as int]);
            assert(out@ =~= old(out)@ + object_text(t, level, ind, d));
        }
        i += 1;
    }
    proof {
        assert(m@.take(m.len() as int) =~= m@);
    }
}

/// Appends an array from its `[N]` on.
fn encode_array_body(out: &mut String, arr: &Vec<JsonValue>, level: usize, ind: usize, delim: Delimiter)
    ensures
        final(out)@ == old(out)@ + array_body_text(arr@, level, ind, delimiter_char(delim)),
    decreases arr, 1int,
{
    if all_scalar_exec(arr) {
        push_count(out, arr.len());
        out.push(':');
        if arr.len() > 0 {
            out.push(' ');
            push_joined(out, arr, delim);
        }
        out.push('\n');
        proof {
            assert(final(out)@ =~= old(out)@ + array_body_text(arr@, level, ind, delimiter_char(delim)));
        }
    } else {
        match tabular_first_exec(arr) {
            Some(first) => emit_tabular(out, arr, first, level, ind, delim),
            None => {
                push_count(out, arr.len());
                out.append(":\n");
                proof {
                    reveal_strlit(":\n");
                }
                encode_expanded_items(out, arr, level.saturating_add(1), ind, delim);
                proof {
                    assert(final(out)@ =~= old(out)@ + array_body_text(arr@, level, ind, delimiter_char(delim)));
                }
            },
        }
    }
}

/// Appends expanded items at `level`.
fn encode_expanded_items(out: &mut String, arr: &Vec<JsonValue>, level: usize, ind: usize, delim: Delimiter)
    ensures
        final(out)@ == old(out)@ + expanded_items_text(arr@, level, ind, delimiter_char(delim)),
    decreases arr, 0int,
{
    let ghost d = delimiter_char(delim);
    let mut i: usize = 0;
    proof {
        assert(arr@.take(0) =~= Seq::<JsonValue>::empty());
    }
    while i < arr.len()
        invariant
            0 <= i <= arr.len(),
            d == delimiter_char(delim),
            out@ == old(out)@ + expanded_items_text(arr@.take(i as int), level, ind, d),
        decreases arr.len() - i,
    {
        let item = &arr[i];
        let ghost before = out@;
        match item {
            JsonValue::Object(m) => {
                if m.len() == 0 {
                    push_indent(out, level, ind);
                    out.append("-\n");
                    proof {
                        reveal_strlit("-\n");
                    }
                } else {
                    encode_expanded_entries(out, m, level, ind, delim);
                }
            },
            JsonValue::Array(inner) => {
                push_indent(out, level, ind);
                out.append("- ");
                proof {
                    reveal_strlit("- ");
                }
                encode_array_body(out, inner, level, ind, delim);
            },
            _ => {
                push_indent(out, level, ind);
                out.append("- ");
                proof {
                    reveal_strlit("- ");
                }
                let _ = emit_json_scalar(out, item, delim);
                out.push('\n');
            },
        }
        proof {
            assert(out@ =~= before + expanded_item_text(*item, level, ind, d));
            let t = arr@.take(i + 1);
            assert(t.drop_last() =~= arr@.take(i as int));
            assert(t.last() == arr@[i as int]);
            assert(out@ =~= old(out)@ + expanded_items_text(t, level, ind, d));
        }
        i += 1;
    }
    proof {
        assert(arr@.take(arr.len() as int) =~= arr@);
    }
}

/// Appends a non-empty object written as an expanded item.
fn encode_expanded_entries(out: &mut String, m: &Vec<(String, JsonValue)>, level: usize, ind: usize, delim: Delimiter)
    ensures
        final(out)@ == old(out)@ + expanded_entries_text(m@, m@.len() as int, level, ind, delimiter_char(delim)),
    decreases m, 1int,
{
    let ghost d = delimiter_char(delim);
    let mut i: usize = 0;
    while i < m.len()
        invariant
            0 <= i <= m.len(),
            d == delimiter_char(delim),
            out@ == old(out)@ + expanded_entries_text(m@, i as int, level, ind, d),
        decreases m.len() - i,
    {
        let ghost before = out@;
        if i == 0 {
            push_indent(out, level, ind);
            out.append("- ");
            proof {
                reveal_strlit("- ");
            }
        } else {
            push_indent(out, level.saturating_add(1), ind);
        }
        proof {
            assert(out@ =~= before + entry_lead(i + 1, level, ind));
        }
        let ghost mid = out@;
        encode_expanded_entry(out, &m[i], level, ind, delim);
        proof {
            assert(out@ =~= mid + expanded_entry_text(m@[i as int], level, ind, d));
            assert(out@ =~= old(out)@ + expanded_entries_text(m@, i + 1, level, ind, d));
        }
        i += 1;
    }
}

/// Appends an entry of an expanded object after its lead.
#[verifier::rlimit(40)]
fn encode_expanded_entry(out: &mut String, e: &(String, JsonValue), level: usize, ind: usize, delim: Delimiter)
    ensures
        final(out)@ == old(out)@ + expanded_entry_text(*e, level, ind, delimiter_char(delim)),
    decreases e, 0int,
{
    emit_scalar_string(out, e.0.as_str(), delim);
    match &e.1 {
        JsonValue::Object(child) => {
            out.append(":\n");
            proof {
                reveal_strlit(":\n");
            }
            encode_object(out, child, level.saturating_add(2), ind, delim);
        },
        JsonValue::Array(arr) => {
            encode_array_body(out, arr, level.saturating_add(1), ind, delim);
        },
        _ => {
            out.append(": ");
            proof {
                reveal_strlit(": ");
            }
            let _ = emit_json_scalar(out, &e.1, delim);
            out.push('\n');
        },
    }
    proof {
        assert(final(out)@ =~= old(out)@ + expanded_entry_text(*e, level, ind, delimiter_char(delim)));
    }
}

// ---------------------------------------------------------------------------
// Documents
// ---------------------------------------------------------------------------

/// The text of a whole document: an object's entries, an array from its
/// `[N]` on (`[]` when empty), or a scalar on its own line.
pub open spec fn document_text(v: JsonValue, ind: usize, d: char) -> Seq<char> {
    match v {
        JsonValue::Object(m) => object_text(m@, 0, ind, d),
        JsonValue::Array(arr) => if arr@.len() == 0 {
            "[]\n"@
        } else {
            array_body_text(arr@, 0, ind, d)
        },
        _ => scalar_text(v, d) + seq!['\n'],
    }
}

/// The model of the value that gets encoded under `config`: flattened,
/// folded, or as it is.
pub open spec fn prepared(v: JsonView, config: ToonConfig) -> JsonView {
    if config.flatten_keys {
        flatten_view(v)
    } else if config.fold_keys {
        fold_view(v)
    } else {
        v
    }
}

/// Whether `text` is the encoding of a value whose model is `v` under
/// `config`.
pub open spec fn encodes(text: Seq<char>, v: JsonView, config: ToonConfig) -> bool {
    exists|w: JsonValue|
        #[trigger] json_view(w) == prepared(v, config) && text == document_text(
            w,
            config.indent,
            delimiter_char(config.delimiter),
        )
}

fn encode_document(out: &mut String, v: &JsonValue, config: &ToonConfig)
    ensures
        final(out)@ == old(out)@ + document_text(*v, config.indent, delimiter_char(config.delimiter)),
{
    let delim = config.delimiter;
    let ind = config.indent;
    match v {
        JsonValue::Object(m) => encode_object(out, m, 0, ind, delim),
        JsonValue::Array(arr) => {
            if arr.len() == 0 {
                out.append("[]\n");
                proof {
                    reveal_strlit("[]\n");
                }
            } else {
                encode_array_body(out, arr, 0, ind, delim);
            }
        },
        _ => {
            let _ = emit_json_scalar(out, v, delim);
            out.push('\n');
            proof {
                assert(final(out)@ =~= old(out)@ + document_text(*v, ind, delimiter_char(delim)));
            }
        },
    }
}

/// Encodes `value` as TOON, appending to `out` (nothing is cleared): the
/// value is flattened or folded first when `config` asks for it. With
/// neither, the text is `document_text` of the value itself.
pub fn encode_into(value: &JsonValue, config: &ToonConfig, out: &mut String) -> (r: Result<(), EncodeError>)
    ensures
        r is Ok,
        exists|t: Seq<char>| final(out)@ == old(out)@ + t && encodes(t, json_view(*value), *config),
        !config.flatten_keys && !config.fold_keys ==> final(out)@ == old(out)@ + document_text(
            *value,
            config.indent,
            delimiter_char(config.delimiter),
        ),
{
    let ghost d = delimiter_char(config.delimiter);
    let ghost start = out@;
    if config.flatten_keys {
        let w = flatten_keys(value);
        encode_document(out, &w, config);
        proof {
            let t = document_text(w, config.indent, d);
            assert(out@ == start + t);
            assert(encodes(t, json_view(*value), *config));
        }
    } else if config.fold_keys {
        let w = fold_keys(value);
        encode_document(out, &w, config);
        proof {
            let t = document_text(w, config.indent, d);
            assert(out@ == start + t);
            assert(encodes(t, json_view(*value), *config));
        }
    } else {
        encode_document(out, value, config);
        proof {
            let t = document_text(*value, config.indent, d);
            assert(out@ == start + t);
            assert(encodes(t, json_view(*value), *config));
        }
    }
    Ok(())
}

/// Encodes `value` as TOON under `config`.
pub fn encode_with_config(value: &JsonValue, config: &ToonConfig) -> (r: Result<String, EncodeError>)
    ensures
        r matches Ok(s) && encodes(s@, json_view(*value), *config),
        !config.flatten_keys && !config.fold_keys ==> (r matches Ok(s) && s@ == document_text(
            *value,
            config.indent,
            delimiter_char(config.delimiter),
        )),
{
    let mut out = String::new();
    proof {
        assert(out@ =~= Seq::<char>::empty());
    }
    match encode_into(value, config, &mut out) {
        Ok(()) => {
            proof {
                let t = choose|t: Seq<char>| out@ == Seq::<char>::empty() + t && encodes(t, json_view(*value), *config);
                assert(out@ =~= t);
                if !config.flatten_keys && !config.fold_keys {
                    assert(out@ =~= document_text(*value, config.indent, delimiter_char(config.delimiter)));
                }
            }
            Ok(out)
        },
        Err(e) => Err(e),
    }
}

/// Encodes `value` as TOON with `indent` spaces per level, the other
/// options at their defaults.
pub fn encode_with_indent(value: &JsonValue, indent: usize) -> (r: Result<String, EncodeError>)
    ensures
        r matches Ok(s) && s@ == document_text(*value, indent, ','),
{
    let mut config = ToonConfig::default();
    config.indent = indent;
    encode_with_config(value, &config)
}

/// Encodes `value` as TOON with the default options.
pub fn encode(value: &JsonValue) -> (r: Result<String, EncodeError>)
    ensures
        r matches Ok(s) && s@ == document_text(*value, 2, ','),
{
    encode_with_config(value, &ToonConfig::default())
}

} // verus!
