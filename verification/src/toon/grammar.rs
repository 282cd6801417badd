//! TOON text as the decoder reads it: for each reading routine, a spec
//! function from the text, a position and the active delimiter to the
//! position reached and the value read, or the message of the error.
use super::decode::{unquoted_colon_from, LineScan};
use super::scalars::{
    array_header, columns_from, comment_cut, items_from, key_text, scalar_line, scan_start, skip_ws, trim_range,
};
use super::scalars::all_scalars;
use super::value::{is_scalar, items_view, json_view, lemma_items_view, view_insert, JsonValue, JsonView, ScalarView};
use crate::parser::numbers::usize_of;
use crate::text::{decimal_digits, lemma_newline_from, newline_from};
use vstd::prelude::*;

verus! {

/// What a reading gives: the value, or the message of its error.
pub type Reading<T> = Result<T, Seq<char>>;

/// Whether `c` is skipped as trivia while `active` is the delimiter: a
/// space, a carriage return, or a tab unless tabs delimit.
pub open spec fn is_trivia(c: char, active: char) -> bool {
    c == ' ' || c == '\r' || (c == '\t' && active != '\t')
}

/// Where skipping trivia from `i` stops: at the first character that is
/// not trivia, or at the line feed that ends a `#` comment.
pub open spec fn trivia_end(s: Seq<char>, i: int, active: char) -> int
    decreases s.len() - i,
{
    if 0 <= i < s.len() {
        if is_trivia(s[i], active) {
            trivia_end(s, i + 1, active)
        } else if s[i] == '#' {
            newline_from(s, i + 1)
        } else {
            i
        }
    } else {
        i
    }
}

pub proof fn lemma_trivia_end(s: Seq<char>, i: int, active: char)
    requires
        0 <= i <= s.len(),
    ensures
        i <= trivia_end(s, i, active) <= s.len(),
    decreases s.len() - i,
{
    if i < s.len() {
        if is_trivia(s[i], active) {
            lemma_trivia_end(s, i + 1, active);
        } else if s[i] == '#' {
            lemma_newline_from(s, i + 1);
        }
    }
}

/// Where skipping line feeds (and the trivia after each) from `i` stops.
pub open spec fn newlines_end(s: Seq<char>, i: int, active: char) -> int
    decreases s.len() - i,
{
    if 0 <= i < s.len() && s[i] == '\n' {
        proof {
            lemma_trivia_end(s, i + 1, active);
        }
        newlines_end(s, trivia_end(s, i + 1, active), active)
    } else {
        i
    }
}

pub proof fn lemma_newlines_end(s: Seq<char>, i: int, active: char)
    requires
        0 <= i <= s.len(),
    ensures
        i <= newlines_end(s, i, active) <= s.len(),
    decreases s.len() - i,
{
    if i < s.len() && s[i] == '\n' {
        lemma_trivia_end(s, i + 1, active);
        lemma_newlines_end(s, trivia_end(s, i + 1, active), active);
    }
}

/// The end of line `i` once it is read with its line feed.
pub open spec fn after_line(s: Seq<char>, i: int) -> int {
    let e = newline_from(s, i);
    if e < s.len() {
        e + 1
    } else {
        e
    }
}

/// The first index from `i` on that is not a space or a tab.
pub open spec fn indent_end(s: Seq<char>, i: int) -> int
    decreases s.len() - i,
{
    if 0 <= i < s.len() && (s[i] == ' ' || s[i] == '\t') {
        indent_end(s, i + 1)
    } else {
        i
    }
}

pub proof fn lemma_indent_end(s: Seq<char>, i: int)
    requires
        0 <= i <= s.len(),
    ensures
        i <= indent_end(s, i) <= s.len(),
    decreases s.len() - i,
{
    if i < s.len() && (s[i] == ' ' || s[i] == '\t') {
        lemma_indent_end(s, i + 1);
    }
}

/// The number of spaces in `s[t..u]`.
pub open spec fn spaces_in(s: Seq<char>, t: int, u: int) -> nat
    decreases u - t,
{
    if u <= t {
        0
    } else {
        spaces_in(s, t, u - 1) + if s[u - 1] == ' ' {
            1nat
        } else {
            0nat
        }
    }
}

/// Whether `s[t..u]` holds a tab.
pub open spec fn tab_in(s: Seq<char>, t: int, u: int) -> bool {
    exists|k: int| t <= k < u && s[k] == '\t'
}

/// The indentation of the next line from `t` on that is not blank or a
/// comment, and where its text starts; an error when that indentation
/// holds a tab.
pub open spec fn next_indent(s: Seq<char>, t: int) -> Reading<Option<(int, int)>>
    decreases s.len() - t,
{
    if !(0 <= t < s.len()) {
        Ok(None)
    } else {
        let u = indent_end(s, t);
        if u >= s.len() || s[u] == '\n' || s[u] == '\r' || s[u] == '#' {
            let w = if u < s.len() {
                if s[u] == '\n' {
                    u + 1
                } else {
                    after_line(s, u + 1)
                }
            } else {
                u
            };
            if t < w <= s.len() {
                next_indent(s, w)
            } else {
                Ok(None)
            }
        } else if tab_in(s, t, u) {
            Err("Tabs not allowed in indentation"@)
        } else {
            Ok(Some((spaces_in(s, t, u) as int, u)))
        }
    }
}

/// The first colon of the line from `i` on, outside strings, references
/// and comments.
pub open spec fn colon_at(s: Seq<char>, i: int) -> Option<int> {
    unquoted_colon_from(s, i, LineScan { in_quote: false, escaped: false, in_ref: false })
}

/// Whether the rest of the line from `i` is empty once its comment is cut.
pub open spec fn rest_empty(s: Seq<char>, i: int) -> bool {
    let e = newline_from(s, i);
    let c = comment_cut(s, i, e, scan_start());
    trim_range(s, i, c).0 == trim_range(s, i, c).1
}

/// Whether the line that starts at `t` begins with a `-` item marker.
pub open spec fn dash_at(s: Seq<char>, t: int) -> bool {
    0 <= t < s.len() && s[t] == '-' && (t + 1 >= s.len() || s[t + 1] == ' ' || s[t + 1] == '\n')
}

/// `parent + 2`, held at `usize::MAX`.
pub open spec fn field_indent(parent: int) -> int {
    if parent + 2 <= usize::MAX {
        parent + 2
    } else {
        usize::MAX as int
    }
}

/// The value of a scalar.
pub open spec fn scalar_json(w: ScalarView) -> JsonView {
    match w {
        ScalarView::Null => JsonView::Null,
        ScalarView::Bool(b) => JsonView::Bool(b),
        ScalarView::Int(n) => JsonView::Int(n),
        ScalarView::Float(t) => JsonView::Float(t),
        ScalarView::Str(t) => JsonView::Str(t),
    }
}

/// Whether the line `s[lo..e]` opens an inline array it never closes: after
/// leading white space it starts with `[`, and it holds no `]`.
pub open spec fn unterminated_inline(s: Seq<char>, lo: int, e: int) -> bool {
    let a = skip_ws(s, lo, e);
    a < e && s[a] == '[' && !s.subrange(lo, e).contains(']')
}

/// The scalars of the rest of line `i`, separated by `d`.
pub open spec fn inline_read(s: Seq<char>, i: int, d: char) -> Reading<Seq<JsonView>> {
    let e = newline_from(s, i);
    if unterminated_inline(s, i, e) {
        Err("Unterminated inline array"@)
    } else {
        match items_from(s, i, comment_cut(s, i, e, scan_start()), d) {
            Ok(ws) => Ok(ws.map_values(|w: ScalarView| scalar_json(w))),
            Err(m) => Err(m),
        }
    }
}

/// The scalar of the rest of line `i`.
pub open spec fn scalar_read(s: Seq<char>, i: int) -> Reading<JsonView> {
    match scalar_line(s, i, newline_from(s, i)) {
        Ok(w) => Ok(scalar_json(w)),
        Err(m) => Err(m),
    }
}

/// A scalar's value is the model of the scalar read.
pub proof fn lemma_scalar_json(v: JsonValue, w: ScalarView)
    requires
        is_scalar(v, w),
    ensures
        json_view(v) == scalar_json(w),
{
}

/// Scalars read are the values of their models.
pub proof fn lemma_all_scalars(vals: Seq<JsonValue>, ws: Seq<ScalarView>)
    requires
        all_scalars(vals, ws),
    ensures
        items_view(vals) == ws.map_values(|w: ScalarView| scalar_json(w)),
{
    lemma_items_view(vals);
    assert forall|k: int| 0 <= k < vals.len() implies #[trigger] items_view(vals)[k] == ws.map_values(
        |w: ScalarView| scalar_json(w),
    )[k] by {
        lemma_scalar_json(vals[k], ws[k]);
    }
    assert(items_view(vals) =~= ws.map_values(|w: ScalarView| scalar_json(w)));
}

/// A tabular row: each column with its value, in column order (a repeated
/// column keeps its first place and takes the later value).
pub open spec fn row_entries(cols: Seq<Seq<char>>, vals: Seq<JsonView>) -> Seq<(Seq<char>, JsonView)>
    decreases cols.len(),
{
    if cols.len() == 0 {
        Seq::empty()
    } else {
        view_insert(row_entries(cols.drop_last(), vals), cols.last(), vals[cols.len() - 1])
    }
}

/// The message for a row of the wrong width.
pub open spec fn row_width_message(values: nat, columns: nat) -> Seq<char> {
    "tabular row has "@ + decimal_digits(values) + " values but "@ + decimal_digits(columns) + " columns"@
}

/// The rows of a tabular array from line `p` on, each at `indent`.
pub open spec fn rows_read(s: Seq<char>, p: int, d: char, cols: Seq<Seq<char>>, indent: int, rows: Seq<JsonView>)
    -> (int, Reading<Seq<JsonView>>)
    decreases s.len() - p,
{
    match inline_read(s, p, d) {
        Err(m) => (p, Err(m)),
        Ok(vals) => if vals.len() != cols.len() {
            (p, Err(row_width_message(vals.len(), cols.len())))
        } else {
            let rows2 = rows.push(JsonView::Object(row_entries(cols, vals)));
            let q = after_line(s, p);
            match next_indent(s, q) {
                Err(m) => (q, Err(m)),
                Ok(Some((ni, t))) => if ni == indent && p < t <= s.len() {
                    rows_read(s, t, d, cols, indent, rows2)
                } else {
                    (q, Ok(rows2))
                },
                Ok(None) => (q, Ok(rows2)),
            }
        },
    }
}

/// Where `[]` and the trivia and line feed after it end.
pub open spec fn empty_array_end(s: Seq<char>, i: int, active: char) -> int {
    let p = trivia_end(s, i + 2, active);
    if p < s.len() && s[p] == '\n' {
        p + 1
    } else {
        p
    }
}

/// Whether `s[i..]` starts with `[]`.
pub open spec fn empty_array_at(s: Seq<char>, i: int) -> bool {
    0 <= i && i + 1 < s.len() && s[i] == '[' && s[i + 1] == ']'
}

/// A block at indentation `indent`: an expanded array, a root array
/// header, an object, `[]`, or (at the top) a scalar line.
pub open spec fn block_read(s: Seq<char>, i: int, active: char, indent: int) -> (int, Reading<JsonView>)
    decreases s.len() - i, 5int,
    when 0 <= i <= s.len()
{
    proof {
        lemma_trivia_end(s, i, active);
    }
    let i1 = trivia_end(s, i, active);
    if i1 < s.len() && s[i1] == '-' && ((i1 + 1 < s.len() && (s[i1 + 1] == ' ' || s[i1 + 1] == '\n')) || s.len() - i1
        == 1) {
        expanded_read(s, i1, active, indent, Seq::empty())
    } else {
        match colon_at(s, i1) {
            Some(c) => if i1 <= c < s.len() {
                match array_header(s, i1, c) {
                    Some(h) => if h.is_root {
                        table_read(s, c + 1, h.count as nat, delim_char(h.delim), h.cols, indent, true)
                    } else {
                        object_read(s, i1, active, indent, Seq::empty())
                    },
                    None => object_read(s, i1, active, indent, Seq::empty()),
                }
            } else {
                (i1, Err(Seq::empty()))
            },
            None => if empty_array_at(s, i1) {
                (empty_array_end(s, i1, active), Ok(JsonView::Array(Seq::empty())))
            } else if indent == 0 {
                (after_line(s, i1), scalar_read(s, i1))
            } else {
                (i1, Err("missing colon in key-value context"@))
            },
        }
    }
}

/// Items marked with `-` at indentation `indent`, after `items`.
pub open spec fn expanded_read(s: Seq<char>, i: int, active: char, indent: int, items: Seq<JsonView>) -> (
    int,
    Reading<JsonView>,
)
    decreases s.len() - i, 4int,
    when 0 <= i <= s.len()
{
    proof {
        lemma_trivia_end(s, i, active);
    }
    let i1 = trivia_end(s, i, active);
    if !(i1 < s.len() && s[i1] == '-') {
        (i1, Err("expected '-'"@))
    } else {
        let r = item_read(s, i1 + 1, active, indent);
        match r.1 {
            Err(m) => (r.0, Err(m)),
            Ok(item) => {
                let items2 = items.push(item);
                match next_indent(s, r.0) {
                    Err(m) => (r.0, Err(m)),
                    Ok(Some((ni, t))) => if ni == indent && dash_at(s, t) && i < t <= s.len() {
                        expanded_read(s, t, active, indent, items2)
                    } else {
                        (r.0, Ok(JsonView::Array(items2)))
                    },
                    Ok(None) => (r.0, Ok(JsonView::Array(items2))),
                }
            },
        }
    }
}

/// The rest of an expanded item after its `-`.
pub open spec fn item_read(s: Seq<char>, i: int, active: char, parent: int) -> (int, Reading<JsonView>)
    decreases s.len() - i, 3int,
    when 0 <= i <= s.len()
{
    proof {
        lemma_trivia_end(s, i, active);
    }
    let i1 = trivia_end(s, i, active);
    if i1 < s.len() && s[i1] == '[' {
        array_read(s, i1, active, parent)
    } else if rest_empty(s, i1) {
        let i2 = after_line(s, i1);
        match next_indent(s, i2) {
            Err(m) => (i2, Err(m)),
            Ok(Some((ni, t))) => if ni > parent && i < t <= s.len() {
                block_read(s, t, active, ni)
            } else {
                (i2, Ok(JsonView::Object(Seq::empty())))
            },
            Ok(None) => (i2, Ok(JsonView::Object(Seq::empty()))),
        }
    } else if colon_at(s, i1) is Some {
        let fi = field_indent(parent);
        let r = entry_read(s, i1, active, fi, Seq::empty());
        match r.1 {
            Err(m) => (r.0, Err(m)),
            Ok(m) => if i1 <= r.0 <= s.len() {
                item_entries_read(s, r.0, active, fi, m)
            } else {
                (r.0, Err(Seq::empty()))
            },
        }
    } else {
        (after_line(s, i1), scalar_read(s, i1))
    }
}

/// The further entries of an expanded item's object, at indentation `fi`.
pub open spec fn item_entries_read(
    s: Seq<char>,
    p: int,
    active: char,
    fi: int,
    map: Seq<(Seq<char>, JsonView)>,
) -> (int, Reading<JsonView>)
    decreases s.len() - p, 2int,
    when 0 <= p <= s.len()
{
    match next_indent(s, p) {
        Err(m) => (p, Err(m)),
        Ok(Some((ni, t))) => if ni == fi && colon_at(s, t) is Some && p <= t <= s.len() {
            let r = entry_read(s, t, active, fi, map);
            match r.1 {
                Err(m) => (r.0, Err(m)),
                Ok(m2) => if p < r.0 <= s.len() {
                    item_entries_read(s, r.0, active, fi, m2)
                } else {
                    (r.0, Err(Seq::empty()))
                },
            }
        } else {
            (p, Ok(JsonView::Object(map)))
        },
        Ok(None) => (p, Ok(JsonView::Object(map))),
    }
}

/// The entries of an object at indentation `indent`, after `map`.
pub open spec fn object_read(s: Seq<char>, i: int, active: char, indent: int, map: Seq<(Seq<char>, JsonView)>) -> (
    int,
    Reading<JsonView>,
)
    decreases s.len() - i, 4int,
    when 0 <= i <= s.len()
{
    if colon_at(s, i) is None {
        (i, Err("expected key-value entry in object"@))
    } else {
        let r = entry_read(s, i, active, indent, map);
        match r.1 {
            Err(m) => (r.0, Err(m)),
            Ok(m2) => match next_indent(s, r.0) {
                Err(m) => (r.0, Err(m)),
                Ok(Some((ni, t))) => if ni == indent && colon_at(s, t) is Some && i < t <= s.len() {
                    object_read(s, t, active, indent, m2)
                } else {
                    (r.0, Ok(JsonView::Object(m2)))
                },
                Ok(None) => (r.0, Ok(JsonView::Object(m2))),
            },
        }
    }
}

/// One `key: value` entry, inserted into `map`.
pub open spec fn entry_read(s: Seq<char>, i: int, active: char, parent: int, map: Seq<(Seq<char>, JsonView)>) -> (
    int,
    Reading<Seq<(Seq<char>, JsonView)>>,
)
    decreases s.len() - i, 1int,
    when 0 <= i <= s.len()
{
    match colon_at(s, i) {
        None => (i, Err("missing colon in object entry"@)),
        Some(c) => if i <= c < s.len() {
            match array_header(s, i, c) {
                Some(h) => {
                    let r = table_read(s, c + 1, h.count as nat, delim_char(h.delim), h.cols, parent, true);
                    (r.0, match r.1 {
                        Ok(v) => Ok(view_insert(map, h.name, v)),
                        Err(m) => Err(m),
                    })
                },
                None => match key_text(s, i, c) {
                    Err(m) => (c + 1, Err(m)),
                    Ok(name) => {
                        let r = value_read(s, c + 1, active, parent);
                        (r.0, match r.1 {
                            Ok(v) => Ok(view_insert(map, name, v)),
                            Err(m) => Err(m),
                        })
                    },
                },
            }
        } else {
            (i, Err(Seq::empty()))
        },
    }
}

/// The value after a key's colon: `[]`, a nested block on the lines below,
/// an empty object, or a scalar line.
pub open spec fn value_read(s: Seq<char>, i: int, active: char, parent: int) -> (int, Reading<JsonView>)
    decreases s.len() - i, 0int,
    when 0 <= i <= s.len()
{
    proof {
        lemma_trivia_end(s, i, active);
    }
    let i1 = trivia_end(s, i, active);
    if i1 < s.len() && s[i1] == '[' && !s.subrange(i1, newline_from(s, i1)).contains(']') {
        (i1, Err("Unterminated inline array"@))
    } else if empty_array_at(s, i1) {
        (empty_array_end(s, i1, active), Ok(JsonView::Array(Seq::empty())))
    } else if rest_empty(s, i1) {
        let i2 = after_line(s, i1);
        match next_indent(s, i2) {
            Err(m) => (i2, Err(m)),
            Ok(Some((ni, t))) => if ni > parent && i < t <= s.len() {
                block_read(s, t, active, ni)
            } else {
                (i2, Ok(JsonView::Object(Seq::empty())))
            },
            Ok(None) => (i2, Ok(JsonView::Object(Seq::empty()))),
        }
    } else {
        (after_line(s, i1), scalar_read(s, i1))
    }
}

/// The first index from `i` on that is not a decimal digit.
pub open spec fn digits_end(s: Seq<char>, i: int) -> int
    decreases s.len() - i,
{
    if 0 <= i < s.len() && '0' <= s[i] && s[i] <= '9' {
        digits_end(s, i + 1)
    } else {
        i
    }
}

/// The first `}` from `i` on.
pub open spec fn brace_close(s: Seq<char>, i: int) -> Option<int>
    decreases s.len() - i,
{
    if !(0 <= i < s.len()) {
        None
    } else if s[i] == '}' {
        Some(i)
    } else {
        brace_close(s, i + 1)
    }
}

/// An array written `[N...]` in an expanded item: the count, a delimiter,
/// the column names of a tabular array, then its content.
pub open spec fn array_read(s: Seq<char>, i: int, active: char, parent: int) -> (int, Reading<JsonView>)
    decreases s.len() - i, 2int,
    when 0 <= i <= s.len()
{
    if !(i < s.len() && s[i] == '[') {
        (i, Err("expected '['"@))
    } else {
        let ds = i + 1;
        let de = digits_end(s, ds);
        if de == ds {
            (de, Err("expected count"@))
        } else {
            match usize_of(s.subrange(ds, de)) {
                None => (de, Err("number too large to fit in target type"@)),
                Some(count) => {
                    let (p1, delim) = if de < s.len() && s[de] != ']' {
                        (de + 1, Some(s[de]))
                    } else {
                        (de, None)
                    };
                    if !(p1 < s.len() && s[p1] == ']') {
                        (p1, Err("expected ']'"@))
                    } else {
                        let p2 = trivia_end(s, p1 + 1, active);
                        if p2 < s.len() && s[p2] == '{' {
                            match brace_close(s, p2 + 1) {
                                None => (s.len() as int, Err("expected '}'"@)),
                                Some(q) => {
                                    let d = delim_char(delim);
                                    match columns_from(s, p2 + 1, q, d) {
                                        Err(m) => (q + 1, Err(m)),
                                        Ok(cols) => if i < q + 1 <= s.len() {
                                            table_read(s, q + 1, count as nat, d, Some(cols), parent, false)
                                        } else {
                                            (q + 1, Err(Seq::empty()))
                                        },
                                    }
                                },
                            }
                        } else if i < p2 <= s.len() {
                            table_read(s, p2, count as nat, delim_char(delim), None, parent, false)
                        } else {
                            (p2, Err(Seq::empty()))
                        }
                    }
                },
            }
        }
    }
}

/// The delimiter a header names, or a comma.
pub open spec fn delim_char(d: Option<char>) -> char {
    match d {
        Some(c) => c,
        None => ',',
    }
}

/// An array after its header, with the header's delimiter `act` active: the rows
/// of a tabular array, an expanded array on the lines below, or inline
/// items; its length held to `count`.
pub open spec fn table_read(
    s: Seq<char>,
    i: int,
    count: nat,
    act: char,
    cols: Option<Seq<Seq<char>>>,
    parent: int,
    colon_consumed: bool,
) -> (int, Reading<JsonView>)
    decreases s.len() - i, 1int,
    when 0 <= i <= s.len()
{
    proof {
        lemma_trivia_end(s, i, act);
    }
    let i1 = trivia_end(s, i, act);
    match cols {
        Some(columns) => if !colon_consumed && !(i1 < s.len() && s[i1] == ':') {
            (i1, Err("expected ':' after tabular header"@))
        } else {
            let i2 = if colon_consumed {
                i1
            } else {
                i1 + 1
            };
            let i3 = trivia_end(s, i2, act);
            let i4 = if i3 < s.len() && s[i3] == '\n' {
                i3 + 1
            } else {
                i3
            };
            match next_indent(s, i4) {
                Err(m) => (i4, Err(m)),
                Ok(Some((ni, t))) => if ni > parent {
                    let r = rows_read(s, t, act, columns, ni, Seq::empty());
                    match r.1 {
                        Err(m) => (r.0, Err(m)),
                        Ok(rows) => if rows.len() != count {
                            (r.0, Err("tabular row count mismatch with header length"@))
                        } else {
                            (r.0, Ok(JsonView::Array(rows)))
                        },
                    }
                } else if count != 0 {
                    (i4, Err("tabular row count mismatch with header length"@))
                } else {
                    (i4, Ok(JsonView::Array(Seq::empty())))
                },
                Ok(None) => if count != 0 {
                    (i4, Err("tabular row count mismatch with header length"@))
                } else {
                    (i4, Ok(JsonView::Array(Seq::empty())))
                },
            }
        },
        None => if !colon_consumed && !(i1 < s.len() && s[i1] == ':') {
            (i1, Err("expected ':' after array header"@))
        } else {
            let i2 = if colon_consumed {
                i1
            } else {
                i1 + 1
            };
            let i3 = trivia_end(s, i2, act);
            if i3 >= s.len() || s[i3] == '\n' {
                let i4 = if i3 < s.len() {
                    i3 + 1
                } else {
                    i3
                };
                match next_indent(s, i4) {
                    Err(m) => (i4, Err(m)),
                    Ok(Some((ni, t))) => if ni > parent && dash_at(s, t) && i < t <= s.len() {
                        let r = expanded_read(s, t, act, ni, Seq::empty());
                        match r.1 {
                            Err(m) => (r.0, Err(m)),
                            Ok(v) => match v {
                                JsonView::Array(arr) => if arr.len() != count {
                                    (r.0, Err("array length mismatch"@))
                                } else {
                                    (r.0, Ok(v))
                                },
                                _ => (r.0, Ok(v)),
                            },
                        }
                    } else if count == 0 {
                        (i4, Ok(JsonView::Array(Seq::empty())))
                    } else {
                        (i4, Err("array length mismatch"@))
                    },
                    Ok(None) => if count == 0 {
                        (i4, Ok(JsonView::Array(Seq::empty())))
                    } else {
                        (i4, Err("array length mismatch"@))
                    },
                }
            } else {
                match inline_read(s, i3, act) {
                    Err(m) => (after_line(s, i3), Err(m)),
                    Ok(items) => if items.len() != count {
                        (after_line(s, i3), Err("array length mismatch"@))
                    } else {
                        (after_line(s, i3), Ok(JsonView::Array(items)))
                    },
                }
            }
        },
    }
}

/// A whole document (with block comments already blanked out): a blank one
/// is an empty object; otherwise the block at the first line's indentation,
/// with nothing but blank lines and comments after it.
pub open spec fn document_read(s: Seq<char>) -> Reading<JsonView> {
    let i0 = newlines_end(s, trivia_end(s, 0, ','), ',');
    if i0 >= s.len() {
        Ok(JsonView::Object(Seq::empty()))
    } else {
        match next_indent(s, i0) {
            Err(m) => Err(m),
            Ok(first) => {
                let (p, ind) = match first {
                    Some((n, t)) => (t, n),
                    None => (i0, 0),
                };
                if 0 <= p <= s.len() {
                    let r = block_read(s, p, ',', ind);
                    match r.1 {
                        Err(m) => Err(m),
                        Ok(v) => if newlines_end(s, trivia_end(s, r.0, ','), ',') < s.len() {
                            Err("trailing tokens after document"@)
                        } else {
                            Ok(v)
                        },
                    }
                } else {
                    Err(Seq::empty())
                }
            },
        }
    }
}

} // verus!
