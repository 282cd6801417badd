//! The nesting limit, stated over the trees the grammar gives: a parsed
//! document never nests objects and arrays deeper than the limit allows.
use super::error::ParseErrorKind;
use super::grammar::{
    entry_failed,
    advanced, array_with_key_spec, cell_value, dash_item_spec, deeper, document_spec, error_at, expanded_array_spec,
    expanded_items_spec, field_names_from, header_count, initial_state, inline_items_spec, keyed_entry_spec, kind_at,
    lemma_skip_newlines, moved, nested_object_spec, next_pos, object_entries_spec, object_entry_spec, object_spec,
    recorded, row_cells_spec, skip_newlines_from, span_at, state_ok, sync_from, tabular_row_spec, tabular_rows_spec,
    tok_at, tokens_wf, unquoted_spec, value_spec, PState, MAX_ARRAY_ITEMS, MAX_NESTING_DEPTH, MAX_OBJECT_ENTRIES,
};
use super::numbers::number_value_spec;
use super::scanner::{TokView, TokenView};
use crate::ast::node::{EntryView, NodeView};
use crate::ast::Span;
use vstd::prelude::*;

verus! {

/// Whether no chain of nested objects and arrays in `n` is longer than `h`
/// (a scalar nests nothing; a document is not counted).
pub open spec fn within_depth(n: NodeView, h: int) -> bool
    decreases n,
{
    match n {
        NodeView::Document { children, .. } => all_within(children, h),
        NodeView::Object { entries, .. } => h >= 1 && entries_within(entries, h - 1),
        NodeView::Array { items, .. } => h >= 1 && all_within(items, h - 1),
        _ => true,
    }
}

pub open spec fn all_within(s: Seq<NodeView>, h: int) -> bool
    decreases s,
{
    if s.len() == 0 {
        true
    } else {
        all_within(s.drop_last(), h) && within_depth(s.last(), h)
    }
}

pub open spec fn entries_within(s: Seq<EntryView>, h: int) -> bool
    decreases s,
{
    if s.len() == 0 {
        true
    } else {
        entries_within(s.drop_last(), h) && within_depth(s.last().value, h)
    }
}

/// How deep a value read at parser depth `d` may nest.
pub open spec fn value_room(d: int) -> int {
    MAX_NESTING_DEPTH + 1 - d
}

proof fn lemma_within_mono(n: NodeView, h: int, h2: int)
    requires
        within_depth(n, h),
        h <= h2,
    ensures
        within_depth(n, h2),
    decreases n,
{
    match n {
        NodeView::Document { children, .. } => lemma_all_within_mono(children, h, h2),
        NodeView::Object { entries, .. } => lemma_entries_within_mono(entries, h - 1, h2 - 1),
        NodeView::Array { items, .. } => lemma_all_within_mono(items, h - 1, h2 - 1),
        _ => {},
    }
}

proof fn lemma_all_within_mono(s: Seq<NodeView>, h: int, h2: int)
    requires
        all_within(s, h),
        h <= h2,
    ensures
        all_within(s, h2),
    decreases s,
{
    if s.len() > 0 {
        lemma_all_within_mono(s.drop_last(), h, h2);
        lemma_within_mono(s.last(), h, h2);
    }
}

proof fn lemma_entries_within_mono(s: Seq<EntryView>, h: int, h2: int)
    requires
        entries_within(s, h),
        h <= h2,
    ensures
        entries_within(s, h2),
    decreases s,
{
    if s.len() > 0 {
        lemma_entries_within_mono(s.drop_last(), h, h2);
        lemma_within_mono(s.last().value, h, h2);
    }
}

proof fn lemma_push_within(s: Seq<NodeView>, x: NodeView, h: int)
    ensures
        all_within(s.push(x), h) == (all_within(s, h) && within_depth(x, h)),
{
    assert(s.push(x).drop_last() =~= s);
}

proof fn lemma_push_entry_within(s: Seq<EntryView>, x: EntryView, h: int)
    ensures
        entries_within(s.push(x), h) == (entries_within(s, h) && within_depth(x.value, h)),
{
    assert(s.push(x).drop_last() =~= s);
}

proof fn lemma_cell_within(t: TokView)
    ensures
        cell_value(t) matches Some(Ok(v)) ==> within_depth(v, 0),
{
    match t.kind {
        TokenView::Number(n) => {
            match number_value_spec(n, t.span) {
                Ok(_) => {},
                Err(_) => {},
            }
        },
        _ => {},
    }
}

proof fn lemma_value_within(toks: Seq<TokView>, st: PState)
    requires
        state_ok(toks, st),
        0 <= st.depth <= MAX_NESTING_DEPTH,
    ensures
        st.depth <= value_spec(toks, st).0.depth <= MAX_NESTING_DEPTH,
        value_spec(toks, st).1 matches Ok(n) ==> within_depth(n, value_room(st.depth)),
    decreases toks.len() - st.pos, 6int,
{
    let t = tok_at(toks, st.pos);
    match t.kind {
        TokenView::Number(n) => {
            match number_value_spec(n, t.span) {
                Ok(_) => {},
                Err(_) => {},
            }
        },
        TokenView::Identifier(_) => {
            if !(st.pos + 1 < toks.len() && toks[st.pos + 1].kind is LeftBracket) {
                let r = unquoted_spec(toks, st);
                assert(r.1 matches Ok(n) ==> n is Str);
            }
        },
        TokenView::Indent => lemma_nested_within(toks, st),
        TokenView::Dash => lemma_expanded_within(toks, st),
        TokenView::Newline => {
            let st1 = advanced(toks, st);
            match kind_at(toks, st1.pos) {
                TokenView::Indent => lemma_nested_within(toks, st1),
                TokenView::Dash => lemma_expanded_within(toks, st1),
                _ => {},
            }
        },
        _ => {},
    }
}

proof fn lemma_nested_within(toks: Seq<TokView>, st: PState)
    requires
        state_ok(toks, st),
        0 <= st.depth <= MAX_NESTING_DEPTH,
    ensures
        st.depth <= nested_object_spec(toks, st).0.depth <= MAX_NESTING_DEPTH,
        nested_object_spec(toks, st).1 matches Ok(n) ==> within_depth(n, value_room(st.depth)),
    decreases toks.len() - st.pos, 5int,
{
    let start = span_at(toks, st.pos);
    if st.depth < MAX_NESTING_DEPTH {
        let st1 = deeper(st);
        let st2 = if kind_at(toks, st1.pos) is Indent { advanced(toks, st1) } else { st1 };
        if kind_at(toks, st2.pos) is Dash {
            lemma_expanded_within(toks, st2);
            let r = expanded_array_spec(toks, st2);
            if let Ok(n) = r.1 {
                lemma_within_mono(n, value_room(st2.depth), value_room(st.depth));
            }
        } else {
            lemma_object_within(toks, st2, start);
        }
    }
}

proof fn lemma_expanded_within(toks: Seq<TokView>, st: PState)
    requires
        state_ok(toks, st),
        0 <= st.depth <= MAX_NESTING_DEPTH,
    ensures
        st.depth <= expanded_array_spec(toks, st).0.depth <= MAX_NESTING_DEPTH,
        expanded_array_spec(toks, st).1 matches Ok(n) ==> within_depth(n, value_room(st.depth)),
    decreases toks.len() - st.pos, 4int,
{
    if st.depth < MAX_NESTING_DEPTH {
        lemma_items_within(toks, deeper(st), span_at(toks, st.pos), Seq::empty(), value_room(st.depth) - 1);
    }
}

proof fn lemma_dash_item_within(toks: Seq<TokView>, st: PState)
    requires
        state_ok(toks, st),
        0 <= st.depth <= MAX_NESTING_DEPTH,
    ensures
        st.depth <= dash_item_spec(toks, st).0.depth <= MAX_NESTING_DEPTH,
        dash_item_spec(toks, st).1 matches Ok(n) ==> within_depth(n, value_room(st.depth)),
    decreases toks.len() - st.pos, 7int,
{
    if kind_at(toks, st.pos) is Newline {
        let st1 = advanced(toks, st);
        if kind_at(toks, st1.pos) is Indent {
            lemma_nested_within(toks, st1);
        }
    } else if !(kind_at(toks, st.pos) is Eof || kind_at(toks, st.pos) is Dedent) {
        lemma_value_within(toks, st);
    }
}

/// The items of an expanded array whose items may nest `b` deep.
proof fn lemma_items_within(toks: Seq<TokView>, st: PState, start: Span, items: Seq<NodeView>, b: int)
    requires
        state_ok(toks, st),
        1 <= st.depth <= MAX_NESTING_DEPTH,
        value_room(st.depth) <= b,
        all_within(items, b),
    ensures
        st.depth - 1 <= expanded_items_spec(toks, st, start, items).0.depth <= MAX_NESTING_DEPTH,
        expanded_items_spec(toks, st, start, items).1 matches Ok(n) ==> within_depth(n, b + 1),
    decreases toks.len() - st.pos, 3int,
{
    if !(kind_at(toks, st.pos) is Dash) {
        lemma_all_within_mono(items, b, b);
    } else if items.len() < MAX_ARRAY_ITEMS {
        let st1 = advanced(toks, st);
        let r = dash_item_spec(toks, st1);
        lemma_dash_item_within(toks, st1);
        match r.1 {
            Err(_) => {},
            Ok(item) => {
                lemma_within_mono(item, value_room(st1.depth), b);
                let items2 = items.push(item);
                lemma_push_within(items, item, b);
                let st3 = if kind_at(toks, r.0.pos) is Newline { advanced(toks, r.0) } else { r.0 };
                if !(kind_at(toks, st3.pos) is Dedent) && st.pos < st3.pos <= toks.len() {
                    lemma_items_within(toks, st3, start, items2, b);
                }
            },
        }
    }
}

/// An object read at parser depth `d` nests at most one level more than
/// its values.
proof fn lemma_object_within(toks: Seq<TokView>, st: PState, start: Span)
    requires
        state_ok(toks, st),
        0 <= st.depth <= MAX_NESTING_DEPTH,
    ensures
        st.depth <= object_spec(toks, st, start).0.depth <= MAX_NESTING_DEPTH,
        object_spec(toks, st, start).1 matches Ok(n) ==> within_depth(n, value_room(st.depth) + 1),
    decreases toks.len() - st.pos, 3int,
{
    lemma_entries_within(toks, st, start, Seq::empty(), value_room(st.depth));
}

proof fn lemma_entries_within(toks: Seq<TokView>, st: PState, start: Span, entries: Seq<EntryView>, b: int)
    requires
        state_ok(toks, st),
        0 <= st.depth <= MAX_NESTING_DEPTH,
        value_room(st.depth) <= b,
        entries_within(entries, b),
    ensures
        st.depth <= object_entries_spec(toks, st, start, entries).0.depth <= MAX_NESTING_DEPTH,
        object_entries_spec(toks, st, start, entries).1 matches Ok(n) ==> within_depth(n, b + 1),
    decreases toks.len() - st.pos, 2int,
{
    if !(kind_at(toks, st.pos) is Eof) && entries.len() < MAX_OBJECT_ENTRIES {
        let p1 = skip_newlines_from(toks, st.pos);
        lemma_skip_newlines(toks, st.pos);
        let st1 = moved(st, p1);
        let k = kind_at(toks, p1);
        if !(k is Dedent || k is Eof || !(k is Identifier || k is Str)) {
            let r = object_entry_spec(toks, st1);
            lemma_entry_within(toks, st1);
            let (st2, entries2) = match r.1 {
                Ok(entry) => (r.0, entries.push(entry)),
                Err(e) => (entry_failed(toks, r.0, e, span_at(toks, p1)), entries),
            };
            if let Ok(entry) = r.1 {
                lemma_within_mono(entry.value, value_room(st1.depth), b);
                lemma_push_entry_within(entries, entry, b);
            }
            let st3 = if kind_at(toks, st2.pos) is Newline { advanced(toks, st2) } else { st2 };
            if st.pos < st3.pos <= toks.len() {
                lemma_entries_within(toks, st3, start, entries2, b);
            }
        }
    }
}

proof fn lemma_entry_within(toks: Seq<TokView>, st: PState)
    requires
        state_ok(toks, st),
        0 <= st.depth <= MAX_NESTING_DEPTH,
    ensures
        st.depth <= object_entry_spec(toks, st).0.depth <= MAX_NESTING_DEPTH,
        object_entry_spec(toks, st).1 matches Ok(e) ==> within_depth(e.value, value_room(st.depth)),
    decreases toks.len() - st.pos, 1int,
{
    let t = tok_at(toks, st.pos);
    match t.kind {
        TokenView::Identifier(name) => lemma_keyed_within(toks, advanced(toks, st), name, t.span),
        TokenView::Str(name) => lemma_keyed_within(toks, advanced(toks, st), name, t.span),
        _ => {},
    }
}

proof fn lemma_keyed_within(toks: Seq<TokView>, st: PState, key: Seq<char>, key_span: Span)
    requires
        state_ok(toks, st),
        0 <= st.depth <= MAX_NESTING_DEPTH,
    ensures
        st.depth <= keyed_entry_spec(toks, st, key, key_span).0.depth <= MAX_NESTING_DEPTH,
        keyed_entry_spec(toks, st, key, key_span).1 matches Ok(e) ==> within_depth(e.value, value_room(st.depth)),
    decreases toks.len() - st.pos, 8int,
{
    if kind_at(toks, st.pos) is LeftBracket {
        lemma_array_with_key_within(toks, st, key_span);
    } else if kind_at(toks, st.pos) is Colon {
        lemma_value_within(toks, advanced(toks, st));
    }
}

proof fn lemma_array_with_key_within(toks: Seq<TokView>, st: PState, start: Span)
    requires
        state_ok(toks, st),
        0 <= st.depth <= MAX_NESTING_DEPTH,
    ensures
        st.depth <= array_with_key_spec(toks, st, start).0.depth <= MAX_NESTING_DEPTH,
        array_with_key_spec(toks, st, start).1 matches Ok(n) ==> within_depth(n, value_room(st.depth)),
{
    let p1 = next_pos(toks, st.pos);
    let (count, p2) = header_count(toks, p1);
    let (st3, fields) = if kind_at(toks, p2) is RightBracket {
        let p3 = next_pos(toks, p2);
        if kind_at(toks, p3) is LeftBrace {
            let f = field_names_from(toks, next_pos(toks, p3), Seq::empty());
            let p5 = if kind_at(toks, f.0) is RightBrace { next_pos(toks, f.0) } else { f.0 };
            (moved(st, p5), Some(f.1))
        } else {
            (moved(st, p3), None::<Seq<Seq<char>>>)
        }
    } else {
        (recorded(moved(st, p2), error_at(ParseErrorKind::UnexpectedToken, span_at(toks, p2))), None::<Seq<Seq<char>>>)
    };
    let pipe = kind_at(toks, st3.pos) == TokenView::Identifier(seq!['|']);
    let st4 = if pipe { advanced(toks, st3) } else { st3 };
    let delimiter = if pipe { '|' } else { ',' };
    if kind_at(toks, st4.pos) is Colon {
        let st5 = advanced(toks, st4);
        match fields {
            Some(fs) => {
                let sa = if kind_at(toks, st5.pos) is Newline { advanced(toks, st5) } else { st5 };
                let sb = if kind_at(toks, sa.pos) is Indent { advanced(toks, sa) } else { sa };
                lemma_rows_within(toks, sb, start, count, fs, delimiter, Seq::empty(), value_room(st.depth) - 1);
            },
            None => {
                let k = kind_at(toks, st5.pos);
                if !(k is Newline || k is Eof || k is Dedent) {
                    lemma_inline_within(toks, st5, start, delimiter, Seq::empty());
                    let r = inline_items_spec(toks, st5, start, delimiter, Seq::empty());
                    if let Ok(n) = r.1 {
                        lemma_within_mono(n, 1, value_room(st.depth));
                    }
                } else {
                    assert(all_within(Seq::<NodeView>::empty(), 0));
                }
            },
        }
    }
}

proof fn lemma_inline_within(toks: Seq<TokView>, st: PState, start: Span, delimiter: char, items: Seq<NodeView>)
    requires
        state_ok(toks, st),
        all_within(items, 0),
    ensures
        inline_items_spec(toks, st, start, delimiter, items).0.depth == st.depth,
        inline_items_spec(toks, st, start, delimiter, items).1 matches Ok(n) ==> within_depth(n, 1),
    decreases toks.len() - st.pos,
{
    if items.len() < MAX_ARRAY_ITEMS {
        lemma_cell_within(tok_at(toks, st.pos));
        match cell_value(tok_at(toks, st.pos)) {
            Some(Ok(node)) => {
                let st1 = advanced(toks, st);
                let items2 = items.push(node);
                lemma_push_within(items, node, 0);
                if kind_at(toks, st1.pos) is Comma && delimiter == ',' {
                    let st2 = advanced(toks, st1);
                    if st.pos < st2.pos <= toks.len() {
                        lemma_inline_within(toks, st2, start, delimiter, items2);
                    }
                }
            },
            _ => {},
        }
    }
}

proof fn lemma_row_within(
    toks: Seq<TokView>,
    st: PState,
    start: Span,
    fields: Seq<Seq<char>>,
    delimiter: char,
    i: int,
    entries: Seq<EntryView>,
)
    requires
        entries_within(entries, 0),
    ensures
        st.depth - 1 <= row_cells_spec(toks, st, start, fields, delimiter, i, entries).0.depth <= st.depth,
        row_cells_spec(toks, st, start, fields, delimiter, i, entries).1 matches Ok(n) ==> within_depth(n, 1),
    decreases fields.len() - i,
{
    if 0 <= i < fields.len() {
        let t = tok_at(toks, st.pos);
        lemma_cell_within(t);
        match cell_value(t) {
            Some(Err(_)) => {},
            Some(Ok(v)) => {
                let st1 = advanced(toks, st);
                let st2 = if i < fields.len() - 1 && delimiter == ',' && kind_at(toks, st1.pos) is Comma {
                    advanced(toks, st1)
                } else {
                    st1
                };
                let e = EntryView { key: fields[i], key_span: start, value: v };
                lemma_push_entry_within(entries, e, 0);
                lemma_row_within(toks, st2, start, fields, delimiter, i + 1, entries.push(e));
            },
            None => {
                let v = NodeView::Null { span: t.span };
                let st2 = if i < fields.len() - 1 && delimiter == ',' && kind_at(toks, st.pos) is Comma {
                    advanced(toks, st)
                } else {
                    st
                };
                let e = EntryView { key: fields[i], key_span: start, value: v };
                lemma_push_entry_within(entries, e, 0);
                lemma_row_within(toks, st2, start, fields, delimiter, i + 1, entries.push(e));
            },
        }
    }
}

/// The rows of a tabular array whose rows may nest `b` deep.
proof fn lemma_rows_within(
    toks: Seq<TokView>,
    st: PState,
    start: Span,
    remaining: nat,
    fields: Seq<Seq<char>>,
    delimiter: char,
    items: Seq<NodeView>,
    b: int,
)
    requires
        0 <= st.depth <= MAX_NESTING_DEPTH,
        value_room(st.depth) - 1 <= b,
        0 <= b,
        all_within(items, b),
    ensures
        st.depth <= tabular_rows_spec(toks, st, start, remaining, fields, delimiter, items).0.depth
            <= MAX_NESTING_DEPTH,
        tabular_rows_spec(toks, st, start, remaining, fields, delimiter, items).1 matches Ok(n) ==> within_depth(
            n,
            b + 1,
        ),
    decreases remaining,
{
    if remaining > 0 && items.len() < MAX_ARRAY_ITEMS && !(kind_at(toks, st.pos) is Eof || kind_at(toks, st.pos)
        is Dedent) {
        let r = tabular_row_spec(toks, st, fields, delimiter);
        if st.depth < MAX_NESTING_DEPTH {
            assert(entries_within(Seq::<EntryView>::empty(), 0));
            lemma_row_within(toks, deeper(st), span_at(toks, st.pos), fields, delimiter, 0, Seq::empty());
        }
        match r.1 {
            Err(_) => {},
            Ok(row) => {
                lemma_within_mono(row, 1, b);
                lemma_push_within(items, row, b);
                let st2 = if kind_at(toks, r.0.pos) is Newline { advanced(toks, r.0) } else { r.0 };
                lemma_rows_within(toks, st2, start, (remaining - 1) as nat, fields, delimiter, items.push(row), b);
            },
        }
    } else {
        lemma_all_within_mono(items, b, b);
    }
}

/// No parsed document nests objects and arrays more than
/// `MAX_NESTING_DEPTH + 2` levels deep: the root object, at most
/// `MAX_NESTING_DEPTH` nested levels below it, and an array of scalars at
/// the deepest level.
pub proof fn lemma_document_within_depth(toks: Seq<TokView>)
    requires
        tokens_wf(toks),
    ensures
        document_spec(toks).1 matches Ok(n) ==> within_depth(n, MAX_NESTING_DEPTH + 2),
{
    let p = skip_newlines_from(toks, 0);
    lemma_skip_newlines(toks, 0);
    if !(kind_at(toks, p) is Eof) {
        lemma_object_within(toks, moved(initial_state(), p), span_at(toks, 0));
        let r = object_spec(toks, moved(initial_state(), p), span_at(toks, 0));
        if let Ok(root) = r.1 {
            assert(seq![root].drop_last() =~= Seq::<NodeView>::empty());
            assert(seq![root].last() == root);
            assert(moved(initial_state(), p).depth == 0);
            assert(within_depth(root, MAX_NESTING_DEPTH + 2));
            assert(all_within(Seq::<NodeView>::empty(), MAX_NESTING_DEPTH + 2));
            assert(all_within(seq![root], MAX_NESTING_DEPTH + 2));
        }
    }
}

} // verus!
