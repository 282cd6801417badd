//! The object size limit, stated over the trees the grammar gives: a parsed
//! document holds no object of more entries than the limit allows.
use super::grammar::{
    entry_failed,
    advanced, array_with_key_spec, cell_value, dash_item_spec, deeper, document_spec, error_at, expanded_array_spec,
    expanded_items_spec, field_names_from, header_count, initial_state, inline_items_spec, keyed_entry_spec, kind_at,
    lemma_skip_newlines, moved, nested_object_spec, next_pos, object_entries_spec, object_entry_spec, object_spec,
    recorded, row_cells_spec, skip_newlines_from, span_at, state_ok, sync_from, tabular_row_spec, tabular_rows_spec,
    tok_at, tokens_wf, value_spec, view_span, PState, MAX_ARRAY_ITEMS, MAX_NESTING_DEPTH, MAX_OBJECT_ENTRIES,
};
use super::error::{ErrView, ParseErrorKind};
use super::numbers::number_value_spec;
use super::scanner::{TokView, TokenView};
use crate::ast::node::{EntryView, NodeView};
use crate::ast::Span;
use vstd::prelude::*;

verus! {

/// Whether every `{...}` field list of a header names at most
/// `MAX_OBJECT_ENTRIES` fields.
pub open spec fn headers_bounded(toks: Seq<TokView>) -> bool {
    forall|p: int|
        0 <= p < toks.len() && (#[trigger] toks[p]).kind is LeftBrace ==> field_names_from(toks, p + 1, Seq::empty()).1.len()
            <= MAX_OBJECT_ENTRIES
}

/// Whether every object in a node holds at most `MAX_OBJECT_ENTRIES` entries.
pub open spec fn objects_bounded(n: NodeView) -> bool
    decreases n,
{
    match n {
        NodeView::Document { children, .. } => all_objects_bounded(children),
        NodeView::Object { entries, .. } => entries.len() <= MAX_OBJECT_ENTRIES && entry_objects_bounded(entries),
        NodeView::Array { items, .. } => all_objects_bounded(items),
        _ => true,
    }
}

pub open spec fn all_objects_bounded(s: Seq<NodeView>) -> bool
    decreases s,
{
    if s.len() == 0 {
        true
    } else {
        all_objects_bounded(s.drop_last()) && objects_bounded(s.last())
    }
}

pub open spec fn entry_objects_bounded(s: Seq<EntryView>) -> bool
    decreases s,
{
    if s.len() == 0 {
        true
    } else {
        entry_objects_bounded(s.drop_last()) && objects_bounded(s.last().value)
    }
}

proof fn lemma_push_sized(s: Seq<NodeView>, x: NodeView)
    ensures
        all_objects_bounded(s.push(x)) == (all_objects_bounded(s) && objects_bounded(x)),
{
    assert(s.push(x).drop_last() =~= s);
}

proof fn lemma_push_entry_sized(s: Seq<EntryView>, x: EntryView)
    ensures
        entry_objects_bounded(s.push(x)) == (entry_objects_bounded(s) && objects_bounded(x.value)),
{
    assert(s.push(x).drop_last() =~= s);
}

proof fn lemma_cell_sized(t: TokView)
    ensures
        cell_value(t) matches Some(Ok(v)) ==> objects_bounded(v),
{
    match t.kind {
        TokenView::Number(n) => {
            match number_value_spec(n, t.span) {
                Ok(_) => {},
                Err(_) => {},
            }
        },
        _ => {},
    }
}

proof fn lemma_value_sized(toks: Seq<TokView>, st: PState)
    requires
        state_ok(toks, st),
        headers_bounded(toks),
    ensures
        value_spec(toks, st).1 matches Ok(n) ==> objects_bounded(n),
    decreases toks.len() - st.pos, 6int,
{
    let t = tok_at(toks, st.pos);
    match t.kind {
        TokenView::Number(n) => {
            match number_value_spec(n, t.span) {
                Ok(_) => {},
                Err(_) => {},
            }
        },
        TokenView::Indent => lemma_nested_sized(toks, st),
        TokenView::Dash => lemma_expanded_sized(toks, st),
        TokenView::Newline => {
            let st1 = advanced(toks, st);
            match kind_at(toks, st1.pos) {
                TokenView::Indent => lemma_nested_sized(toks, st1),
                TokenView::Dash => lemma_expanded_sized(toks, st1),
                _ => {},
            }
        },
        _ => {},
    }
}

proof fn lemma_nested_sized(toks: Seq<TokView>, st: PState)
    requires
        state_ok(toks, st),
        headers_bounded(toks),
    ensures
        nested_object_spec(toks, st).1 matches Ok(n) ==> objects_bounded(n),
    decreases toks.len() - st.pos, 5int,
{
    let start = span_at(toks, st.pos);
    if st.depth < MAX_NESTING_DEPTH {
        let st1 = deeper(st);
        let st2 = if kind_at(toks, st1.pos) is Indent { advanced(toks, st1) } else { st1 };
        if kind_at(toks, st2.pos) is Dash {
            lemma_expanded_sized(toks, st2);
        } else {
            lemma_object_sized(toks, st2, start);
        }
    }
}

proof fn lemma_expanded_sized(toks: Seq<TokView>, st: PState)
    requires
        state_ok(toks, st),
        headers_bounded(toks),
    ensures
        expanded_array_spec(toks, st).1 matches Ok(n) ==> objects_bounded(n),
    decreases toks.len() - st.pos, 4int,
{
    if st.depth < MAX_NESTING_DEPTH {
        lemma_items_sized(toks, deeper(st), span_at(toks, st.pos), Seq::empty());
    }
}

proof fn lemma_dash_item_sized(toks: Seq<TokView>, st: PState)
    requires
        state_ok(toks, st),
        headers_bounded(toks),
    ensures
        dash_item_spec(toks, st).1 matches Ok(n) ==> objects_bounded(n),
    decreases toks.len() - st.pos, 7int,
{
    if kind_at(toks, st.pos) is Newline {
        let st1 = advanced(toks, st);
        if kind_at(toks, st1.pos) is Indent {
            lemma_nested_sized(toks, st1);
        }
    } else if !(kind_at(toks, st.pos) is Eof || kind_at(toks, st.pos) is Dedent) {
        lemma_value_sized(toks, st);
    }
}

proof fn lemma_items_sized(toks: Seq<TokView>, st: PState, start: Span, items: Seq<NodeView>)
    requires
        state_ok(toks, st),
        headers_bounded(toks),
        all_objects_bounded(items),
    ensures
        expanded_items_spec(toks, st, start, items).1 matches Ok(n) ==> objects_bounded(n),
    decreases toks.len() - st.pos, 3int,
{
    if kind_at(toks, st.pos) is Dash && items.len() < MAX_ARRAY_ITEMS {
        let r = dash_item_spec(toks, advanced(toks, st));
        lemma_dash_item_sized(toks, advanced(toks, st));
        match r.1 {
            Err(_) => {},
            Ok(item) => {
                let items2 = items.push(item);
                lemma_push_sized(items, item);
                let st3 = if kind_at(toks, r.0.pos) is Newline { advanced(toks, r.0) } else { r.0 };
                if !(kind_at(toks, st3.pos) is Dedent) && st.pos < st3.pos <= toks.len() {
                    lemma_items_sized(toks, st3, start, items2);
                }
            },
        }
    }
}

proof fn lemma_object_sized(toks: Seq<TokView>, st: PState, start: Span)
    requires
        state_ok(toks, st),
        headers_bounded(toks),
    ensures
        object_spec(toks, st, start).1 matches Ok(n) ==> objects_bounded(n),
    decreases toks.len() - st.pos, 3int,
{
    lemma_entries_sized(toks, st, start, Seq::empty());
}

proof fn lemma_entries_sized(toks: Seq<TokView>, st: PState, start: Span, entries: Seq<EntryView>)
    requires
        state_ok(toks, st),
        headers_bounded(toks),
        entries.len() <= MAX_OBJECT_ENTRIES,
        entry_objects_bounded(entries),
    ensures
        object_entries_spec(toks, st, start, entries).1 matches Ok(n) ==> objects_bounded(n),
    decreases toks.len() - st.pos, 2int,
{
    if !(kind_at(toks, st.pos) is Eof) && entries.len() < MAX_OBJECT_ENTRIES {
        let p1 = skip_newlines_from(toks, st.pos);
        lemma_skip_newlines(toks, st.pos);
        let st1 = moved(st, p1);
        let k = kind_at(toks, p1);
        if !(k is Dedent || k is Eof || !(k is Identifier || k is Str)) {
            let r = object_entry_spec(toks, st1);
            lemma_entry_sized(toks, st1);
            let (st2, entries2) = match r.1 {
                Ok(entry) => (r.0, entries.push(entry)),
                Err(e) => (entry_failed(toks, r.0, e, span_at(toks, p1)), entries),
            };
            if let Ok(entry) = r.1 {
                lemma_push_entry_sized(entries, entry);
            }
            let st3 = if kind_at(toks, st2.pos) is Newline { advanced(toks, st2) } else { st2 };
            if st.pos < st3.pos <= toks.len() {
                lemma_entries_sized(toks, st3, start, entries2);
            }
        }
    }
}

proof fn lemma_entry_sized(toks: Seq<TokView>, st: PState)
    requires
        state_ok(toks, st),
        headers_bounded(toks),
    ensures
        object_entry_spec(toks, st).1 matches Ok(e) ==> objects_bounded(e.value),
    decreases toks.len() - st.pos, 1int,
{
    let t = tok_at(toks, st.pos);
    match t.kind {
        TokenView::Identifier(name) => lemma_keyed_sized(toks, advanced(toks, st), name, t.span),
        TokenView::Str(name) => lemma_keyed_sized(toks, advanced(toks, st), name, t.span),
        _ => {},
    }
}

proof fn lemma_keyed_sized(toks: Seq<TokView>, st: PState, key: Seq<char>, key_span: Span)
    requires
        state_ok(toks, st),
        headers_bounded(toks),
    ensures
        keyed_entry_spec(toks, st, key, key_span).1 matches Ok(e) ==> objects_bounded(e.value),
    decreases toks.len() - st.pos, 8int,
{
    if kind_at(toks, st.pos) is LeftBracket {
        lemma_array_with_key_sized(toks, st, key_span);
    } else if kind_at(toks, st.pos) is Colon {
        lemma_value_sized(toks, advanced(toks, st));
    }
}

proof fn lemma_array_with_key_sized(toks: Seq<TokView>, st: PState, start: Span)
    requires
        state_ok(toks, st),
        headers_bounded(toks),
    ensures
        array_with_key_spec(toks, st, start).1 matches Ok(n) ==> objects_bounded(n),
{
    let p1 = next_pos(toks, st.pos);
    let (count, p2) = header_count(toks, p1);
    let (st3, fields) = if kind_at(toks, p2) is RightBracket {
        let p3 = next_pos(toks, p2);
        if kind_at(toks, p3) is LeftBrace {
            let f = field_names_from(toks, next_pos(toks, p3), Seq::empty());
            assert(0 <= p3 < toks.len() && toks[p3].kind is LeftBrace);
            let p5 = if kind_at(toks, f.0) is RightBrace { next_pos(toks, f.0) } else { f.0 };
            (moved(st, p5), Some(f.1))
        } else {
            (moved(st, p3), None::<Seq<Seq<char>>>)
        }
    } else {
        (recorded(moved(st, p2), error_at(ParseErrorKind::UnexpectedToken, span_at(toks, p2))), None::<Seq<Seq<char>>>)
    };
    let pipe = kind_at(toks, st3.pos) == TokenView::Identifier(seq!['|']);
    let st4 = if pipe { advanced(toks, st3) } else { st3 };
    let delimiter = if pipe { '|' } else { ',' };
    if kind_at(toks, st4.pos) is Colon {
        let st5 = advanced(toks, st4);
        match fields {
            Some(fs) => {
                let sa = if kind_at(toks, st5.pos) is Newline { advanced(toks, st5) } else { st5 };
                let sb = if kind_at(toks, sa.pos) is Indent { advanced(toks, sa) } else { sa };
                lemma_rows_sized(toks, sb, start, count, fs, delimiter, Seq::empty());
            },
            None => {
                let k = kind_at(toks, st5.pos);
                if !(k is Newline || k is Eof || k is Dedent) {
                    lemma_inline_sized(toks, st5, start, delimiter, Seq::empty());
                }
            },
        }
    }
}

proof fn lemma_inline_sized(toks: Seq<TokView>, st: PState, start: Span, delimiter: char, items: Seq<NodeView>)
    requires
        state_ok(toks, st),
        all_objects_bounded(items),
    ensures
        inline_items_spec(toks, st, start, delimiter, items).1 matches Ok(n) ==> objects_bounded(n),
    decreases toks.len() - st.pos,
{
    if items.len() < MAX_ARRAY_ITEMS {
        lemma_cell_sized(tok_at(toks, st.pos));
        match cell_value(tok_at(toks, st.pos)) {
            Some(Ok(node)) => {
                let st1 = advanced(toks, st);
                let items2 = items.push(node);
                lemma_push_sized(items, node);
                if kind_at(toks, st1.pos) is Comma && delimiter == ',' {
                    let st2 = advanced(toks, st1);
                    if st.pos < st2.pos <= toks.len() {
                        lemma_inline_sized(toks, st2, start, delimiter, items2);
                    }
                }
            },
            _ => {},
        }
    }
}

proof fn lemma_row_sized(
    toks: Seq<TokView>,
    st: PState,
    start: Span,
    fields: Seq<Seq<char>>,
    delimiter: char,
    i: int,
    entries: Seq<EntryView>,
)
    requires
        0 <= i <= fields.len(),
        entries.len() == i,
        fields.len() <= MAX_OBJECT_ENTRIES,
        entry_objects_bounded(entries),
    ensures
        row_cells_spec(toks, st, start, fields, delimiter, i, entries).1 matches Ok(n) ==> objects_bounded(n),
    decreases fields.len() - i,
{
    if 0 <= i < fields.len() {
        let t = tok_at(toks, st.pos);
        lemma_cell_sized(t);
        match cell_value(t) {
            Some(Err(_)) => {},
            Some(Ok(v)) => {
                let st1 = advanced(toks, st);
                let st2 = if i < fields.len() - 1 && delimiter == ',' && kind_at(toks, st1.pos) is Comma {
                    advanced(toks, st1)
                } else {
                    st1
                };
                let e = EntryView { key: fields[i], key_span: start, value: v };
                lemma_push_entry_sized(entries, e);
                lemma_row_sized(toks, st2, start, fields, delimiter, i + 1, entries.push(e));
            },
            None => {
                let v = NodeView::Null { span: t.span };
                let st2 = if i < fields.len() - 1 && delimiter == ',' && kind_at(toks, st.pos) is Comma {
                    advanced(toks, st)
                } else {
                    st
                };
                let e = EntryView { key: fields[i], key_span: start, value: v };
                lemma_push_entry_sized(entries, e);
                lemma_row_sized(toks, st2, start, fields, delimiter, i + 1, entries.push(e));
            },
        }
    }
}

proof fn lemma_rows_sized(
    toks: Seq<TokView>,
    st: PState,
    start: Span,
    remaining: nat,
    fields: Seq<Seq<char>>,
    delimiter: char,
    items: Seq<NodeView>,
)
    requires
        fields.len() <= MAX_OBJECT_ENTRIES,
        all_objects_bounded(items),
    ensures
        tabular_rows_spec(toks, st, start, remaining, fields, delimiter, items).1 matches Ok(n) ==> objects_bounded(n),
    decreases remaining,
{
    if remaining > 0 && items.len() < MAX_ARRAY_ITEMS && !(kind_at(toks, st.pos) is Eof || kind_at(toks, st.pos) is Dedent) {
        let r = tabular_row_spec(toks, st, fields, delimiter);
        if st.depth < MAX_NESTING_DEPTH {
            lemma_row_sized(toks, deeper(st), span_at(toks, st.pos), fields, delimiter, 0, Seq::empty());
        }
        match r.1 {
            Err(_) => {},
            Ok(row) => {
                lemma_push_sized(items, row);
                let st2 = if kind_at(toks, r.0.pos) is Newline { advanced(toks, r.0) } else { r.0 };
                lemma_rows_sized(toks, st2, start, (remaining - 1) as nat, fields, delimiter, items.push(row));
            },
        }
    }
}

/// No object of a parsed document holds more than `MAX_OBJECT_ENTRIES`
/// entries, when no header of a tabular array names more fields than that
/// (a tabular row holds one entry per field).
pub proof fn lemma_document_objects_bounded(toks: Seq<TokView>)
    requires
        tokens_wf(toks),
        headers_bounded(toks),
    ensures
        document_spec(toks).1 matches Ok(n) ==> objects_bounded(n),
{
    let p = skip_newlines_from(toks, 0);
    lemma_skip_newlines(toks, 0);
    if kind_at(toks, p) is Eof {
        assert(all_objects_bounded(Seq::<NodeView>::empty()));
    } else {
        lemma_object_sized(toks, moved(initial_state(), p), span_at(toks, 0));
        let r = object_spec(toks, moved(initial_state(), p), span_at(toks, 0));
        if let Ok(root) = r.1 {
            assert(seq![root].drop_last() =~= Seq::<NodeView>::empty());
            assert(seq![root].last() == root);
            assert(all_objects_bounded(Seq::<NodeView>::empty()));
            assert(all_objects_bounded(seq![root]));
            let d = NodeView::Document { children: seq![root], span: span_at(toks, 0).spec_merge(view_span(root)) };
            assert(objects_bounded(d));
            assert(document_spec(toks).1 == Ok::<NodeView, ErrView>(d));
        }
    }
}

} // verus!
