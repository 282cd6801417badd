//! Inlay hints: the size of each object and array value, and a note on
//! float and null values, shown after the value.
use crate::ast::node::{entries_view, lemma_entries_view_push, lemma_nodes_view_push, node_view, nodes_view, EntryView, NodeView, NumberView};
use crate::ast::{AstNode, NumberValue, ObjectEntry, Span};
use crate::lsp::utf16::{chars_to_byte, is_byte_column, utf8_to_utf16_col, LspPosition, LspRange};
use crate::parser::grammar::view_span;
use crate::lsp::formatting::{number_text, push_number};
use crate::lsp::hover::bool_text;
use crate::parser::grammar::env_prefixed;
use crate::parser::is_env_reference;
use crate::resolve::{env_lookup, env_view, lookup_env, resolve, resolve_result, ResolvedRef, ResolvedView};
use crate::lsp::formatting::table_view;
use crate::text::{chars_of, decimal_digits, lines_of, nth_line, push_decimal, utf16_len};
use vstd::prelude::*;

verus! {

/// A type hint: shown at `position`, with its label and tooltip (it is a
/// type hint padded on the left).
#[derive(Debug, Clone)]
pub struct TypeHint {
    pub position: LspPosition,
    pub label: String,
    pub tooltip: String,
}

/// The model of a hint: where it stands and the type text it shows.
pub struct HintView {
    pub line: u32,
    pub character: int,
    pub text: Seq<char>,
    /// A reference's resolved value (else a value's type)
    pub resolved: bool,
}

/// Line `l` of `src`, or the empty line past the end.
pub open spec fn line_or_empty(src: Seq<char>, l: u32) -> Seq<char> {
    if (l as int) < lines_of(src).len() {
        lines_of(src)[l as int]
    } else {
        Seq::empty()
    }
}

/// Whether the end of `span` can be converted to a protocol position.
pub open spec fn end_convertible(src: Seq<char>, span: Span) -> bool {
    let line = line_or_empty(src, span.end.line);
    is_byte_column(line, span.end.column as nat) && utf16_len(line) <= u32::MAX
}

/// The hint at the end of `span` with type text `text`.
pub open spec fn hint_at(src: Seq<char>, span: Span, text: Seq<char>) -> HintView {
    let line = line_or_empty(src, span.end.line);
    HintView {
        line: span.end.line,
        character: utf16_len(line.take(chars_to_byte(line, span.end.column as nat, 0))) as int,
        text,
        resolved: false,
    }
}

/// The hint at the end of a reference's span showing its resolved value.
pub open spec fn resolved_hint_at(src: Seq<char>, span: Span, text: Seq<char>) -> HintView {
    HintView { resolved: true, ..hint_at(src, span, text) }
}

/// The value a reference resolves to, as a hint shows it: an `env:`
/// variable's value; else, when the path resolves, the text of a scalar it
/// reaches (a string's text, a number's, `true`/`false`, `null`) or the
/// environment value a chain ends in.
pub open spec fn resolved_text(
    path: Seq<char>,
    is_env: bool,
    root: NodeView,
    env: Seq<(Seq<char>, Seq<char>)>,
    table: Seq<(Seq<char>, Seq<char>)>,
) -> Option<Seq<char>> {
    if is_env {
        env_lookup(env, if env_prefixed(path) { path.skip(4) } else { path }, 0)
    } else {
        match resolve_result(root, path, env) {
            Ok(ResolvedView::Node(node, _)) => match node {
                NodeView::Str { value, .. } => Some(value),
                NodeView::Number { value, .. } => Some(number_text(value, table)),
                NodeView::Bool { value, .. } => Some(bool_text(value)),
                NodeView::Null { .. } => Some("null"@),
                _ => None,
            },
            Ok(ResolvedView::Env(v)) => Some(v),
            Err(_) => None,
        }
    }
}

/// The type text of a value that gets a hint.
pub open spec fn value_hint_text(v: NodeView) -> Option<Seq<char>> {
    match v {
        NodeView::Object { entries, .. } => Some(decimal_digits(entries.len()) + " entries"@),
        NodeView::Array { items, .. } => Some(decimal_digits(items.len()) + " items"@),
        NodeView::Number { value: NumberView::Float(_), .. } => Some("float"@),
        NodeView::Null { .. } => Some("null"@),
        _ => None,
    }
}

/// The hints of a node, in document order: for each object entry, the hint
/// of its value (if any), then the hints inside the value.
pub open spec fn node_hints(n: NodeView, src: Seq<char>, root: NodeView, env: Seq<(Seq<char>, Seq<char>)>, table: Seq<(Seq<char>, Seq<char>)>) -> Seq<HintView>
    decreases n,
{
    match n {
        NodeView::Document { children, .. } => nodes_hints(children, src, root, env, table),
        NodeView::Object { entries, .. } => entries_hints(entries, src, root, env, table),
        NodeView::Array { items, .. } => nodes_hints(items, src, root, env, table),
        NodeView::Reference { path, is_env, span } => match resolved_text(path, is_env, root, env, table) {
            Some(t) => seq![resolved_hint_at(src, span, t)],
            None => Seq::empty(),
        },
        _ => Seq::empty(),
    }
}

pub open spec fn nodes_hints(s: Seq<NodeView>, src: Seq<char>, root: NodeView, env: Seq<(Seq<char>, Seq<char>)>, table: Seq<(Seq<char>, Seq<char>)>) -> Seq<HintView>
    decreases s,
{
    if s.len() == 0 {
        Seq::empty()
    } else {
        nodes_hints(s.drop_last(), src, root, env, table) + node_hints(s.last(), src, root, env, table)
    }
}

pub open spec fn entries_hints(s: Seq<EntryView>, src: Seq<char>, root: NodeView, env: Seq<(Seq<char>, Seq<char>)>, table: Seq<(Seq<char>, Seq<char>)>) -> Seq<HintView>
    decreases s,
{
    if s.len() == 0 {
        Seq::empty()
    } else {
        entries_hints(s.drop_last(), src, root, env, table) + match value_hint_text(s.last().value) {
            Some(t) => seq![hint_at(src, view_span(s.last().value), t)],
            None => Seq::empty(),
        } + node_hints(s.last().value, src, root, env, table)
    }
}

/// Whether every hint of a node can be placed.
pub open spec fn hints_placeable(n: NodeView, src: Seq<char>) -> bool
    decreases n,
{
    match n {
        NodeView::Document { children, .. } => all_hints_placeable(children, src),
        NodeView::Object { entries, .. } => entry_hints_placeable(entries, src),
        NodeView::Array { items, .. } => all_hints_placeable(items, src),
        NodeView::Reference { span, .. } => end_convertible(src, span),
        _ => true,
    }
}

pub open spec fn all_hints_placeable(s: Seq<NodeView>, src: Seq<char>) -> bool
    decreases s,
{
    if s.len() == 0 {
        true
    } else {
        all_hints_placeable(s.drop_last(), src) && hints_placeable(s.last(), src)
    }
}

pub open spec fn entry_hints_placeable(s: Seq<EntryView>, src: Seq<char>) -> bool
    decreases s,
{
    if s.len() == 0 {
        true
    } else {
        &&& entry_hints_placeable(s.drop_last(), src)
        &&& (value_hint_text(s.last().value) is Some ==> end_convertible(src, view_span(s.last().value)))
        &&& hints_placeable(s.last().value, src)
    }
}

/// Whether a position lies in a range (both ends included).
pub open spec fn in_range(p: LspPosition, r: LspRange) -> bool {
    &&& r.start.line <= p.line <= r.end.line
    &&& !(p.line == r.start.line && p.character < r.start.character)
    &&& !(p.line == r.end.line && p.character > r.end.character)
}

/// The hints of `hs` that lie in `range`, in order.
pub open spec fn hints_in_range(hs: Seq<HintView>, range: LspRange) -> Seq<HintView>
    decreases hs.len(),
{
    if hs.len() == 0 {
        Seq::empty()
    } else {
        let last = hs.last();
        hints_in_range(hs.drop_last(), range) + if in_range(LspPosition { line: last.line, character: last.character as u32 }, range) {
            seq![last]
        } else {
            Seq::empty()
        }
    }
}

/// Whether hint `h` is the hint `v`: its position, and a label and tooltip
/// made of `v`'s type text.
pub open spec fn shows(h: TypeHint, v: HintView) -> bool {
    &&& h.position.line == v.line
    &&& h.position.character == v.character
    &&& if v.resolved {
        &&& h.label@ == " = "@ + v.text
        &&& h.tooltip@ == "Resolved: "@ + v.text
    } else {
        &&& h.label@ == "  \u{2500} "@ + v.text + " \u{2500}"@
        &&& h.tooltip@ == "Value type: "@ + v.text
    }
}

/// Whether `hs[start..]` shows the hints `vs`, one for one.
pub open spec fn shows_from(hs: Seq<TypeHint>, start: int, vs: Seq<HintView>) -> bool {
    &&& 0 <= start
    &&& hs.len() == start + vs.len()
    &&& forall|i: int| 0 <= i < vs.len() ==> shows(#[trigger] hs[start + i], vs[i])
}

/// Whether `hs` shows the hints `vs`, one for one.
pub open spec fn shows_all(hs: Seq<TypeHint>, vs: Seq<HintView>) -> bool {
    shows_from(hs, 0, vs)
}

proof fn lemma_shows_concat(h1: Seq<TypeHint>, h2: Seq<TypeHint>, start: int, a: Seq<HintView>, b: Seq<HintView>)
    requires
        shows_from(h1, start, a),
        h2.len() >= h1.len(),
        h2.subrange(0, h1.len() as int) == h1,
        shows_from(h2, h1.len() as int, b),
    ensures
        shows_from(h2, start, a + b),
{
    assert forall|i: int| 0 <= i < (a + b).len() implies shows(#[trigger] h2[start + i], (a + b)[i]) by {
        if i < a.len() {
            assert(h2[start + i] == h2.subrange(0, h1.len() as int)[start + i]);
        } else {
            assert(h2[h1.len() + (i - a.len())] == h2[start + i]);
        }
    }
}

fn make_hint(src: &Vec<char>, span: Span, text: &String) -> (h: TypeHint)
    requires
        end_convertible(src@, span),
    ensures
        shows(h, hint_at(src@, span, text@)),
{
    let line = match nth_line(src, span.end.line as usize) {
        Some(l) => l,
        None => String::new(),
    };
    let end_char = utf8_to_utf16_col(line.as_str(), span.end.column);
    let mut label = String::from_str("  \u{2500} ");
    label.append(text.as_str());
    label.append(" \u{2500}");
    let mut tooltip = String::from_str("Value type: ");
    tooltip.append(text.as_str());
    TypeHint { position: LspPosition { line: span.end.line, character: end_char }, label, tooltip }
}

fn make_resolved_hint(src: &Vec<char>, span: Span, text: &String) -> (h: TypeHint)
    requires
        end_convertible(src@, span),
    ensures
        shows(h, resolved_hint_at(src@, span, text@)),
{
    let line = match nth_line(src, span.end.line as usize) {
        Some(l) => l,
        None => String::new(),
    };
    let end_char = utf8_to_utf16_col(line.as_str(), span.end.column);
    let mut label = String::from_str(" = ");
    label.append(text.as_str());
    let mut tooltip = String::from_str("Resolved: ");
    tooltip.append(text.as_str());
    TypeHint { position: LspPosition { line: span.end.line, character: end_char }, label, tooltip }
}

/// The value a reference resolves to, as its hint shows it.
fn resolved_value(
    path: &String,
    is_env: bool,
    root: &AstNode,
    env: &Vec<(String, String)>,
    table: &Vec<(String, String)>,
) -> (r: Option<String>)
    ensures
        match r {
            Some(t) => resolved_text(path@, is_env, node_view(*root), env_view(env@), table_view(table@)) == Some(t@),
            None => resolved_text(path@, is_env, node_view(*root), env_view(env@), table_view(table@)) is None,
        },
{
    if is_env {
        let v = chars_of(path.as_str());
        let from: usize = if is_env_reference(path) { 4 } else { 0 };
        proof {
            if from == 4 {
                assert(v@.len() >= 4);
            }
        }
        let mut name = String::new();
        let mut i: usize = from;
        while i < v.len()
            invariant
                from <= i <= v.len(),
                v@ == path@,
                name@ == v@.subrange(from as int, i as int),
            decreases v.len() - i,
        {
            name.push(v[i]);
            proof {
                assert(name@ =~= v@.subrange(from as int, i + 1));
            }
            i += 1;
        }
        proof {
            if from == 4 {
                assert(name@ =~= path@.skip(4));
            } else {
                assert(name@ =~= path@);
            }
        }
        return lookup_env(env, &name);
    }
    match resolve(root, path.as_str(), env) {
        Ok(ResolvedRef::Node { node, .. }) => match &node {
            AstNode::String { value, .. } => Some(value.clone()),
            AstNode::Number { value, .. } => {
                let mut t = String::new();
                push_number(&mut t, value, table);
                Some(t)
            },
            AstNode::Bool { value, .. } => Some(String::from_str(if *value { "true" } else { "false" })),
            AstNode::Null { .. } => Some(String::from_str("null")),
            _ => None,
        },
        Ok(ResolvedRef::Env(v)) => Some(v),
        Err(_) => None,
    }
}

fn count_text(n: usize, unit: &str) -> (s: String)
    ensures
        s@ == decimal_digits(n as nat) + unit@,
{
    let mut s = String::new();
    push_decimal(&mut s, n as u64);
    s.append(unit);
    s
}

/// The type text of a value that gets a hint.
fn hint_text(value: &AstNode) -> (t: Option<String>)
    ensures
        match t {
            Some(s) => value_hint_text(node_view(*value)) == Some(s@),
            None => value_hint_text(node_view(*value)) is None,
        },
{
    match value {
        AstNode::Object { entries, .. } => {
            proof {
                crate::ast::node::lemma_entries_view_len(entries@);
            }
            Some(count_text(entries.len(), " entries"))
        },
        AstNode::Array { items, .. } => {
            proof {
                crate::ast::node::lemma_nodes_view_len(items@);
            }
            Some(count_text(items.len(), " items"))
        },
        AstNode::Number { value: NumberValue::Float(_), .. } => Some(String::from_str("float")),
        AstNode::Null { .. } => Some(String::from_str("null")),
        _ => None,
    }
}

fn visit_node(node: &AstNode, src: &Vec<char>, hints: &mut Vec<TypeHint>, root: &AstNode, env: &Vec<(String, String)>, table: &Vec<(String, String)>)
    requires
        hints_placeable(node_view(*node), src@),
    ensures
        final(hints)@.subrange(0, old(hints)@.len() as int) == old(hints)@,
        shows_from(final(hints)@, old(hints)@.len() as int, node_hints(node_view(*node), src@, node_view(*root), env_view(env@), table_view(table@))),
    decreases node,
{
    match node {
        AstNode::Document { children, .. } => visit_nodes(children, src, hints, root, env, table),
        AstNode::Object { entries, .. } => visit_entries(entries, src, hints, root, env, table),
        AstNode::Array { items, .. } => visit_nodes(items, src, hints, root, env, table),
        AstNode::Reference { path, is_env, span } => {
            match resolved_value(path, *is_env, root, env, table) {
                Some(t) => {
                    let h = make_resolved_hint(src, *span, &t);
                    hints.push(h);
                },
                None => {},
            }
            proof {
                assert(final(hints)@.subrange(0, old(hints)@.len() as int) =~= old(hints)@);
            }
        },
        _ => {
            proof {
                assert(final(hints)@.subrange(0, old(hints)@.len() as int) =~= old(hints)@);
            }
        },
    }
}

fn visit_nodes(nodes: &Vec<AstNode>, src: &Vec<char>, hints: &mut Vec<TypeHint>, root: &AstNode, env: &Vec<(String, String)>, table: &Vec<(String, String)>)
    requires
        all_hints_placeable(nodes_view(nodes@), src@),
    ensures
        final(hints)@.subrange(0, old(hints)@.len() as int) == old(hints)@,
        shows_from(final(hints)@, old(hints)@.len() as int, nodes_hints(nodes_view(nodes@), src@, node_view(*root), env_view(env@), table_view(table@))),
    decreases nodes,
{
    let ghost start = hints@.len() as int;
    let mut i: usize = 0;
    proof {
        assert(hints@.subrange(0, start) =~= old(hints)@);
        assert(nodes_hints(nodes_view(nodes@.take(0)), src@, node_view(*root), env_view(env@), table_view(table@)) =~= Seq::<HintView>::empty()) by {
            assert(nodes_view(nodes@.take(0)) =~= Seq::<NodeView>::empty());
        }
    }
    while i < nodes.len()
        invariant
            0 <= i <= nodes.len(),
            start == old(hints)@.len(),
            all_hints_placeable(nodes_view(nodes@), src@),
            hints@.len() >= start,
            hints@.subrange(0, start) == old(hints)@,
            shows_from(hints@, start, nodes_hints(nodes_view(nodes@.take(i as int)), src@, node_view(*root), env_view(env@), table_view(table@))),
        decreases nodes.len() - i,
    {
        proof {
            lemma_placeable_item(nodes@, i as int, src@);
            assert(nodes@.take(i + 1) =~= nodes@.take(i as int).push(nodes@[i as int]));
            lemma_nodes_view_push(nodes@.take(i as int), nodes@[i as int]);
            assert(nodes_view(nodes@.take(i + 1)).drop_last() =~= nodes_view(nodes@.take(i as int)));
        }
        let ghost h1 = hints@;
        visit_node(&nodes[i], src, hints, root, env, table);
        proof {
            lemma_shows_concat(h1, hints@, start, nodes_hints(nodes_view(nodes@.take(i as int)), src@, node_view(*root), env_view(env@), table_view(table@)),
                node_hints(node_view(nodes@[i as int]), src@, node_view(*root), env_view(env@), table_view(table@)));
            assert(hints@.subrange(0, start) =~= h1.subrange(0, start));
        }
        i += 1;
    }
    proof {
        assert(nodes@.take(nodes.len() as int) =~= nodes@);
    }
}

fn visit_entries(entries: &Vec<ObjectEntry>, src: &Vec<char>, hints: &mut Vec<TypeHint>, root: &AstNode, env: &Vec<(String, String)>, table: &Vec<(String, String)>)
    requires
        entry_hints_placeable(entries_view(entries@), src@),
    ensures
        final(hints)@.subrange(0, old(hints)@.len() as int) == old(hints)@,
        shows_from(final(hints)@, old(hints)@.len() as int, entries_hints(entries_view(entries@), src@, node_view(*root), env_view(env@), table_view(table@))),
    decreases entries,
{
    let ghost start = hints@.len() as int;
    let mut i: usize = 0;
    proof {
        assert(hints@.subrange(0, start) =~= old(hints)@);
        assert(entries_hints(entries_view(entries@.take(0)), src@, node_view(*root), env_view(env@), table_view(table@)) =~= Seq::<HintView>::empty()) by {
            assert(entries_view(entries@.take(0)) =~= Seq::<EntryView>::empty());
        }
    }
    while i < entries.len()
        invariant
            0 <= i <= entries.len(),
            start == old(hints)@.len(),
            entry_hints_placeable(entries_view(entries@), src@),
            hints@.len() >= start,
            hints@.subrange(0, start) == old(hints)@,
            shows_from(hints@, start, entries_hints(entries_view(entries@.take(i as int)), src@, node_view(*root), env_view(env@), table_view(table@))),
        decreases entries.len() - i,
    {
        proof {
            lemma_placeable_entry(entries@, i as int, src@);
            assert(entries@.take(i + 1) =~= entries@.take(i as int).push(entries@[i as int]));
            lemma_entries_view_push(entries@.take(i as int), entries@[i as int]);
            assert(entries_view(entries@.take(i + 1)).drop_last() =~= entries_view(entries@.take(i as int)));
        }
        let entry = &entries[i];
        let ghost h0 = hints@;
        let ghost own: Seq<HintView> = match value_hint_text(node_view(entry.value)) {
            Some(t) => seq![hint_at(src@, view_span(node_view(entry.value)), t)],
            None => Seq::empty(),
        };
        match hint_text(&entry.value) {
            Some(text) => {
                proof {
                    lemma_value_span(entry.value);
                }
                let h = make_hint(src, entry.value.span(), &text);
                hints.push(h);
            },
            None => {},
        }
        proof {
            assert(shows_from(hints@, h0.len() as int, own));
            assert(hints@.subrange(0, h0.len() as int) =~= h0);
            lemma_shows_concat(h0, hints@, start, entries_hints(entries_view(entries@.take(i as int)), src@, node_view(*root), env_view(env@), table_view(table@)), own);
        }
        let ghost h1 = hints@;
        visit_node(&entry.value, src, hints, root, env, table);
        proof {
            lemma_shows_concat(h1, hints@, start,
                entries_hints(entries_view(entries@.take(i as int)), src@, node_view(*root), env_view(env@), table_view(table@)) + own,
                node_hints(node_view(entry.value), src@, node_view(*root), env_view(env@), table_view(table@)));
            assert(hints@.subrange(0, start) =~= h1.subrange(0, start));
            assert(h1.subrange(0, start) =~= h0.subrange(0, start));
        }
        i += 1;
    }
    proof {
        assert(entries@.take(entries.len() as int) =~= entries@);
    }
}

proof fn lemma_value_span(n: AstNode)
    ensures
        view_span(node_view(n)) == n.spec_span(),
{
}

proof fn lemma_placeable_item(s: Seq<AstNode>, i: int, src: Seq<char>)
    requires
        0 <= i < s.len(),
        all_hints_placeable(nodes_view(s), src),
    ensures
        hints_placeable(node_view(s[i]), src),
    decreases s.len(),
{
    assert(nodes_view(s).drop_last() =~= nodes_view(s.drop_last()));
    if i < s.len() - 1 {
        assert(s.drop_last()[i] == s[i]);
        lemma_placeable_item(s.drop_last(), i, src);
    }
}

proof fn lemma_placeable_entry(s: Seq<ObjectEntry>, i: int, src: Seq<char>)
    requires
        0 <= i < s.len(),
        entry_hints_placeable(entries_view(s), src),
    ensures
        hints_placeable(node_view(s[i].value), src),
        value_hint_text(node_view(s[i].value)) is Some ==> end_convertible(src, view_span(node_view(s[i].value))),
    decreases s.len(),
{
    assert(entries_view(s).drop_last() =~= entries_view(s.drop_last()));
    if i < s.len() - 1 {
        assert(s.drop_last()[i] == s[i]);
        lemma_placeable_entry(s.drop_last(), i, src);
    }
}

/// The inlay hints of a document, limited to `range` when one is given;
/// references are resolved against the document and the environment
/// `env`, and `table` gives the rendering of float literals.
pub fn collect_inlay_hints(
    ast: &AstNode,
    source: &str,
    range: Option<LspRange>,
    env: &Vec<(String, String)>,
    table: &Vec<(String, String)>,
) -> (hints: Vec<TypeHint>)
    requires
        hints_placeable(node_view(*ast), source@),
    ensures
        shows_all(hints@, match range {
            Some(r) => hints_in_range(node_hints(node_view(*ast), source@, node_view(*ast), env_view(env@), table_view(table@)), r),
            None => node_hints(node_view(*ast), source@, node_view(*ast), env_view(env@), table_view(table@)),
        }),
{
    let src = chars_of(source);
    let mut hints: Vec<TypeHint> = Vec::new();
    visit_node(ast, &src, &mut hints, ast, env, table);
    let ghost vs = node_hints(node_view(*ast), source@, node_view(*ast), env_view(env@), table_view(table@));
    match range {
        None => hints,
        Some(r) => {
            let mut kept: Vec<TypeHint> = Vec::new();
            let mut i: usize = 0;
            proof {
                assert(hints_in_range(vs.take(0), r) =~= Seq::<HintView>::empty()) by {
                    assert(vs.take(0) =~= Seq::<HintView>::empty());
                }
            }
            while i < hints.len()
                invariant
                    0 <= i <= hints.len(),
                    vs == node_hints(node_view(*ast), source@, node_view(*ast), env_view(env@), table_view(table@)),
                    shows_all(hints@, vs),
                    shows_all(kept@, hints_in_range(vs.take(i as int), r)),
                decreases hints.len() - i,
            {
                proof {
                    assert(vs.take(i + 1).drop_last() =~= vs.take(i as int));
                    assert(vs.take(i + 1).last() == vs[i as int]);
                    assert(shows(hints@[0 + i], vs[i as int]));
                }
                let h = &hints[i];
                let p = h.position;
                let inside = !(p.line < r.start.line || p.line > r.end.line)
                    && !(p.line == r.start.line && p.character < r.start.character)
                    && !(p.line == r.end.line && p.character > r.end.character);
                let ghost k0 = kept@;
                if inside {
                    kept.push(TypeHint { position: h.position, label: h.label.clone(), tooltip: h.tooltip.clone() });
                }
                proof {
                    let hs = hints_in_range(vs.take(i + 1), r);
                    assert forall|k: int| 0 <= k < hs.len() implies shows(#[trigger] kept@[0 + k], hs[k]) by {
                        if k < k0.len() {
                            assert(kept@[k] == k0[k]);
                            assert(shows(k0[0 + k], hints_in_range(vs.take(i as int), r)[k]));
                        }
                    }
                }
                i += 1;
            }
            proof {
                assert(vs.take(hints.len() as int) =~= vs);
            }
            kept
        },
    }
}

/// Whether the end of `span` can be converted (see `end_convertible`).
fn end_convertible_exec(src: &Vec<char>, span: Span) -> (b: bool)
    ensures
        b == end_convertible(src@, span),
{
    let line: Vec<char> = match nth_line(src, span.end.line as usize) {
        Some(l) => chars_of(l.as_str()),
        None => Vec::new(),
    };
    proof {
        assert(line@ == line_or_empty(src@, span.end.line));
    }
    crate::lsp::utf16::byte_column_ok(&line, span.end.column) && crate::lsp::utf16::utf16_fits(&line)
}

/// Whether every hint of a document can be placed (the condition
/// `collect_inlay_hints` needs).
pub fn hints_are_placeable(ast: &AstNode, source: &str) -> (b: bool)
    ensures
        b == hints_placeable(node_view(*ast), source@),
{
    let src = chars_of(source);
    placeable_node(ast, &src)
}

fn placeable_node(node: &AstNode, src: &Vec<char>) -> (b: bool)
    ensures
        b == hints_placeable(node_view(*node), src@),
    decreases node,
{
    match node {
        AstNode::Document { children, .. } => placeable_nodes(children, src),
        AstNode::Object { entries, .. } => placeable_entries(entries, src),
        AstNode::Array { items, .. } => placeable_nodes(items, src),
        AstNode::Reference { span, .. } => end_convertible_exec(src, *span),
        _ => true,
    }
}

fn placeable_nodes(nodes: &Vec<AstNode>, src: &Vec<char>) -> (b: bool)
    ensures
        b == all_hints_placeable(nodes_view(nodes@), src@),
    decreases nodes,
{
    let mut i: usize = 0;
    while i < nodes.len()
        invariant
            0 <= i <= nodes.len(),
            all_hints_placeable(nodes_view(nodes@.take(i as int)), src@),
        decreases nodes.len() - i,
    {
        proof {
            assert(nodes@.take(i + 1) =~= nodes@.take(i as int).push(nodes@[i as int]));
            lemma_nodes_view_push(nodes@.take(i as int), nodes@[i as int]);
            assert(nodes_view(nodes@.take(i + 1)).drop_last() =~= nodes_view(nodes@.take(i as int)));
        }
        if !placeable_node(&nodes[i], src) {
            proof {
                if all_hints_placeable(nodes_view(nodes@), src@) {
                    lemma_placeable_item(nodes@, i as int, src@);
                }
            }
            return false;
        }
        i += 1;
    }
    proof {
        assert(nodes@.take(nodes.len() as int) =~= nodes@);
    }
    true
}

fn placeable_entries(entries: &Vec<ObjectEntry>, src: &Vec<char>) -> (b: bool)
    ensures
        b == entry_hints_placeable(entries_view(entries@), src@),
    decreases entries,
{
    let mut i: usize = 0;
    while i < entries.len()
        invariant
            0 <= i <= entries.len(),
            entry_hints_placeable(entries_view(entries@.take(i as int)), src@),
        decreases entries.len() - i,
    {
        proof {
            assert(entries@.take(i + 1) =~= entries@.take(i as int).push(entries@[i as int]));
            lemma_entries_view_push(entries@.take(i as int), entries@[i as int]);
            assert(entries_view(entries@.take(i + 1)).drop_last() =~= entries_view(entries@.take(i as int)));
            lemma_value_span(entries@[i as int].value);
        }
        let value = &entries[i].value;
        let hinted = hint_text(value).is_some();
        let ok = (!hinted || end_convertible_exec(src, value.span())) && placeable_node(value, src);
        if !ok {
            proof {
                if entry_hints_placeable(entries_view(entries@), src@) {
                    lemma_placeable_entry(entries@, i as int, src@);
                }
            }
            return false;
        }
        i += 1;
    }
    proof {
        assert(entries@.take(entries.len() as int) =~= entries@);
    }
    true
}

} // verus!
