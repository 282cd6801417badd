//! Document formatting: a document re-emitted with uniform indentation.
use crate::ast::node::{entries_view, lemma_entries_view_push, lemma_nodes_view_push, node_view, nodes_view, EntryView, NodeView, NumberView};
use crate::ast::{ArrayForm, AstNode, NumberValue, ObjectEntry};
use crate::parser::lexical::{quoted_scan, QuotedScan};
use crate::parser::numbers::{float_syntax, is_float_syntax};
use crate::parser::scanner::{keyword_or_identifier, TokenView};
use crate::text::{chars_of, decimal_digits, push_decimal};
use vstd::prelude::*;

verus! {

/// Formatting options.
#[derive(Debug, Clone, PartialEq, Eq, Structural)]
pub struct ToonFormattingOptions {
    /// Number of spaces per indent level
    pub indent_size: u32,
    /// Use tabs instead of spaces
    pub use_tabs: bool,
}

impl ToonFormattingOptions {
    /// The options an editor asks for: its tab size, clamped to 1..=8, as the
    /// indent size, and tabs unless it inserts spaces.
    pub fn from_editor(tab_size: u32, insert_spaces: bool) -> (o: Self)
        ensures
            o.indent_size == (if tab_size < 1 { 1 } else if tab_size > 8 { 8 } else { tab_size }),
            o.use_tabs == !insert_spaces,
    {
        let indent_size = if tab_size < 1 {
            1
        } else if tab_size > 8 {
            8
        } else {
            tab_size
        };
        ToonFormattingOptions { indent_size, use_tabs: !insert_spaces }
    }
}

impl Default for ToonFormattingOptions {
    fn default() -> (o: Self)
        ensures
            o == (ToonFormattingOptions { indent_size: 2, use_tabs: false }),
    {
        ToonFormattingOptions { indent_size: 2, use_tabs: false }
    }
}

/// `n` copies of `c`.
pub open spec fn repeat(c: char, n: nat) -> Seq<char> {
    Seq::new(n, |i: int| c)
}

/// The indentation of a level: a tab per level, or `indent_size` spaces per
/// level.
pub open spec fn indent_text(o: ToonFormattingOptions, level: nat) -> Seq<char> {
    if o.use_tabs {
        repeat('\t', level)
    } else {
        repeat(' ', level * (o.indent_size as nat))
    }
}

/// Whether `c` is `w` (a lower-case character) ignoring ASCII case.
pub open spec fn same_letter(c: char, w: char) -> bool {
    c == w || ('a' <= w && w <= 'z' && (c as u32) + 32 == (w as u32))
}

/// Whether `s` equals `w` ignoring ASCII case (`w` in lower case).
pub open spec fn equals_ignoring_case(s: Seq<char>, w: Seq<char>) -> bool {
    s.len() == w.len() && forall|i: int| 0 <= i < s.len() ==> #[trigger] same_letter(s[i], w[i])
}

/// Whether `s` is an infinity or NaN as std's `f64` parser reads them: an
/// optional sign, then `inf`, `infinity` or `nan` in any case.
pub open spec fn special_float(s: Seq<char>) -> bool {
    let b = if s.len() > 0 && (s[0] == '+' || s[0] == '-') { s.drop_first() } else { s };
    equals_ignoring_case(b, "inf"@) || equals_ignoring_case(b, "infinity"@) || equals_ignoring_case(b, "nan"@)
}

/// Whether `c` forces the formatter to quote a string holding it.
pub open spec fn forces_quotes(c: char) -> bool {
    c == ':' || c == ',' || c == '[' || c == ']' || c == '{' || c == '}' || c == '|' || c == '-' || c == '"'
        || c == '\\'
}

/// Whether the formatter quotes a string: when it is empty, holds one of
/// `: , [ ] { } | - " \`, has a leading or trailing space, is a keyword, or
/// is a number std's `f64` parser accepts.
pub open spec fn format_needs_quotes(s: Seq<char>) -> bool {
    ||| s.len() == 0
    ||| (exists|i: int| 0 <= i < s.len() && #[trigger] forces_quotes(s[i]))
    ||| s[0] == ' '
    ||| s.last() == ' '
    ||| s == "true"@
    ||| s == "false"@
    ||| s == "null"@
    ||| float_syntax(s)
    ||| special_float(s)
}

/// A string with backslashes and quotes escaped.
pub open spec fn escape_quoted(s: Seq<char>) -> Seq<char>
    decreases s.len(),
{
    if s.len() == 0 {
        Seq::empty()
    } else {
        escape_quoted(s.drop_last()) + if s.last() == '\\' {
            seq!['\\', '\\']
        } else if s.last() == '"' {
            seq!['\\', '"']
        } else {
            seq![s.last()]
        }
    }
}

/// The rendering of a float literal from the table of renderings (its first
/// pair with that literal), or the literal itself when the table has none.
pub open spec fn float_rendering(table: Seq<(Seq<char>, Seq<char>)>, t: Seq<char>) -> Seq<char>
    decreases table.len(),
{
    if table.len() == 0 {
        t
    } else if table[0].0 == t {
        table[0].1
    } else {
        float_rendering(table.drop_first(), t)
    }
}

/// The text of a number.
pub open spec fn number_text(v: NumberView, table: Seq<(Seq<char>, Seq<char>)>) -> Seq<char> {
    match v {
        NumberView::PosInt(n) => decimal_digits(n as nat),
        NumberView::NegInt(n) => if n < 0 { seq!['-'] + decimal_digits((0 - n) as nat) } else { decimal_digits(n as nat) },
        NumberView::Float(t) => float_rendering(table, t),
    }
}

/// The formatted text of a node at indentation level `level`.
pub open spec fn format_text(n: NodeView, level: nat, o: ToonFormattingOptions, table: Seq<(Seq<char>, Seq<char>)>) -> Seq<char>
    decreases n,
{
    match n {
        NodeView::Document { children, .. } => format_nodes(children, level, o, table),
        NodeView::Object { entries, .. } => format_entries(entries, level, o, table),
        NodeView::Array { items, form, .. } => match form {
            ArrayForm::Inline => seq!['['] + format_inline(items, level, o, table) + seq![']'],
            ArrayForm::Expanded => format_dash_items(items, level, o, table),
            ArrayForm::Tabular => format_rows(items, level, o, table),
        },
        NodeView::Str { value, .. } => if format_needs_quotes(value) {
            seq!['"'] + escape_quoted(value) + seq!['"']
        } else {
            value
        },
        NodeView::Number { value, .. } => number_text(value, table),
        NodeView::Bool { value, .. } => if value { "true"@ } else { "false"@ },
        NodeView::Null { .. } => "null"@,
        NodeView::Reference { path, .. } => "${"@ + path + "}"@,
    }
}

pub open spec fn format_nodes(s: Seq<NodeView>, level: nat, o: ToonFormattingOptions, table: Seq<(Seq<char>, Seq<char>)>) -> Seq<char>
    decreases s,
{
    if s.len() == 0 {
        Seq::empty()
    } else {
        format_nodes(s.drop_last(), level, o, table) + format_text(s.last(), level, o, table)
    }
}

/// `indent key: value`: an object or an expanded or tabular array goes on
/// the following lines one level deeper; any other value stays on the line.
pub open spec fn format_entry(e: EntryView, level: nat, o: ToonFormattingOptions, table: Seq<(Seq<char>, Seq<char>)>) -> Seq<char>
    decreases e,
{
    indent_text(o, level) + e.key + ": "@ + match e.value {
        NodeView::Object { .. } => seq!['\n'] + format_text(e.value, level + 1, o, table),
        NodeView::Array { form, .. } => if form == ArrayForm::Inline {
            format_text(e.value, level, o, table) + seq!['\n']
        } else {
            seq!['\n'] + format_text(e.value, level + 1, o, table)
        },
        _ => format_text(e.value, level, o, table) + seq!['\n'],
    }
}

pub open spec fn format_entries(s: Seq<EntryView>, level: nat, o: ToonFormattingOptions, table: Seq<(Seq<char>, Seq<char>)>) -> Seq<char>
    decreases s,
{
    if s.len() == 0 {
        Seq::empty()
    } else {
        format_entries(s.drop_last(), level, o, table) + format_entry(s.last(), level, o, table)
    }
}

/// Inline items, separated by `, `.
pub open spec fn format_inline(s: Seq<NodeView>, level: nat, o: ToonFormattingOptions, table: Seq<(Seq<char>, Seq<char>)>) -> Seq<char>
    decreases s,
{
    if s.len() == 0 {
        Seq::empty()
    } else if s.len() == 1 {
        format_text(s[0], level, o, table)
    } else {
        format_inline(s.drop_last(), level, o, table) + ", "@ + format_text(s.last(), level, o, table)
    }
}

/// Expanded items: `indent- item` lines.
pub open spec fn format_dash_items(s: Seq<NodeView>, level: nat, o: ToonFormattingOptions, table: Seq<(Seq<char>, Seq<char>)>) -> Seq<char>
    decreases s,
{
    if s.len() == 0 {
        Seq::empty()
    } else {
        format_dash_items(s.drop_last(), level, o, table) + indent_text(o, level) + "- "@
            + format_text(s.last(), level, o, table) + seq!['\n']
    }
}

/// Tabular rows: `indent| v1 | v2 |` lines, one per object row.
pub open spec fn format_rows(s: Seq<NodeView>, level: nat, o: ToonFormattingOptions, table: Seq<(Seq<char>, Seq<char>)>) -> Seq<char>
    decreases s,
{
    if s.len() == 0 {
        Seq::empty()
    } else {
        format_rows(s.drop_last(), level, o, table) + match s.last() {
            NodeView::Object { entries, .. } => indent_text(o, level) + "| "@ + format_cells(entries, level, o, table)
                + " |"@ + seq!['\n'],
            _ => Seq::empty(),
        }
    }
}

/// Row cells, separated by ` | `.
pub open spec fn format_cells(s: Seq<EntryView>, level: nat, o: ToonFormattingOptions, table: Seq<(Seq<char>, Seq<char>)>) -> Seq<char>
    decreases s,
{
    if s.len() == 0 {
        Seq::empty()
    } else if s.len() == 1 {
        format_text(s[0].value, level, o, table)
    } else {
        format_cells(s.drop_last(), level, o, table) + " | "@ + format_text(s.last().value, level, o, table)
    }
}

/// The number of levels the formatter indents into below a node.
pub open spec fn nesting(n: NodeView) -> nat
    decreases n,
{
    match n {
        NodeView::Document { children, .. } => nodes_nesting(children),
        NodeView::Object { entries, .. } => entries_nesting(entries),
        NodeView::Array { items, .. } => nodes_nesting(items),
        _ => 0,
    }
}

pub open spec fn nodes_nesting(s: Seq<NodeView>) -> nat
    decreases s,
{
    if s.len() == 0 {
        0
    } else {
        let a = nodes_nesting(s.drop_last());
        let b = nesting(s.last());
        if a >= b { a } else { b }
    }
}

pub open spec fn entries_nesting(s: Seq<EntryView>) -> nat
    decreases s,
{
    if s.len() == 0 {
        0
    } else {
        let a = entries_nesting(s.drop_last());
        let b = 1 + nesting(s.last().value);
        if a >= b { a } else { b }
    }
}

/// The model of a table of float renderings.
pub open spec fn table_view(t: Seq<(String, String)>) -> Seq<(Seq<char>, Seq<char>)> {
    t.map_values(|p: (String, String)| (p.0@, p.1@))
}

/// Whether the levels a node reaches from `level` can be indented.
pub open spec fn fits(n: NodeView, level: nat, o: ToonFormattingOptions) -> bool {
    &&& level + nesting(n) <= u32::MAX
    &&& (level + nesting(n)) * (o.indent_size as nat) <= u32::MAX
}

fn push_indent(out: &mut String, o: &ToonFormattingOptions, level: u32)
    requires
        (level as nat) * (o.indent_size as nat) <= u32::MAX,
    ensures
        final(out)@ == old(out)@ + indent_text(*o, level as nat),
{
    let n: u32 = if o.use_tabs { level } else { level * o.indent_size };
    let c = if o.use_tabs { '\t' } else { ' ' };
    let mut i: u32 = 0;
    while i < n
        invariant
            0 <= i <= n,
            out@ == old(out)@ + repeat(c, i as nat),
        decreases n - i,
    {
        out.push(c);
        proof {
            assert(repeat(c, (i + 1) as nat) =~= repeat(c, i as nat).push(c));
        }
        i += 1;
    }
}

fn equals_ignoring_case_exec(v: &Vec<char>, from: usize, w: &str) -> (b: bool)
    requires
        from <= v.len(),
    ensures
        b == equals_ignoring_case(v@.subrange(from as int, v.len() as int), w@),
{
    let wv = chars_of(w);
    let ghost s = v@.subrange(from as int, v.len() as int);
    if v.len() - from != wv.len() {
        return false;
    }
    let mut i: usize = 0;
    while i < wv.len()
        invariant
            0 <= i <= wv.len(),
            from <= v.len(),
            v.len() - from == wv.len(),
            s == v@.subrange(from as int, v.len() as int),
            wv@ == w@,
            forall|k: int| 0 <= k < i ==> #[trigger] same_letter(s[k], wv@[k]),
        decreases wv.len() - i,
    {
        let c = v[from + i];
        let w = wv[i];
        proof {
            assert(s[i as int] == c);
        }
        if !(c == w || ('a' <= w && w <= 'z' && (c as u32) == (w as u32) - 32)) {
            proof {
                assert(!same_letter(s[i as int], wv@[i as int]));
            }
            return false;
        }
        i += 1;
    }
    true
}

fn special_float_exec(v: &Vec<char>) -> (b: bool)
    ensures
        b == special_float(v@),
{
    let from: usize = if v.len() > 0 && (v[0] == '+' || v[0] == '-') { 1 } else { 0 };
    proof {
        if from == 1 {
            assert(v@.drop_first() =~= v@.subrange(1, v.len() as int));
        } else {
            assert(v@ =~= v@.subrange(0, v.len() as int));
        }
    }
    equals_ignoring_case_exec(v, from, "inf") || equals_ignoring_case_exec(v, from, "infinity")
        || equals_ignoring_case_exec(v, from, "nan")
}

fn literal_equals(v: &Vec<char>, w: &str) -> (b: bool)
    ensures
        b == (v@ == w@),
{
    let wv = chars_of(w);
    proof {
        assert(v@.subrange(0, v.len() as int) =~= v@);
    }
    crate::text::range_equals(v, 0, v.len(), &wv)
}

/// Whether the formatter quotes a string.
fn needs_quotes(s: &String) -> (b: bool)
    ensures
        b == format_needs_quotes(s@),
{
    let v = chars_of(s.as_str());
    if v.len() == 0 {
        return true;
    }
    let mut i: usize = 0;
    while i < v.len()
        invariant
            0 <= i <= v.len(),
            v@ == s@,
            forall|k: int| 0 <= k < i ==> !forces_quotes(#[trigger] v@[k]),
        decreases v.len() - i,
    {
        let c = v[i];
        if c == ':' || c == ',' || c == '[' || c == ']' || c == '{' || c == '}' || c == '|' || c == '-' || c == '"'
            || c == '\\' {
            proof {
                assert(forces_quotes(v@[i as int]));
            }
            return true;
        }
        i += 1;
    }
    v[0] == ' ' || v[v.len() - 1] == ' ' || literal_equals(&v, "true") || literal_equals(&v, "false")
        || literal_equals(&v, "null") || is_float_syntax(&v) || special_float_exec(&v)
}

fn push_escaped(out: &mut String, s: &String)
    ensures
        final(out)@ == old(out)@ + escape_quoted(s@),
{
    let v = chars_of(s.as_str());
    let mut i: usize = 0;
    while i < v.len()
        invariant
            0 <= i <= v.len(),
            v@ == s@,
            out@ == old(out)@ + escape_quoted(v@.take(i as int)),
        decreases v.len() - i,
    {
        let ghost before = out@;
        let c = v[i];
        if c == '\\' {
            out.push('\\');
            out.push('\\');
        } else if c == '"' {
            out.push('\\');
            out.push('"');
        } else {
            out.push(c);
        }
        proof {
            assert(v@.take(i + 1).drop_last() =~= v@.take(i as int));
            assert(out@ =~= old(out)@ + escape_quoted(v@.take(i + 1)));
        }
        i += 1;
    }
    proof {
        assert(v@.take(v.len() as int) =~= v@);
    }
}

fn push_float(out: &mut String, t: &String, table: &Vec<(String, String)>)
    ensures
        final(out)@ == old(out)@ + float_rendering(table_view(table@), t@),
{
    let mut i: usize = 0;
    proof {
        assert(table_view(table@).skip(0) =~= table_view(table@));
    }
    while i < table.len()
        invariant
            0 <= i <= table.len(),
            out@ == old(out)@,
            float_rendering(table_view(table@), t@) == float_rendering(table_view(table@).skip(i as int), t@),
        decreases table.len() - i,
    {
        proof {
            assert(table_view(table@).skip(i as int).drop_first() =~= table_view(table@).skip(i + 1));
            assert(table_view(table@).skip(i as int)[0] == (table@[i as int].0@, table@[i as int].1@));
        }
        if table[i].0 == *t {
            out.append(table[i].1.as_str());
            return;
        }
        i += 1;
    }
    proof {
        assert(table_view(table@).skip(table.len() as int) =~= Seq::<(Seq<char>, Seq<char>)>::empty());
    }
    out.append(t.as_str());
}

pub(crate) fn push_number(out: &mut String, v: &NumberValue, table: &Vec<(String, String)>)
    ensures
        final(out)@ == old(out)@ + number_text(v@, table_view(table@)),
{
    match v {
        NumberValue::PosInt(n) => push_decimal(out, *n),
        NumberValue::NegInt(n) => {
            if *n < 0 {
                out.push('-');
                let m: u64 = if *n == i64::MIN { 0x8000_0000_0000_0000u64 } else { (-*n) as u64 };
                push_decimal(out, m);
            } else {
                push_decimal(out, *n as u64);
            }
        },
        NumberValue::Float(t) => push_float(out, t, table),
    }
}

fn format_node(node: &AstNode, out: &mut String, level: u32, o: &ToonFormattingOptions, table: &Vec<(String, String)>)
    requires
        fits(node_view(*node), level as nat, *o),
    ensures
        final(out)@ == old(out)@ + format_text(node_view(*node), level as nat, *o, table_view(table@)),
    decreases node,
{
    let ghost before = out@;
    match node {
        AstNode::Document { children, .. } => format_nodes_exec(children, out, level, o, table),
        AstNode::Object { entries, .. } => format_entries_exec(entries, out, level, o, table),
        AstNode::Array { items, form, .. } => match form {
            ArrayForm::Inline => {
                out.push('[');
                format_inline_exec(items, out, level, o, table);
                out.push(']');
                proof {
                    assert(out@ =~= before + format_text(node_view(*node), level as nat, *o, table_view(table@)));
                }
            },
            ArrayForm::Expanded => format_dash_exec(items, out, level, o, table),
            ArrayForm::Tabular => format_rows_exec(items, out, level, o, table),
        },
        AstNode::String { value, .. } => {
            if needs_quotes(value) {
                out.push('"');
                push_escaped(out, value);
                out.push('"');
            } else {
                out.append(value.as_str());
            }
            proof {
                assert(out@ =~= before + format_text(node_view(*node), level as nat, *o, table_view(table@)));
            }
        },
        AstNode::Number { value, .. } => push_number(out, value, table),
        AstNode::Bool { value, .. } => {
            out.append(if *value { "true" } else { "false" });
        },
        AstNode::Null { .. } => {
            out.append("null");
        },
        AstNode::Reference { path, .. } => {
            out.append("${");
            out.append(path.as_str());
            out.append("}");
        },
    }
}

proof fn lemma_nesting_item(s: Seq<AstNode>, i: int)
    requires
        0 <= i < s.len(),
    ensures
        nesting(node_view(s[i])) <= nodes_nesting(nodes_view(s)),
    decreases s.len(),
{
    assert(nodes_view(s).drop_last() =~= nodes_view(s.drop_last()));
    if i < s.len() - 1 {
        assert(s.drop_last()[i] == s[i]);
        lemma_nesting_item(s.drop_last(), i);
    }
}

proof fn lemma_nesting_entry(s: Seq<ObjectEntry>, i: int)
    requires
        0 <= i < s.len(),
    ensures
        1 + nesting(node_view(s[i].value)) <= entries_nesting(entries_view(s)),
        nesting(node_view(s[i].value)) <= entries_nesting(entries_view(s)),
    decreases s.len(),
{
    assert(entries_view(s).drop_last() =~= entries_view(s.drop_last()));
    if i < s.len() - 1 {
        assert(s.drop_last()[i] == s[i]);
        lemma_nesting_entry(s.drop_last(), i);
    }
}

proof fn lemma_step_nodes(s: Seq<AstNode>, i: int)
    requires
        0 <= i < s.len(),
    ensures
        nodes_view(s.take(i + 1)) == nodes_view(s.take(i)).push(node_view(s[i])),
        nodes_view(s.take(i + 1)).drop_last() == nodes_view(s.take(i)),
        nodes_view(s.take(i + 1)).last() == node_view(s[i]),
        nodes_view(s.take(i + 1)).len() == i + 1,
{
    assert(s.take(i + 1) =~= s.take(i).push(s[i]));
    lemma_nodes_view_push(s.take(i), s[i]);
    crate::ast::node::lemma_nodes_view_len(s.take(i));
    assert(nodes_view(s.take(i + 1)).drop_last() =~= nodes_view(s.take(i)));
}

proof fn lemma_step_entries(s: Seq<ObjectEntry>, i: int)
    requires
        0 <= i < s.len(),
    ensures
        entries_view(s.take(i + 1)) == entries_view(s.take(i)).push(crate::ast::node::entry_view(s[i])),
        entries_view(s.take(i + 1)).drop_last() == entries_view(s.take(i)),
        entries_view(s.take(i + 1)).last() == crate::ast::node::entry_view(s[i]),
        entries_view(s.take(i + 1)).len() == i + 1,
{
    assert(s.take(i + 1) =~= s.take(i).push(s[i]));
    lemma_entries_view_push(s.take(i), s[i]);
    crate::ast::node::lemma_entries_view_len(s.take(i));
    assert(entries_view(s.take(i + 1)).drop_last() =~= entries_view(s.take(i)));
}

fn format_nodes_exec(nodes: &Vec<AstNode>, out: &mut String, level: u32, o: &ToonFormattingOptions, table: &Vec<(String, String)>)
    requires
        level + nodes_nesting(nodes_view(nodes@)) <= u32::MAX,
        (level + nodes_nesting(nodes_view(nodes@))) * (o.indent_size as nat) <= u32::MAX,
    ensures
        final(out)@ == old(out)@ + format_nodes(nodes_view(nodes@), level as nat, *o, table_view(table@)),
    decreases nodes,
{
    let mut i: usize = 0;
    proof {
        assert(nodes_view(nodes@.take(0)) =~= Seq::<NodeView>::empty());
        assert(out@ =~= old(out)@ + format_nodes(nodes_view(nodes@.take(0)), level as nat, *o, table_view(table@)));
    }
    while i < nodes.len()
        invariant
            0 <= i <= nodes.len(),
            level + nodes_nesting(nodes_view(nodes@)) <= u32::MAX,
            (level + nodes_nesting(nodes_view(nodes@))) * (o.indent_size as nat) <= u32::MAX,
            out@ == old(out)@ + format_nodes(nodes_view(nodes@.take(i as int)), level as nat, *o, table_view(table@)),
        decreases nodes.len() - i,
    {
        proof {
            lemma_step_nodes(nodes@, i as int);
            lemma_nesting_item(nodes@, i as int);
            vstd::arithmetic::mul::lemma_mul_inequality((level + nesting(node_view(nodes@[i as int]))) as int,
                (level + nodes_nesting(nodes_view(nodes@))) as int, o.indent_size as int);
        }
        format_node(&nodes[i], out, level, o, table);
        proof {
            assert(out@ =~= old(out)@ + format_nodes(nodes_view(nodes@.take(i + 1)), level as nat, *o, table_view(table@)));
        }
        i += 1;
    }
    proof {
        assert(nodes@.take(nodes.len() as int) =~= nodes@);
    }
}

fn format_entries_exec(entries: &Vec<ObjectEntry>, out: &mut String, level: u32, o: &ToonFormattingOptions, table: &Vec<(String, String)>)
    requires
        level + entries_nesting(entries_view(entries@)) <= u32::MAX,
        (level + entries_nesting(entries_view(entries@))) * (o.indent_size as nat) <= u32::MAX,
    ensures
        final(out)@ == old(out)@ + format_entries(entries_view(entries@), level as nat, *o, table_view(table@)),
    decreases entries,
{
    let mut i: usize = 0;
    proof {
        assert(entries_view(entries@.take(0)) =~= Seq::<EntryView>::empty());
        assert(out@ =~= old(out)@ + format_entries(entries_view(entries@.take(0)), level as nat, *o, table_view(table@)));
    }
    while i < entries.len()
        invariant
            0 <= i <= entries.len(),
            level + entries_nesting(entries_view(entries@)) <= u32::MAX,
            (level + entries_nesting(entries_view(entries@))) * (o.indent_size as nat) <= u32::MAX,
            out@ == old(out)@ + format_entries(entries_view(entries@.take(i as int)), level as nat, *o, table_view(table@)),
        decreases entries.len() - i,
    {
        proof {
            lemma_step_entries(entries@, i as int);
            lemma_nesting_entry(entries@, i as int);
        }
        let entry = &entries[i];
        let ghost before = out@;
        proof {
            vstd::arithmetic::mul::lemma_mul_inequality(level as int,
                (level + entries_nesting(entries_view(entries@))) as int, o.indent_size as int);
            vstd::arithmetic::mul::lemma_mul_inequality((level + 1 + nesting(node_view(entry.value))) as int,
                (level + entries_nesting(entries_view(entries@))) as int, o.indent_size as int);
            vstd::arithmetic::mul::lemma_mul_inequality((level + nesting(node_view(entry.value))) as int,
                (level + entries_nesting(entries_view(entries@))) as int, o.indent_size as int);
        }
        push_indent(out, o, level);
        out.append(entry.key.as_str());
        out.append(": ");
        match &entry.value {
            AstNode::Object { .. } => {
                out.push('\n');
                format_node(&entry.value, out, level + 1, o, table);
            },
            AstNode::Array { form, .. } => {
                if *form == ArrayForm::Inline {
                    format_node(&entry.value, out, level, o, table);
                    out.push('\n');
                } else {
                    out.push('\n');
                    format_node(&entry.value, out, level + 1, o, table);
                }
            },
            _ => {
                format_node(&entry.value, out, level, o, table);
                out.push('\n');
            },
        }
        proof {
            assert(out@ =~= before + format_entry(crate::ast::node::entry_view(*entry), level as nat, *o, table_view(table@)));
            assert(out@ =~= old(out)@ + format_entries(entries_view(entries@.take(i + 1)), level as nat, *o, table_view(table@)));
        }
        i += 1;
    }
    proof {
        assert(entries@.take(entries.len() as int) =~= entries@);
    }
}

fn format_inline_exec(items: &Vec<AstNode>, out: &mut String, level: u32, o: &ToonFormattingOptions, table: &Vec<(String, String)>)
    requires
        level + nodes_nesting(nodes_view(items@)) <= u32::MAX,
        (level + nodes_nesting(nodes_view(items@))) * (o.indent_size as nat) <= u32::MAX,
    ensures
        final(out)@ == old(out)@ + format_inline(nodes_view(items@), level as nat, *o, table_view(table@)),
    decreases items,
{
    let mut i: usize = 0;
    proof {
        assert(nodes_view(items@.take(0)) =~= Seq::<NodeView>::empty());
        assert(out@ =~= old(out)@ + format_inline(nodes_view(items@.take(0)), level as nat, *o, table_view(table@)));
    }
    while i < items.len()
        invariant
            0 <= i <= items.len(),
            level + nodes_nesting(nodes_view(items@)) <= u32::MAX,
            (level + nodes_nesting(nodes_view(items@))) * (o.indent_size as nat) <= u32::MAX,
            out@ == old(out)@ + format_inline(nodes_view(items@.take(i as int)), level as nat, *o, table_view(table@)),
        decreases items.len() - i,
    {
        proof {
            lemma_step_nodes(items@, i as int);
            lemma_nesting_item(items@, i as int);
            vstd::arithmetic::mul::lemma_mul_inequality((level + nesting(node_view(items@[i as int]))) as int,
                (level + nodes_nesting(nodes_view(items@))) as int, o.indent_size as int);
        }
        let ghost before = out@;
        if i > 0 {
            out.append(", ");
        }
        format_node(&items[i], out, level, o, table);
        proof {
            if i == 0 {
                assert(nodes_view(items@.take(1)) =~= seq![node_view(items@[0])]);
            }
            assert(out@ =~= old(out)@ + format_inline(nodes_view(items@.take(i + 1)), level as nat, *o, table_view(table@)));
        }
        i += 1;
    }
    proof {
        assert(items@.take(items.len() as int) =~= items@);
    }
}

fn format_dash_exec(items: &Vec<AstNode>, out: &mut String, level: u32, o: &ToonFormattingOptions, table: &Vec<(String, String)>)
    requires
        level + nodes_nesting(nodes_view(items@)) <= u32::MAX,
        (level + nodes_nesting(nodes_view(items@))) * (o.indent_size as nat) <= u32::MAX,
    ensures
        final(out)@ == old(out)@ + format_dash_items(nodes_view(items@), level as nat, *o, table_view(table@)),
    decreases items,
{
    let mut i: usize = 0;
    proof {
        assert(nodes_view(items@.take(0)) =~= Seq::<NodeView>::empty());
        assert(out@ =~= old(out)@ + format_dash_items(nodes_view(items@.take(0)), level as nat, *o, table_view(table@)));
    }
    while i < items.len()
        invariant
            0 <= i <= items.len(),
            level + nodes_nesting(nodes_view(items@)) <= u32::MAX,
            (level + nodes_nesting(nodes_view(items@))) * (o.indent_size as nat) <= u32::MAX,
            out@ == old(out)@ + format_dash_items(nodes_view(items@.take(i as int)), level as nat, *o, table_view(table@)),
        decreases items.len() - i,
    {
        proof {
            lemma_step_nodes(items@, i as int);
            lemma_nesting_item(items@, i as int);
            vstd::arithmetic::mul::lemma_mul_inequality((level + nesting(node_view(items@[i as int]))) as int,
                (level + nodes_nesting(nodes_view(items@))) as int, o.indent_size as int);
            vstd::arithmetic::mul::lemma_mul_inequality(level as int,
                (level + nodes_nesting(nodes_view(items@))) as int, o.indent_size as int);
        }
        let ghost before = out@;
        push_indent(out, o, level);
        out.append("- ");
        format_node(&items[i], out, level, o, table);
        out.push('\n');
        proof {
            assert(out@ =~= old(out)@ + format_dash_items(nodes_view(items@.take(i + 1)), level as nat, *o, table_view(table@)));
        }
        i += 1;
    }
    proof {
        assert(items@.take(items.len() as int) =~= items@);
    }
}

fn format_rows_exec(items: &Vec<AstNode>, out: &mut String, level: u32, o: &ToonFormattingOptions, table: &Vec<(String, String)>)
    requires
        level + nodes_nesting(nodes_view(items@)) <= u32::MAX,
        (level + nodes_nesting(nodes_view(items@))) * (o.indent_size as nat) <= u32::MAX,
    ensures
        final(out)@ == old(out)@ + format_rows(nodes_view(items@), level as nat, *o, table_view(table@)),
    decreases items,
{
    let mut i: usize = 0;
    proof {
        assert(nodes_view(items@.take(0)) =~= Seq::<NodeView>::empty());
        assert(out@ =~= old(out)@ + format_rows(nodes_view(items@.take(0)), level as nat, *o, table_view(table@)));
    }
    while i < items.len()
        invariant
            0 <= i <= items.len(),
            level + nodes_nesting(nodes_view(items@)) <= u32::MAX,
            (level + nodes_nesting(nodes_view(items@))) * (o.indent_size as nat) <= u32::MAX,
            out@ == old(out)@ + format_rows(nodes_view(items@.take(i as int)), level as nat, *o, table_view(table@)),
        decreases items.len() - i,
    {
        proof {
            lemma_step_nodes(items@, i as int);
            lemma_nesting_item(items@, i as int);
            vstd::arithmetic::mul::lemma_mul_inequality(level as int,
                (level + nodes_nesting(nodes_view(items@))) as int, o.indent_size as int);
        }
        let ghost before = out@;
        match &items[i] {
            AstNode::Object { entries, .. } => {
                proof {
                    assert(nesting(node_view(items@[i as int])) == entries_nesting(entries_view(entries@)));
                    vstd::arithmetic::mul::lemma_mul_inequality((level + entries_nesting(entries_view(entries@))) as int,
                        (level + nodes_nesting(nodes_view(items@))) as int, o.indent_size as int);
                }
                push_indent(out, o, level);
                out.append("| ");
                format_cells_exec(entries, out, level, o, table);
                out.append(" |");
                out.push('\n');
            },
            _ => {},
        }
        proof {
            assert(out@ =~= old(out)@ + format_rows(nodes_view(items@.take(i + 1)), level as nat, *o, table_view(table@)));
        }
        i += 1;
    }
    proof {
        assert(items@.take(items.len() as int) =~= items@);
    }
}

fn format_cells_exec(entries: &Vec<ObjectEntry>, out: &mut String, level: u32, o: &ToonFormattingOptions, table: &Vec<(String, String)>)
    requires
        level + entries_nesting(entries_view(entries@)) <= u32::MAX,
        (level + entries_nesting(entries_view(entries@))) * (o.indent_size as nat) <= u32::MAX,
    ensures
        final(out)@ == old(out)@ + format_cells(entries_view(entries@), level as nat, *o, table_view(table@)),
    decreases entries,
{
    let mut i: usize = 0;
    proof {
        assert(entries_view(entries@.take(0)) =~= Seq::<EntryView>::empty());
        assert(out@ =~= old(out)@ + format_cells(entries_view(entries@.take(0)), level as nat, *o, table_view(table@)));
    }
    while i < entries.len()
        invariant
            0 <= i <= entries.len(),
            level + entries_nesting(entries_view(entries@)) <= u32::MAX,
            (level + entries_nesting(entries_view(entries@))) * (o.indent_size as nat) <= u32::MAX,
            out@ == old(out)@ + format_cells(entries_view(entries@.take(i as int)), level as nat, *o, table_view(table@)),
        decreases entries.len() - i,
    {
        proof {
            lemma_step_entries(entries@, i as int);
            lemma_nesting_entry(entries@, i as int);
            vstd::arithmetic::mul::lemma_mul_inequality((level + nesting(node_view(entries@[i as int].value))) as int,
                (level + entries_nesting(entries_view(entries@))) as int, o.indent_size as int);
        }
        let ghost before = out@;
        if i > 0 {
            out.append(" | ");
        }
        format_node(&entries[i].value, out, level, o, table);
        proof {
            if i == 0 {
                assert(entries_view(entries@.take(1)) =~= seq![crate::ast::node::entry_view(entries@[0])]);
            }
            assert(out@ =~= old(out)@ + format_cells(entries_view(entries@.take(i + 1)), level as nat, *o, table_view(table@)));
        }
        i += 1;
    }
    proof {
        assert(entries@.take(entries.len() as int) =~= entries@);
    }
}

/// The formatted document: the formatted text, ending with a line feed.
pub open spec fn formatted_document(n: NodeView, o: ToonFormattingOptions, table: Seq<(Seq<char>, Seq<char>)>) -> Seq<char> {
    let t = format_text(n, 0, o, table);
    if t.len() > 0 && t.last() == '\n' {
        t
    } else {
        t.push('\n')
    }
}

/// Format a document. Float literals are written as `float_renderings`
/// gives them (the first pair with the literal), or as written when it has
/// none.
pub fn format_document(ast: &AstNode, options: ToonFormattingOptions, float_renderings: &Vec<(String, String)>) -> (r: Option<String>)
    requires
        fits(node_view(*ast), 0, options),
    ensures
        r matches Some(out) && out@ == formatted_document(node_view(*ast), options, table_view(float_renderings@)),
{
    let mut out = String::new();
    format_node(ast, &mut out, 0, &options, float_renderings);
    let v = chars_of(out.as_str());
    if !(v.len() > 0 && v[v.len() - 1] == '\n') {
        out.push('\n');
    }
    Some(out)
}

/// The float literals of a node, in document order.
pub open spec fn node_floats(n: NodeView) -> Seq<Seq<char>>
    decreases n,
{
    match n {
        NodeView::Document { children, .. } => nodes_floats(children),
        NodeView::Object { entries, .. } => entries_floats(entries),
        NodeView::Array { items, .. } => nodes_floats(items),
        NodeView::Number { value: NumberView::Float(t), .. } => seq![t],
        _ => Seq::empty(),
    }
}

pub open spec fn nodes_floats(s: Seq<NodeView>) -> Seq<Seq<char>>
    decreases s,
{
    if s.len() == 0 {
        Seq::empty()
    } else {
        nodes_floats(s.drop_last()) + node_floats(s.last())
    }
}

pub open spec fn entries_floats(s: Seq<EntryView>) -> Seq<Seq<char>>
    decreases s,
{
    if s.len() == 0 {
        Seq::empty()
    } else {
        entries_floats(s.drop_last()) + node_floats(s.last().value)
    }
}

/// The models of a vector of strings.
pub open spec fn texts_view(v: Seq<String>) -> Seq<Seq<char>> {
    v.map_values(|s: String| s@)
}

fn collect_floats(node: &AstNode, out: &mut Vec<String>)
    ensures
        texts_view(final(out)@) == texts_view(old(out)@) + node_floats(node_view(*node)),
    decreases node,
{
    match node {
        AstNode::Document { children, .. } => collect_floats_in(children, out),
        AstNode::Object { entries, .. } => collect_floats_entries(entries, out),
        AstNode::Array { items, .. } => collect_floats_in(items, out),
        AstNode::Number { value: NumberValue::Float(t), .. } => {
            out.push(t.clone());
            proof {
                assert(texts_view(out@) =~= texts_view(old(out)@) + node_floats(node_view(*node)));
            }
        },
        _ => {
            proof {
                assert(texts_view(out@) =~= texts_view(old(out)@) + node_floats(node_view(*node)));
            }
        },
    }
}

fn collect_floats_entries(entries: &Vec<ObjectEntry>, out: &mut Vec<String>)
    ensures
        texts_view(final(out)@) == texts_view(old(out)@) + entries_floats(entries_view(entries@)),
    decreases entries,
{
    let mut i: usize = 0;
    proof {
        assert(entries_view(entries@.take(0)) =~= Seq::<EntryView>::empty());
        assert(texts_view(out@) =~= texts_view(old(out)@) + entries_floats(entries_view(entries@.take(0))));
    }
    while i < entries.len()
        invariant
            0 <= i <= entries.len(),
            texts_view(out@) == texts_view(old(out)@) + entries_floats(entries_view(entries@.take(i as int))),
        decreases entries.len() - i,
    {
        proof {
            lemma_step_entries(entries@, i as int);
        }
        collect_floats(&entries[i].value, out);
        proof {
            assert(texts_view(out@) =~= texts_view(old(out)@) + entries_floats(entries_view(entries@.take(i + 1))));
        }
        i += 1;
    }
    proof {
        assert(entries@.take(entries.len() as int) =~= entries@);
    }
}

fn collect_floats_in(nodes: &Vec<AstNode>, out: &mut Vec<String>)
    ensures
        texts_view(final(out)@) == texts_view(old(out)@) + nodes_floats(nodes_view(nodes@)),
    decreases nodes,
{
    let mut i: usize = 0;
    proof {
        assert(nodes_view(nodes@.take(0)) =~= Seq::<NodeView>::empty());
        assert(texts_view(out@) =~= texts_view(old(out)@) + nodes_floats(nodes_view(nodes@.take(0))));
    }
    while i < nodes.len()
        invariant
            0 <= i <= nodes.len(),
            texts_view(out@) == texts_view(old(out)@) + nodes_floats(nodes_view(nodes@.take(i as int))),
        decreases nodes.len() - i,
    {
        proof {
            lemma_step_nodes(nodes@, i as int);
        }
        collect_floats(&nodes[i], out);
        proof {
            assert(texts_view(out@) =~= texts_view(old(out)@) + nodes_floats(nodes_view(nodes@.take(i + 1))));
        }
        i += 1;
    }
    proof {
        assert(nodes@.take(nodes.len() as int) =~= nodes@);
    }
}

/// The float literals of a document, in document order: what a table of
/// float renderings for `format_document` needs to cover.
pub fn float_literals(ast: &AstNode) -> (r: Vec<String>)
    ensures
        texts_view(r@) == node_floats(node_view(*ast)),
{
    let mut out: Vec<String> = Vec::new();
    collect_floats(ast, &mut out);
    proof {
        assert(texts_view(out@) =~= Seq::<Seq<char>>::empty() + node_floats(node_view(*ast)));
    }
    out
}

/// Whether the objects of a node nest at most `limit` deep.
fn nesting_within(node: &AstNode, limit: u32) -> (b: bool)
    ensures
        b == (nesting(node_view(*node)) <= limit),
    decreases node,
{
    match node {
        AstNode::Document { children, .. } => nodes_nesting_within(children, limit),
        AstNode::Object { entries, .. } => entries_nesting_within(entries, limit),
        AstNode::Array { items, .. } => nodes_nesting_within(items, limit),
        _ => true,
    }
}

fn nodes_nesting_within(nodes: &Vec<AstNode>, limit: u32) -> (b: bool)
    ensures
        b == (nodes_nesting(nodes_view(nodes@)) <= limit),
    decreases nodes,
{
    let mut i: usize = 0;
    while i < nodes.len()
        invariant
            0 <= i <= nodes.len(),
            nodes_nesting(nodes_view(nodes@.take(i as int))) <= limit,
        decreases nodes.len() - i,
    {
        proof {
            assert(nodes@.take(i + 1) =~= nodes@.take(i as int).push(nodes@[i as int]));
            lemma_nodes_view_push(nodes@.take(i as int), nodes@[i as int]);
            assert(nodes_view(nodes@.take(i + 1)).drop_last() =~= nodes_view(nodes@.take(i as int)));
        }
        if !nesting_within(&nodes[i], limit) {
            proof {
                lemma_nodes_nesting_ge(nodes@, i as int);
            }
            return false;
        }
        i += 1;
    }
    proof {
        assert(nodes@.take(nodes.len() as int) =~= nodes@);
    }
    true
}

fn entries_nesting_within(entries: &Vec<ObjectEntry>, limit: u32) -> (b: bool)
    ensures
        b == (entries_nesting(entries_view(entries@)) <= limit),
    decreases entries,
{
    if entries.len() > 0 && limit == 0 {
        proof {
            lemma_entries_nesting_ge(entries@, 0);
        }
        return false;
    }
    let mut i: usize = 0;
    while i < entries.len()
        invariant
            0 <= i <= entries.len(),
            entries.len() > 0 ==> limit > 0,
            entries_nesting(entries_view(entries@.take(i as int))) <= limit,
        decreases entries.len() - i,
    {
        proof {
            assert(entries@.take(i + 1) =~= entries@.take(i as int).push(entries@[i as int]));
            lemma_entries_view_push(entries@.take(i as int), entries@[i as int]);
            assert(entries_view(entries@.take(i + 1)).drop_last() =~= entries_view(entries@.take(i as int)));
        }
        if !nesting_within(&entries[i].value, limit - 1) {
            proof {
                lemma_entries_nesting_ge(entries@, i as int);
            }
            return false;
        }
        i += 1;
    }
    proof {
        assert(entries@.take(entries.len() as int) =~= entries@);
    }
    true
}

proof fn lemma_nodes_nesting_ge(s: Seq<AstNode>, i: int)
    requires
        0 <= i < s.len(),
    ensures
        nodes_nesting(nodes_view(s)) >= nesting(node_view(s[i])),
    decreases s.len(),
{
    assert(s =~= s.drop_last().push(s.last()));
    lemma_nodes_view_push(s.drop_last(), s.last());
    assert(nodes_view(s).drop_last() =~= nodes_view(s.drop_last()));
    if i < s.len() - 1 {
        lemma_nodes_nesting_ge(s.drop_last(), i);
    }
}

proof fn lemma_entries_nesting_ge(s: Seq<ObjectEntry>, i: int)
    requires
        0 <= i < s.len(),
    ensures
        entries_nesting(entries_view(s)) >= 1 + nesting(node_view(s[i].value)),
    decreases s.len(),
{
    assert(s =~= s.drop_last().push(s.last()));
    lemma_entries_view_push(s.drop_last(), s.last());
    assert(entries_view(s).drop_last() =~= entries_view(s.drop_last()));
    if i < s.len() - 1 {
        lemma_entries_nesting_ge(s.drop_last(), i);
    }
}

/// Whether a document's nesting can be indented with these options (the
/// condition `format_document` needs).
pub fn fits_indentation(ast: &AstNode, options: &ToonFormattingOptions) -> (b: bool)
    ensures
        b == fits(node_view(*ast), 0, *options),
{
    let ghost n = nesting(node_view(*ast));
    if options.indent_size == 0 {
        nesting_within(ast, u32::MAX)
    } else {
        let limit = u32::MAX / options.indent_size;
        let r = nesting_within(ast, limit);
        proof {
            let i = options.indent_size as int;
            let m = u32::MAX as int;
            let l = limit as int;
            assert(l == m / i);
            if n <= l {
                assert(n * i <= l * i) by (nonlinear_arith)
                    requires
                        n <= l,
                        i > 0,
                ;
                assert(l * i <= m) by (nonlinear_arith)
                    requires
                        l == m / i,
                        i > 0,
                ;
            } else {
                assert(n * i > m) by (nonlinear_arith)
                    requires
                        n > l,
                        l == m / i,
                        i > 0,
                ;
            }
        }
        r
    }
}

proof fn lemma_escape_concat(a: Seq<char>, b: Seq<char>)
    ensures
        escape_quoted(a + b) == escape_quoted(a) + escape_quoted(b),
    decreases b.len(),
{
    if b.len() == 0 {
        assert(a + b =~= a);
        assert(escape_quoted(a) + escape_quoted(b) =~= escape_quoted(a));
    } else {
        lemma_escape_concat(a, b.drop_last());
        assert((a + b).drop_last() =~= a + b.drop_last());
        assert((a + b).last() == b.last());
        let tail = if b.last() == '\\' {
            seq!['\\', '\\']
        } else if b.last() == '"' {
            seq!['\\', '"']
        } else {
            seq![b.last()]
        };
        assert(escape_quoted(a + b) == escape_quoted(a + b.drop_last()) + tail);
        assert(escape_quoted(b) == escape_quoted(b.drop_last()) + tail);
        assert(escape_quoted(a) + escape_quoted(b.drop_last()) + tail =~= escape_quoted(a) + (escape_quoted(
            b.drop_last(),
        ) + tail));
    }
}

/// Reading the quoted rendering of `w` from just after its opening quote
/// decodes the first `k` characters of `w` in order.
proof fn lemma_quoted_reads_prefix(w: Seq<char>, t: Seq<char>, k: int)
    requires
        t == seq!['"'] + escape_quoted(w) + seq!['"'],
        0 <= k <= w.len(),
        forall|i: int| 0 <= i < w.len() ==> w[i] != '\n',
    ensures
        quoted_scan(t, 1, Seq::empty()) == quoted_scan(t, 1 + escape_quoted(w.take(k)).len() as int, w.take(k)),
    decreases k,
{
    let e = escape_quoted(w);
    if k == 0 {
        assert(w.take(0) =~= Seq::<char>::empty());
    } else {
        lemma_quoted_reads_prefix(w, t, k - 1);
        let a = w.take(k - 1);
        let c = w[k - 1];
        assert(w.take(k) =~= a.push(c));
        assert(w.take(k).drop_last() =~= a);
        assert(w =~= w.take(k) + w.skip(k));
        lemma_escape_concat(w.take(k), w.skip(k));
        let ea = escape_quoted(a);
        let p: int = 1 + ea.len() as int;
        let tail = if c == '\\' {
            seq!['\\', '\\']
        } else if c == '"' {
            seq!['\\', '"']
        } else {
            seq![c]
        };
        assert(escape_quoted(w.take(k)) == ea + tail);
        assert forall|i: int| 0 <= i < tail.len() implies t[p + i] == tail[i] by {
            assert(e[ea.len() + i] == (ea + tail)[ea.len() + i]);
            assert(t[p + i] == e[ea.len() + i]);
        }
        assert(p < t.len());
        assert(quoted_scan(t, p, a) == quoted_scan(t, p + tail.len() as int, a.push(c)));
    }
}

/// The quoted rendering of a string without line feeds reads back, through
/// the scanner's quoted-string rule, as exactly that string, ending at the
/// closing quote.
pub proof fn lemma_quoted_string_reads_back(w: Seq<char>)
    requires
        forall|i: int| 0 <= i < w.len() ==> w[i] != '\n',
    ensures
        ({
            let t = seq!['"'] + escape_quoted(w) + seq!['"'];
            quoted_scan(t, 1, Seq::empty()) == (QuotedScan::Closed { end: t.len() as int, value: w })
        }),
{
    let t = seq!['"'] + escape_quoted(w) + seq!['"'];
    lemma_quoted_reads_prefix(w, t, w.len() as int);
    assert(w.take(w.len() as int) =~= w);
    assert(t[1 + escape_quoted(w).len() as int] == '"');
}

/// Formatting keeps a string a string, and quotes only when it must. A
/// string value (without line feeds)
/// is written either quoted, and the scanner reads the quoted text back as
/// exactly that string, or bare, as itself: then it is not empty, has no
/// space at either end, is not a keyword (`true`, `false`, `null`) nor a
/// number (decimal, or an infinity or NaN as std's float parser reads
/// them), and holds none of the characters that end or split a value.
/// A string that is none of these things is always written bare.
pub proof fn lemma_formatted_string_stays_a_string(
    value: Seq<char>,
    span: crate::ast::Span,
    level: nat,
    o: ToonFormattingOptions,
    table: Seq<(Seq<char>, Seq<char>)>,
)
    requires
        forall|i: int| 0 <= i < value.len() ==> value[i] != '\n',
    ensures
        ({
            let t = format_text(NodeView::Str { value, span }, level, o, table);
            ||| (t.len() >= 2 && t[0] == '"' && quoted_scan(t, 1, Seq::empty()) == (QuotedScan::Closed {
                end: t.len() as int,
                value,
            }))
            ||| {
                &&& t == value
                &&& t.len() > 0
                &&& t[0] != ' ' && t.last() != ' '
                &&& keyword_or_identifier(t) == TokenView::Identifier(t)
                &&& !float_syntax(t)
                &&& !special_float(t)
                &&& forall|i: int|
                    0 <= i < t.len() ==> {
                        let c = #[trigger] t[i];
                        c != ':' && c != ',' && c != '[' && c != ']' && c != '{' && c != '}' && c != '|' && c
                            != '-' && c != '"' && c != '\\'
                    }
            }
        }),
        ({
            &&& value.len() > 0
            &&& value[0] != ' ' && value.last() != ' '
            &&& value != "true"@ && value != "false"@ && value != "null"@
            &&& !float_syntax(value)
            &&& !special_float(value)
            &&& forall|i: int|
                0 <= i < value.len() ==> {
                    let c = #[trigger] value[i];
                    c != ':' && c != ',' && c != '[' && c != ']' && c != '{' && c != '}' && c != '|' && c != '-'
                        && c != '"' && c != '\\'
                }
        }) ==> format_text(NodeView::Str { value, span }, level, o, table) == value,
{
    if format_needs_quotes(value) {
        lemma_quoted_string_reads_back(value);
        if exists|i: int| 0 <= i < value.len() && #[trigger] forces_quotes(value[i]) {
            let i = choose|i: int| 0 <= i < value.len() && #[trigger] forces_quotes(value[i]);
            assert(forces_quotes(value[i]));
        }
    } else {
        assert forall|i: int| 0 <= i < value.len() implies !forces_quotes(#[trigger] value[i]) by {}
    }
}

} // verus!
