//! The `symbols` subcommand: the keys of a document as a symbol tree, and
//! its tree and flat renderings.
use crate::ast::node::{entries_view, entry_view, lemma_nodes_view_push, node_view, nodes_view, EntryView, NodeView};
use crate::ast::{AstNode, ObjectEntry};
use crate::cli::error::{CliError, ExitCode};
use crate::cli::SymbolsArgs;
use crate::text::{decimal_digits, push_decimal};
use vstd::prelude::*;

verus! {

/// A symbol (key) of a document.
#[derive(Debug, PartialEq)]
pub struct Symbol {
    /// The key
    pub name: String,
    /// The kind of its value
    pub kind: SymbolKind,
    /// The dotted path of keys from the root
    pub path: String,
    /// 1-based line of the key
    pub line: usize,
    /// 1-based column of the key
    pub column: usize,
    /// The symbols inside its value
    pub children: Vec<Symbol>,
}

/// Kinds of symbol values.
#[derive(Debug, Clone, Copy, PartialEq, Eq, Structural)]
pub enum SymbolKind {
    Object,
    Array,
    String,
    Number,
    Boolean,
    Null,
}

/// The name of a symbol kind.
pub open spec fn kind_name(k: SymbolKind) -> Seq<char> {
    match k {
        SymbolKind::Object => "object"@,
        SymbolKind::Array => "array"@,
        SymbolKind::String => "string"@,
        SymbolKind::Number => "number"@,
        SymbolKind::Boolean => "boolean"@,
        SymbolKind::Null => "null"@,
    }
}

impl SymbolKind {
    /// The name of this kind.
    pub fn as_str(self) -> (s: &'static str)
        ensures
            s@ == kind_name(self),
    {
        match self {
            SymbolKind::Object => "object",
            SymbolKind::Array => "array",
            SymbolKind::String => "string",
            SymbolKind::Number => "number",
            SymbolKind::Boolean => "boolean",
            SymbolKind::Null => "null",
        }
    }
}

/// The model of a symbol.
pub struct SymbolView {
    pub name: Seq<char>,
    pub kind: SymbolKind,
    pub path: Seq<char>,
    pub line: int,
    pub column: int,
    pub children: Seq<SymbolView>,
}

pub open spec fn symbol_view(s: Symbol) -> SymbolView
    decreases s,
{
    SymbolView {
        name: s.name@,
        kind: s.kind,
        path: s.path@,
        line: s.line as int,
        column: s.column as int,
        children: symbols_view(s.children@),
    }
}

pub open spec fn symbols_view(s: Seq<Symbol>) -> Seq<SymbolView>
    decreases s,
{
    if s.len() == 0 {
        Seq::empty()
    } else {
        symbols_view(s.drop_last()).push(symbol_view(s.last()))
    }
}

proof fn lemma_symbols_view_push(s: Seq<Symbol>, x: Symbol)
    ensures
        symbols_view(s.push(x)) == symbols_view(s).push(symbol_view(x)),
{
    assert(s.push(x).drop_last() =~= s);
}

proof fn lemma_symbols_view_concat(a: Seq<Symbol>, b: Seq<Symbol>)
    ensures
        symbols_view(a + b) == symbols_view(a) + symbols_view(b),
    decreases b.len(),
{
    if b.len() == 0 {
        assert(a + b =~= a);
        assert(symbols_view(b) =~= Seq::<SymbolView>::empty());
        assert(symbols_view(a) + symbols_view(b) =~= symbols_view(a));
    } else {
        lemma_symbols_view_concat(a, b.drop_last());
        assert((a + b).drop_last() =~= a + b.drop_last());
        assert((a + b).last() == b.last());
        assert(symbols_view(a) + symbols_view(b) =~= (symbols_view(a) + symbols_view(b.drop_last())).push(symbol_view(b.last())));
    }
}

// ---------------------------------------------------------------------------
// Extraction
// ---------------------------------------------------------------------------

/// Whether every key position of a node can be counted from 1 in a `u32`.
pub open spec fn key_positions_bounded(n: NodeView) -> bool
    decreases n,
{
    match n {
        NodeView::Document { children, .. } => all_key_positions_bounded(children),
        NodeView::Object { entries, .. } => entry_key_positions_bounded(entries),
        NodeView::Array { items, .. } => all_key_positions_bounded(items),
        _ => true,
    }
}

pub open spec fn all_key_positions_bounded(s: Seq<NodeView>) -> bool
    decreases s,
{
    if s.len() == 0 {
        true
    } else {
        all_key_positions_bounded(s.drop_last()) && key_positions_bounded(s.last())
    }
}

pub open spec fn entry_key_positions_bounded(s: Seq<EntryView>) -> bool
    decreases s,
{
    if s.len() == 0 {
        true
    } else {
        &&& entry_key_positions_bounded(s.drop_last())
        &&& s.last().key_span.start.line < u32::MAX
        &&& s.last().key_span.start.column < u32::MAX
        &&& key_positions_bounded(s.last().value)
    }
}

/// The dotted path of key `key` under `parent`.
pub open spec fn child_path(parent: Seq<char>, key: Seq<char>) -> Seq<char> {
    if parent.len() == 0 {
        key
    } else {
        parent + seq!['.'] + key
    }
}

/// The symbols of a node under the path `parent`: one per key of an object
/// (its children are the symbols of its value), those of the objects among
/// an array's items, and none for a scalar.
pub open spec fn node_symbols(n: NodeView, parent: Seq<char>) -> Seq<SymbolView>
    decreases n,
{
    match n {
        NodeView::Document { children, .. } => children_symbols(children, parent),
        NodeView::Object { entries, .. } => entries_symbols(entries, parent),
        NodeView::Array { items, .. } => object_items_symbols(items, parent),
        _ => Seq::empty(),
    }
}

pub open spec fn children_symbols(s: Seq<NodeView>, parent: Seq<char>) -> Seq<SymbolView>
    decreases s,
{
    if s.len() == 0 {
        Seq::empty()
    } else {
        children_symbols(s.drop_last(), parent) + node_symbols(s.last(), parent)
    }
}

pub open spec fn object_items_symbols(s: Seq<NodeView>, parent: Seq<char>) -> Seq<SymbolView>
    decreases s,
{
    if s.len() == 0 {
        Seq::empty()
    } else {
        object_items_symbols(s.drop_last(), parent) + if s.last() is Object {
            node_symbols(s.last(), parent)
        } else {
            Seq::empty()
        }
    }
}

pub open spec fn entries_symbols(s: Seq<EntryView>, parent: Seq<char>) -> Seq<SymbolView>
    decreases s,
{
    if s.len() == 0 {
        Seq::empty()
    } else {
        entries_symbols(s.drop_last(), parent).push(entry_symbol(s.last(), parent))
    }
}

/// The symbol of an object entry.
pub open spec fn entry_symbol(e: EntryView, parent: Seq<char>) -> SymbolView
    decreases e,
{
    let path = child_path(parent, e.key);
    let (kind, children) = match e.value {
        NodeView::Object { .. } => (SymbolKind::Object, node_symbols(e.value, path)),
        NodeView::Array { .. } => (SymbolKind::Array, node_symbols(e.value, path)),
        NodeView::Str { .. } => (SymbolKind::String, Seq::empty()),
        NodeView::Number { .. } => (SymbolKind::Number, Seq::empty()),
        NodeView::Bool { .. } => (SymbolKind::Boolean, Seq::empty()),
        NodeView::Null { .. } => (SymbolKind::Null, Seq::empty()),
        NodeView::Reference { .. } => (SymbolKind::String, Seq::empty()),
        NodeView::Document { .. } => (SymbolKind::Object, node_symbols(e.value, path)),
    };
    SymbolView {
        name: e.key,
        kind,
        path,
        line: e.key_span.start.line + 1,
        column: e.key_span.start.column + 1,
        children,
    }
}

fn child_path_string(parent_path: &str, key: &String) -> (s: String)
    ensures
        s@ == child_path(parent_path@, key@),
{
    if parent_path.is_empty() {
        key.clone()
    } else {
        let mut s = String::from_str(parent_path);
        s.push('.');
        s.append(key.as_str());
        s
    }
}

/// The symbols of a node under the path `parent_path`.
pub fn extract_symbols(node: &AstNode, parent_path: &str) -> (r: Vec<Symbol>)
    requires
        key_positions_bounded(node_view(*node)),
    ensures
        symbols_view(r@) == node_symbols(node_view(*node), parent_path@),
    decreases node,
{
    match node {
        AstNode::Document { children, .. } => extract_children(children, parent_path, false),
        AstNode::Object { entries, .. } => extract_entries(entries, parent_path),
        AstNode::Array { items, .. } => extract_children(items, parent_path, true),
        _ => {
            let r: Vec<Symbol> = Vec::new();
            proof {
                assert(symbols_view(r@) =~= Seq::<SymbolView>::empty());
            }
            r
        },
    }
}

fn extract_children(nodes: &Vec<AstNode>, parent_path: &str, objects_only: bool) -> (r: Vec<Symbol>)
    requires
        all_key_positions_bounded(nodes_view(nodes@)),
    ensures
        symbols_view(r@) == if objects_only {
            object_items_symbols(nodes_view(nodes@), parent_path@)
        } else {
            children_symbols(nodes_view(nodes@), parent_path@)
        },
    decreases nodes,
{
    let mut r: Vec<Symbol> = Vec::new();
    let mut i: usize = 0;
    proof {
        assert(symbols_view(r@) =~= Seq::<SymbolView>::empty());
    }
    while i < nodes.len()
        invariant
            0 <= i <= nodes.len(),
            all_key_positions_bounded(nodes_view(nodes@)),
            symbols_view(r@) == if objects_only {
                object_items_symbols(nodes_view(nodes@.take(i as int)), parent_path@)
            } else {
                children_symbols(nodes_view(nodes@.take(i as int)), parent_path@)
            },
        decreases nodes.len() - i,
    {
        proof {
            lemma_bounded_item(nodes@, i as int);
            assert(nodes@.take(i + 1) =~= nodes@.take(i as int).push(nodes@[i as int]));
            lemma_nodes_view_push(nodes@.take(i as int), nodes@[i as int]);
            assert(nodes_view(nodes@.take(i + 1)).drop_last() =~= nodes_view(nodes@.take(i as int)));
        }
        let item = &nodes[i];
        if !objects_only || matches!(item, AstNode::Object { .. }) {
            let mut sub = extract_symbols(item, parent_path);
            let ghost r0 = r@;
            let ghost s0 = sub@;
            r.append(&mut sub);
            proof {
                lemma_symbols_view_concat(r0, s0);
            }
        } else {
            proof {
                assert(symbols_view(r@) + Seq::<SymbolView>::empty() =~= symbols_view(r@));
            }
        }
        i += 1;
    }
    proof {
        assert(nodes@.take(nodes.len() as int) =~= nodes@);
    }
    r
}

proof fn lemma_bounded_item(s: Seq<AstNode>, i: int)
    requires
        0 <= i < s.len(),
        all_key_positions_bounded(nodes_view(s)),
    ensures
        key_positions_bounded(node_view(s[i])),
    decreases s.len(),
{
    assert(nodes_view(s).drop_last() =~= nodes_view(s.drop_last()));
    if i < s.len() - 1 {
        assert(s.drop_last()[i] == s[i]);
        lemma_bounded_item(s.drop_last(), i);
    }
}

proof fn lemma_bounded_entry(s: Seq<ObjectEntry>, i: int)
    requires
        0 <= i < s.len(),
        entry_key_positions_bounded(entries_view(s)),
    ensures
        key_positions_bounded(node_view(s[i].value)),
        s[i].key_span.start.line < u32::MAX,
        s[i].key_span.start.column < u32::MAX,
    decreases s.len(),
{
    assert(entries_view(s).drop_last() =~= entries_view(s.drop_last()));
    if i < s.len() - 1 {
        assert(s.drop_last()[i] == s[i]);
        lemma_bounded_entry(s.drop_last(), i);
    }
}

fn extract_entries(entries: &Vec<ObjectEntry>, parent_path: &str) -> (r: Vec<Symbol>)
    requires
        entry_key_positions_bounded(entries_view(entries@)),
    ensures
        symbols_view(r@) == entries_symbols(entries_view(entries@), parent_path@),
    decreases entries,
{
    let mut r: Vec<Symbol> = Vec::new();
    let mut i: usize = 0;
    proof {
        assert(symbols_view(r@) =~= Seq::<SymbolView>::empty());
    }
    while i < entries.len()
        invariant
            0 <= i <= entries.len(),
            entry_key_positions_bounded(entries_view(entries@)),
            symbols_view(r@) == entries_symbols(entries_view(entries@.take(i as int)), parent_path@),
        decreases entries.len() - i,
    {
        proof {
            lemma_bounded_entry(entries@, i as int);
            assert(entries@.take(i + 1) =~= entries@.take(i as int).push(entries@[i as int]));
            crate::ast::node::lemma_entries_view_push(entries@.take(i as int), entries@[i as int]);
            assert(entries_view(entries@.take(i + 1)).drop_last() =~= entries_view(entries@.take(i as int)));
        }
        let entry = &entries[i];
        let symbol = entry_to_symbol(entry, parent_path);
        proof {
            lemma_symbols_view_push(r@, symbol);
        }
        r.push(symbol);
        i += 1;
    }
    proof {
        assert(entries@.take(entries.len() as int) =~= entries@);
    }
    r
}

fn entry_to_symbol(entry: &ObjectEntry, parent_path: &str) -> (s: Symbol)
    requires
        entry.key_span.start.line < u32::MAX,
        entry.key_span.start.column < u32::MAX,
        key_positions_bounded(node_view(entry.value)),
    ensures
        symbol_view(s) == entry_symbol(entry_view(*entry), parent_path@),
    decreases entry,
{
    let path = child_path_string(parent_path, &entry.key);
    let span = &entry.key_span;
    let line = (span.start.line + 1) as usize;
    let column = (span.start.column + 1) as usize;
    let (kind, children) = match &entry.value {
        AstNode::Object { .. } => (SymbolKind::Object, extract_symbols(&entry.value, path.as_str())),
        AstNode::Array { .. } => (SymbolKind::Array, extract_symbols(&entry.value, path.as_str())),
        AstNode::String { .. } => (SymbolKind::String, Vec::new()),
        AstNode::Number { .. } => (SymbolKind::Number, Vec::new()),
        AstNode::Bool { .. } => (SymbolKind::Boolean, Vec::new()),
        AstNode::Null { .. } => (SymbolKind::Null, Vec::new()),
        AstNode::Reference { .. } => (SymbolKind::String, Vec::new()),
        AstNode::Document { .. } => (SymbolKind::Object, extract_symbols(&entry.value, path.as_str())),
    };
    proof {
        if children@.len() == 0 {
            assert(symbols_view(children@) =~= Seq::<SymbolView>::empty());
        }
    }
    Symbol { name: entry.key.clone(), kind, path, line, column, children }
}

// ---------------------------------------------------------------------------
// Renderings
// ---------------------------------------------------------------------------

/// `text`, then ` [kind]` when `types`, then `  (Lline:Ccolumn)` when
/// `positions`.
pub open spec fn annotated(text: Seq<char>, s: SymbolView, types: bool, positions: bool) -> Seq<char> {
    text + (if types { " ["@ + kind_name(s.kind) + "]"@ } else { Seq::empty() }) + (if positions {
        "  (L"@ + decimal_digits(s.line as nat) + ":C"@ + decimal_digits(s.column as nat) + ")"@
    } else {
        Seq::empty()
    })
}

/// Two spaces per level.
pub open spec fn indentation(depth: nat) -> Seq<char>
    decreases depth,
{
    if depth == 0 {
        Seq::empty()
    } else {
        indentation((depth - 1) as nat) + "  "@
    }
}

/// The tree rendering of symbols at `depth`: one indented line per symbol,
/// each followed by its children one level deeper.
pub open spec fn tree_text(ss: Seq<SymbolView>, types: bool, positions: bool, depth: nat) -> Seq<char>
    decreases ss,
{
    if ss.len() == 0 {
        Seq::empty()
    } else {
        tree_text(ss.drop_last(), types, positions, depth) + symbol_tree_text(ss.last(), types, positions, depth)
    }
}

pub open spec fn symbol_tree_text(s: SymbolView, types: bool, positions: bool, depth: nat) -> Seq<char>
    decreases s,
{
    annotated(indentation(depth) + s.name, s, types, positions) + seq!['\n'] + if s.children.len() > 0 {
        tree_text(s.children, types, positions, depth + 1)
    } else {
        Seq::empty()
    }
}

/// The symbols, each followed by its flattened children, without children.
pub open spec fn flat_symbols(ss: Seq<SymbolView>) -> Seq<SymbolView>
    decreases ss,
{
    if ss.len() == 0 {
        Seq::empty()
    } else {
        flat_symbols(ss.drop_last()) + symbol_flat(ss.last())
    }
}

pub open spec fn symbol_flat(s: SymbolView) -> Seq<SymbolView>
    decreases s,
{
    seq![SymbolView { children: Seq::empty(), ..s }] + if s.children.len() > 0 {
        flat_symbols(s.children)
    } else {
        Seq::empty()
    }
}

/// The flat rendering: one line per symbol, with its path.
pub open spec fn flat_text(ss: Seq<SymbolView>, types: bool, positions: bool) -> Seq<char>
    decreases ss.len(),
{
    if ss.len() == 0 {
        Seq::empty()
    } else {
        flat_text(ss.drop_last(), types, positions) + annotated(ss.last().path, ss.last(), types, positions)
            + seq!['\n']
    }
}

fn push_annotations(out: &mut String, s: &Symbol, types: bool, positions: bool)
    ensures
        final(out)@ == annotated(old(out)@, symbol_view(*s), types, positions),
{
    let ghost base = out@;
    if types {
        out.append(" [");
        out.append(s.kind.as_str());
        out.append("]");
    }
    let ghost mid = out@;
    if positions {
        out.append("  (L");
        push_decimal(out, s.line as u64);
        out.append(":C");
        push_decimal(out, s.column as u64);
        out.append(")");
    }
    proof {
        let v = symbol_view(*s);
        assert(mid == base + (if types { " ["@ + kind_name(v.kind) + "]"@ } else { Seq::empty() }));
        assert(out@ =~= annotated(base, v, types, positions));
    }
}

/// The number of levels of a forest of symbols.
pub open spec fn forest_height(ss: Seq<SymbolView>) -> nat
    decreases ss,
{
    if ss.len() == 0 {
        0
    } else {
        let a = forest_height(ss.drop_last());
        let b = symbol_height(ss.last());
        if a >= b { a } else { b }
    }
}

pub open spec fn symbol_height(s: SymbolView) -> nat
    decreases s,
{
    1 + forest_height(s.children)
}

proof fn lemma_forest_height(ss: Seq<SymbolView>, i: int)
    requires
        0 <= i < ss.len(),
    ensures
        symbol_height(ss[i]) <= forest_height(ss),
    decreases ss.len(),
{
    if i < ss.len() - 1 {
        assert(ss.drop_last()[i] == ss[i]);
        lemma_forest_height(ss.drop_last(), i);
    }
}

proof fn lemma_symbols_view_index(s: Seq<Symbol>, i: int)
    requires
        0 <= i < s.len(),
    ensures
        symbols_view(s)[i] == symbol_view(s[i]),
    decreases s.len(),
{
    lemma_symbols_view_len(s.drop_last());
    if i < s.len() - 1 {
        assert(s.drop_last()[i] == s[i]);
        lemma_symbols_view_index(s.drop_last(), i);
    }
}

/// Render symbols as an indented tree.
pub fn format_tree(symbols: &Vec<Symbol>, args: &SymbolsArgs, depth: usize) -> (output: String)
    requires
        depth + forest_height(symbols_view(symbols@)) <= usize::MAX,
    ensures
        output@ == tree_text(symbols_view(symbols@), args.types, args.positions, depth as nat),
    decreases symbols,
{
    let mut output = String::new();
    let mut i: usize = 0;
    while i < symbols.len()
        invariant
            0 <= i <= symbols.len(),
            output@ == tree_text(symbols_view(symbols@.take(i as int)), args.types, args.positions, depth as nat),
            depth + forest_height(symbols_view(symbols@)) <= usize::MAX,
        decreases symbols.len() - i,
    {
        proof {
            assert(symbols@.take(i + 1) =~= symbols@.take(i as int).push(symbols@[i as int]));
            lemma_symbols_view_push(symbols@.take(i as int), symbols@[i as int]);
            assert(symbols_view(symbols@.take(i + 1)).drop_last() =~= symbols_view(symbols@.take(i as int)));
        }
        let symbol = &symbols[i];
        let ghost before = output@;
        let mut line = String::new();
        let mut k: usize = 0;
        while k < depth
            invariant
                0 <= k <= depth,
                line@ == indentation(k as nat),
            decreases depth - k,
        {
            line.append("  ");
            k += 1;
        }
        line.append(symbol.name.as_str());
        push_annotations(&mut line, symbol, args.types, args.positions);
        output.append(line.as_str());
        output.push('\n');
        if symbol.children.len() > 0 {
            proof {
                lemma_symbols_view_len(symbols@);
                lemma_forest_height(symbols_view(symbols@), i as int);
                lemma_symbols_view_index(symbols@, i as int);
            }
            let sub = format_tree(&symbol.children, args, depth + 1);
            output.append(sub.as_str());
        }
        proof {
            let v = symbol_view(*symbol);
            assert(v.children.len() == symbol.children.len()) by {
                lemma_symbols_view_len(symbol.children@);
            }
            assert(output@ =~= before + symbol_tree_text(v, args.types, args.positions, depth as nat));
        }
        i += 1;
    }
    proof {
        assert(symbols@.take(symbols.len() as int) =~= symbols@);
    }
    output
}

proof fn lemma_symbols_view_len(s: Seq<Symbol>)
    ensures
        symbols_view(s).len() == s.len(),
    decreases s.len(),
{
    if s.len() > 0 {
        lemma_symbols_view_len(s.drop_last());
    }
}

/// The symbols with their children listed after them, depth first.
pub fn flatten_symbols(symbols: &Vec<Symbol>) -> (r: Vec<Symbol>)
    ensures
        symbols_view(r@) == flat_symbols(symbols_view(symbols@)),
    decreases symbols,
{
    let mut result: Vec<Symbol> = Vec::new();
    let mut i: usize = 0;
    proof {
        assert(symbols_view(result@) =~= Seq::<SymbolView>::empty());
    }
    while i < symbols.len()
        invariant
            0 <= i <= symbols.len(),
            symbols_view(result@) == flat_symbols(symbols_view(symbols@.take(i as int))),
        decreases symbols.len() - i,
    {
        proof {
            assert(symbols@.take(i + 1) =~= symbols@.take(i as int).push(symbols@[i as int]));
            lemma_symbols_view_push(symbols@.take(i as int), symbols@[i as int]);
            assert(symbols_view(symbols@.take(i + 1)).drop_last() =~= symbols_view(symbols@.take(i as int)));
        }
        let symbol = &symbols[i];
        let ghost r0 = result@;
        let leaf = Symbol {
            name: symbol.name.clone(),
            kind: symbol.kind,
            path: symbol.path.clone(),
            line: symbol.line,
            column: symbol.column,
            children: Vec::new(),
        };
        proof {
            lemma_symbols_view_push(r0, leaf);
            assert(symbols_view(leaf.children@) =~= Seq::<SymbolView>::empty());
        }
        result.push(leaf);
        let ghost r1 = result@;
        if symbol.children.len() > 0 {
            let mut sub = flatten_symbols(&symbol.children);
            let ghost s0 = sub@;
            result.append(&mut sub);
            proof {
                lemma_symbols_view_concat(r1, s0);
            }
        }
        proof {
            let v = symbol_view(*symbol);
            lemma_symbols_view_len(symbol.children@);
            assert(symbol_view(leaf) == SymbolView { children: Seq::empty(), ..v });
            assert(symbols_view(result@) =~= symbols_view(r0) + symbol_flat(v));
        }
        i += 1;
    }
    proof {
        assert(symbols@.take(symbols.len() as int) =~= symbols@);
    }
    result
}

/// Render symbols as a flat list of paths.
pub fn format_flat(symbols: &Vec<Symbol>, args: &SymbolsArgs) -> (output: String)
    ensures
        output@ == flat_text(flat_symbols(symbols_view(symbols@)), args.types, args.positions),
{
    let flat = flatten_symbols(symbols);
    let mut output = String::new();
    let mut i: usize = 0;
    while i < flat.len()
        invariant
            0 <= i <= flat.len(),
            output@ == flat_text(symbols_view(flat@.take(i as int)), args.types, args.positions),
        decreases flat.len() - i,
    {
        proof {
            assert(flat@.take(i + 1) =~= flat@.take(i as int).push(flat@[i as int]));
            lemma_symbols_view_push(flat@.take(i as int), flat@[i as int]);
            assert(symbols_view(flat@.take(i + 1)).drop_last() =~= symbols_view(flat@.take(i as int)));
        }
        let symbol = &flat[i];
        let mut line = symbol.path.clone();
        push_annotations(&mut line, symbol, args.types, args.positions);
        output.append(line.as_str());
        output.push('\n');
        i += 1;
    }
    proof {
        assert(flat@.take(flat.len() as int) =~= flat@);
    }
    output
}

/// The exit code of `symbols` for an error: a parse error fails
/// validation, any other error is a general error.
pub fn error_exit_code(error: &CliError) -> (c: ExitCode)
    ensures
        c == match error {
            CliError::Parse(_) => ExitCode::ValidationFailed,
            _ => ExitCode::Error,
        },
{
    match error {
        CliError::Parse(_) => ExitCode::ValidationFailed,
        _ => ExitCode::Error,
    }
}

/// Whether every key position of a tree can be counted from 1 (the
/// condition `extract_symbols` needs).
pub fn key_positions_fit(node: &AstNode) -> (b: bool)
    ensures
        b == key_positions_bounded(node_view(*node)),
    decreases node,
{
    match node {
        AstNode::Document { children, .. } => nodes_key_positions_fit(children),
        AstNode::Object { entries, .. } => entries_key_positions_fit(entries),
        AstNode::Array { items, .. } => nodes_key_positions_fit(items),
        _ => true,
    }
}

fn nodes_key_positions_fit(nodes: &Vec<AstNode>) -> (b: bool)
    ensures
        b == all_key_positions_bounded(nodes_view(nodes@)),
    decreases nodes,
{
    let mut i: usize = 0;
    while i < nodes.len()
        invariant
            0 <= i <= nodes.len(),
            all_key_positions_bounded(nodes_view(nodes@.take(i as int))),
        decreases nodes.len() - i,
    {
        proof {
            assert(nodes@.take(i + 1) =~= nodes@.take(i as int).push(nodes@[i as int]));
            crate::ast::node::lemma_nodes_view_push(nodes@.take(i as int), nodes@[i as int]);
            assert(nodes_view(nodes@.take(i + 1)).drop_last() =~= nodes_view(nodes@.take(i as int)));
        }
        if !key_positions_fit(&nodes[i]) {
            proof {
                if all_key_positions_bounded(nodes_view(nodes@)) {
                    lemma_bounded_item(nodes@, i as int);
                }
            }
            return false;
        }
        i += 1;
    }
    proof {
        assert(nodes@.take(nodes.len() as int) =~= nodes@);
    }
    true
}

fn entries_key_positions_fit(entries: &Vec<ObjectEntry>) -> (b: bool)
    ensures
        b == entry_key_positions_bounded(entries_view(entries@)),
    decreases entries,
{
    let mut i: usize = 0;
    while i < entries.len()
        invariant
            0 <= i <= entries.len(),
            entry_key_positions_bounded(entries_view(entries@.take(i as int))),
        decreases entries.len() - i,
    {
        proof {
            assert(entries@.take(i + 1) =~= entries@.take(i as int).push(entries@[i as int]));
            crate::ast::node::lemma_entries_view_push(entries@.take(i as int), entries@[i as int]);
            assert(entries_view(entries@.take(i + 1)).drop_last() =~= entries_view(entries@.take(i as int)));
        }
        let k = entries[i].key_span;
        if !(k.start.line < u32::MAX && k.start.column < u32::MAX && key_positions_fit(&entries[i].value)) {
            proof {
                if entry_key_positions_bounded(entries_view(entries@)) {
                    lemma_bounded_entry(entries@, i as int);
                }
            }
            return false;
        }
        i += 1;
    }
    proof {
        assert(entries@.take(entries.len() as int) =~= entries@);
    }
    true
}

/// The number of symbols in a forest, children included.
pub open spec fn forest_size(ss: Seq<SymbolView>) -> nat
    decreases ss,
{
    if ss.len() == 0 {
        0
    } else {
        forest_size(ss.drop_last()) + tree_size(ss.last())
    }
}

/// The number of symbols in a tree: its root and its descendants.
pub open spec fn tree_size(s: SymbolView) -> nat
    decreases s,
{
    1 + if s.children.len() > 0 {
        forest_size(s.children)
    } else {
        0
    }
}

/// Flattening lists every symbol of a forest exactly once, each as a leaf:
/// the listing is as long as the forest is large, and no listed symbol keeps
/// children.
pub proof fn lemma_flat_symbols_lists_all(ss: Seq<SymbolView>)
    ensures
        flat_symbols(ss).len() == forest_size(ss),
        forall|i: int| 0 <= i < flat_symbols(ss).len() ==> (#[trigger] flat_symbols(ss)[i]).children.len() == 0,
    decreases ss,
{
    if ss.len() > 0 {
        lemma_flat_symbols_lists_all(ss.drop_last());
        lemma_symbol_flat_lists_all(ss.last());
        let a = flat_symbols(ss.drop_last());
        let b = symbol_flat(ss.last());
        assert forall|i: int| 0 <= i < (a + b).len() implies (#[trigger] (a + b)[i]).children.len() == 0 by {
            if i < a.len() {
                assert((a + b)[i] == a[i]);
            } else {
                assert((a + b)[i] == b[i - a.len()]);
            }
        }
    }
}

proof fn lemma_symbol_flat_lists_all(s: SymbolView)
    ensures
        symbol_flat(s).len() == tree_size(s),
        forall|i: int| 0 <= i < symbol_flat(s).len() ==> (#[trigger] symbol_flat(s)[i]).children.len() == 0,
    decreases s,
{
    let head = seq![SymbolView { children: Seq::empty(), ..s }];
    if s.children.len() > 0 {
        lemma_flat_symbols_lists_all(s.children);
        let b = flat_symbols(s.children);
        assert forall|i: int| 0 <= i < (head + b).len() implies (#[trigger] (head + b)[i]).children.len() == 0 by {
            if i < 1 {
                assert((head + b)[i] == head[i]);
            } else {
                assert((head + b)[i] == b[i - 1]);
            }
        }
    } else {
        assert(symbol_flat(s) =~= head);
    }
}

} // verus!
