//! Document validation: warnings on duplicate keys, arrays and table
//! columns whose values change type, and numbers beyond the range JSON
//! readers hold exactly.
use crate::ast::node::{
    entries_view, lemma_entries_view_push, lemma_nodes_view_push, node_view, nodes_view, EntryView, NodeView, NumberView,
};
use crate::ast::{ArrayForm, AstNode, NumberValue, ObjectEntry, Span};
use crate::parser::grammar::view_span;
use crate::resolve::{env_view, resolve, resolve_result, ResolveError, ResolveErrorView};
use vstd::prelude::*;

verus! {

/// The largest integer a double holds exactly (2^53 - 1).
pub const MAX_SAFE_INTEGER: u64 = 9007199254740991;

/// The kinds of values, as `AstNode::kind` names them.
#[derive(Debug, Clone, Copy, PartialEq, Eq, Structural)]
pub enum NodeKind {
    Document,
    Object,
    Array,
    String,
    Number,
    Bool,
    Null,
    Reference,
}

/// The kind of a node model.
pub open spec fn kind_of(n: NodeView) -> NodeKind {
    match n {
        NodeView::Document { .. } => NodeKind::Document,
        NodeView::Object { .. } => NodeKind::Object,
        NodeView::Array { .. } => NodeKind::Array,
        NodeView::Str { .. } => NodeKind::String,
        NodeView::Number { .. } => NodeKind::Number,
        NodeView::Bool { .. } => NodeKind::Bool,
        NodeView::Null { .. } => NodeKind::Null,
        NodeView::Reference { .. } => NodeKind::Reference,
    }
}

/// The name of a kind.
pub open spec fn kind_text(k: NodeKind) -> Seq<char> {
    match k {
        NodeKind::Document => "document"@,
        NodeKind::Object => "object"@,
        NodeKind::Array => "array"@,
        NodeKind::String => "string"@,
        NodeKind::Number => "number"@,
        NodeKind::Bool => "bool"@,
        NodeKind::Null => "null"@,
        NodeKind::Reference => "reference"@,
    }
}

impl NodeKind {
    /// The name of this kind.
    pub fn as_str(self) -> (s: &'static str)
        ensures
            s@ == kind_text(self),
    {
        match self {
            NodeKind::Document => "document",
            NodeKind::Object => "object",
            NodeKind::Array => "array",
            NodeKind::String => "string",
            NodeKind::Number => "number",
            NodeKind::Bool => "bool",
            NodeKind::Null => "null",
            NodeKind::Reference => "reference",
        }
    }
}

/// The kind of a node.
pub fn node_kind(n: &AstNode) -> (k: NodeKind)
    ensures
        k == kind_of(node_view(*n)),
{
    match n {
        AstNode::Document { .. } => NodeKind::Document,
        AstNode::Object { .. } => NodeKind::Object,
        AstNode::Array { .. } => NodeKind::Array,
        AstNode::String { .. } => NodeKind::String,
        AstNode::Number { .. } => NodeKind::Number,
        AstNode::Bool { .. } => NodeKind::Bool,
        AstNode::Null { .. } => NodeKind::Null,
        AstNode::Reference { .. } => NodeKind::Reference,
    }
}

/// What a warning is about.
#[derive(Debug)]
pub enum WarningKind {
    /// A key that an earlier entry of the same object already has
    DuplicateKey { key: String },
    /// A table cell whose kind differs from the column's first cell that is neither null nor a reference
    ColumnType { column: String, expected: NodeKind, found: NodeKind },
    /// An array item whose kind differs from the first item that is neither null nor a reference
    ArrayType { expected: NodeKind, found: NodeKind },
    /// An integer beyond 2^53 - 1 in magnitude
    UnsafeInteger { value: NumberValue },
    /// A float literal, whose magnitude the reader of the warnings compares
    /// with 2^53 - 1 (that comparison is done on the parsed double)
    FloatLiteral { text: String },
    /// An `env:` reference to a variable the environment does not set
    EnvNotSet { name: String },
    /// A reference whose path is not found (the path up to the missing key)
    Unresolved { path: String },
    /// A reference on a cycle of references
    Cyclic { path: String },
}

/// A warning at a span of the document.
#[derive(Debug)]
pub struct DocumentWarning {
    pub span: Span,
    pub kind: WarningKind,
}

/// The message of a warning, for the kinds whose text does not show a
/// number as a double.
pub open spec fn warning_message(k: WarningKindView) -> Option<Seq<char>> {
    match k {
        WarningKindView::DuplicateKey(key) => Some("Duplicate key: '"@ + key + "'"@),
        WarningKindView::ColumnType(column, e, f) => Some("Inconsistent type for column '"@ + column
            + "': expected '"@ + kind_text(e) + "', found '"@ + kind_text(f) + "'"@),
        WarningKindView::ArrayType(e, f) => Some("Inconsistent type in array: expected '"@ + kind_text(e)
            + "', found '"@ + kind_text(f) + "'"@),
        WarningKindView::EnvNotSet(n) => Some("Environment variable '"@ + n + "' is not defined"@),
        WarningKindView::Unresolved(p) => Some("Unresolved reference: '"@ + p + "'"@),
        WarningKindView::Cyclic(p) => Some("Cyclic reference: '"@ + p + "'"@),
        _ => None,
    }
}

impl DocumentWarning {
    /// The message of this warning; `None` for a number warning, whose text
    /// shows the number as a double.
    pub fn message(&self) -> (m: Option<String>)
        ensures
            match m {
                Some(t) => warning_message(warning_view(*self).kind) == Some(t@),
                None => warning_message(warning_view(*self).kind) is None,
            },
    {
        match &self.kind {
            WarningKind::DuplicateKey { key } => {
                let mut s = String::from_str("Duplicate key: '");
                s.append(key.as_str());
                s.append("'");
                Some(s)
            },
            WarningKind::ColumnType { column, expected, found } => {
                let mut s = String::from_str("Inconsistent type for column '");
                s.append(column.as_str());
                s.append("': expected '");
                s.append(expected.as_str());
                s.append("', found '");
                s.append(found.as_str());
                s.append("'");
                Some(s)
            },
            WarningKind::ArrayType { expected, found } => {
                let mut s = String::from_str("Inconsistent type in array: expected '");
                s.append(expected.as_str());
                s.append("', found '");
                s.append(found.as_str());
                s.append("'");
                Some(s)
            },
            WarningKind::EnvNotSet { name } => {
                let mut s = String::from_str("Environment variable '");
                s.append(name.as_str());
                s.append("' is not defined");
                Some(s)
            },
            WarningKind::Unresolved { path } => {
                let mut s = String::from_str("Unresolved reference: '");
                s.append(path.as_str());
                s.append("'");
                Some(s)
            },
            WarningKind::Cyclic { path } => {
                let mut s = String::from_str("Cyclic reference: '");
                s.append(path.as_str());
                s.append("'");
                Some(s)
            },
            _ => None,
        }
    }
}

/// The message a parse error is reported with: its kind's message, then
/// `: ` and the context when there is one.
pub open spec fn error_message_text(e: crate::parser::error::ErrView) -> Seq<char> {
    match e.context {
        Some(c) => e.kind.spec_message() + ": "@ + c,
        None => e.kind.spec_message(),
    }
}

/// The message a parse error is reported with.
pub fn error_message(error: &crate::parser::ParseError) -> (s: String)
    ensures
        s@ == error_message_text(error@),
{
    let mut s = String::from_str(error.kind.message());
    match &error.context {
        Some(c) => {
            s.append(": ");
            s.append(c.as_str());
        },
        None => {},
    }
    s
}

/// The model of a warning kind.
pub enum WarningKindView {
    DuplicateKey(Seq<char>),
    ColumnType(Seq<char>, NodeKind, NodeKind),
    ArrayType(NodeKind, NodeKind),
    UnsafeInteger(NumberView),
    FloatLiteral(Seq<char>),
    EnvNotSet(Seq<char>),
    Unresolved(Seq<char>),
    Cyclic(Seq<char>),
}

/// The model of a warning.
pub struct WarningView {
    pub span: Span,
    pub kind: WarningKindView,
}

pub open spec fn warning_view(w: DocumentWarning) -> WarningView {
    WarningView {
        span: w.span,
        kind: match w.kind {
            WarningKind::DuplicateKey { key } => WarningKindView::DuplicateKey(key@),
            WarningKind::ColumnType { column, expected, found } => WarningKindView::ColumnType(column@, expected, found),
            WarningKind::ArrayType { expected, found } => WarningKindView::ArrayType(expected, found),
            WarningKind::UnsafeInteger { value } => WarningKindView::UnsafeInteger(value@),
            WarningKind::FloatLiteral { text } => WarningKindView::FloatLiteral(text@),
            WarningKind::EnvNotSet { name } => WarningKindView::EnvNotSet(name@),
            WarningKind::Unresolved { path } => WarningKindView::Unresolved(path@),
            WarningKind::Cyclic { path } => WarningKindView::Cyclic(path@),
        },
    }
}

pub open spec fn warnings_view(s: Seq<DocumentWarning>) -> Seq<WarningView> {
    s.map_values(|w: DocumentWarning| warning_view(w))
}

// ---------------------------------------------------------------------------
// The warnings of a document
// ---------------------------------------------------------------------------

/// Whether one of `entries` has key `k`.
pub open spec fn has_key(entries: Seq<EntryView>, k: Seq<char>) -> bool {
    exists|j: int| 0 <= j < entries.len() && #[trigger] entries[j].key == k
}

/// Whether values of kind `k` take part in type checks (nulls and
/// references fit any type).
pub open spec fn is_typed(k: NodeKind) -> bool {
    k != NodeKind::Null && k != NodeKind::Reference
}

/// The kind of the first item that is neither null nor a reference.
pub open spec fn first_kind(items: Seq<NodeView>) -> Option<NodeKind>
    decreases items.len(),
{
    if items.len() == 0 {
        None
    } else {
        match first_kind(items.drop_last()) {
            Some(k) => Some(k),
            None => if is_typed(kind_of(items.last())) { Some(kind_of(items.last())) } else { None },
        }
    }
}

/// The warnings on the items of a list whose kind differs from the first
/// typed item's.
pub open spec fn list_warnings(items: Seq<NodeView>) -> Seq<WarningView>
    decreases items.len(),
{
    if items.len() == 0 {
        Seq::empty()
    } else {
        let k = kind_of(items.last());
        list_warnings(items.drop_last()) + match first_kind(items.drop_last()) {
            Some(e) => if is_typed(k) && e != k {
                seq![WarningView { span: view_span(items.last()), kind: WarningKindView::ArrayType(e, k) }]
            } else {
                Seq::empty()
            },
            None => Seq::empty(),
        }
    }
}

/// The cells of a table: the entries of its object rows, in order.
pub open spec fn table_cells(items: Seq<NodeView>) -> Seq<EntryView>
    decreases items.len(),
{
    if items.len() == 0 {
        Seq::empty()
    } else {
        table_cells(items.drop_last()) + match items.last() {
            NodeView::Object { entries, .. } => entries,
            _ => Seq::empty(),
        }
    }
}

/// The kind of the first cell of column `key` that is neither null nor a
/// reference.
pub open spec fn column_kind(cells: Seq<EntryView>, key: Seq<char>) -> Option<NodeKind>
    decreases cells.len(),
{
    if cells.len() == 0 {
        None
    } else {
        match column_kind(cells.drop_last(), key) {
            Some(k) => Some(k),
            None => {
                let c = cells.last();
                if c.key == key && is_typed(kind_of(c.value)) { Some(kind_of(c.value)) } else { None }
            },
        }
    }
}

/// The warnings on the cells whose kind differs from their column's.
pub open spec fn cell_warnings(cells: Seq<EntryView>) -> Seq<WarningView>
    decreases cells.len(),
{
    if cells.len() == 0 {
        Seq::empty()
    } else {
        let c = cells.last();
        let k = kind_of(c.value);
        cell_warnings(cells.drop_last()) + match column_kind(cells.drop_last(), c.key) {
            Some(e) => if is_typed(k) && e != k {
                seq![WarningView { span: view_span(c.value), kind: WarningKindView::ColumnType(c.key, e, k) }]
            } else {
                Seq::empty()
            },
            None => Seq::empty(),
        }
    }
}

/// The warning a reference gets: none when it resolves; else its unset
/// variable, the part of its path not found, or the cycle it is on.
pub open spec fn reference_warnings(path: Seq<char>, span: Span, root: NodeView, env: Seq<(Seq<char>, Seq<char>)>)
    -> Seq<WarningView> {
    match resolve_result(root, path, env) {
        Ok(_) => Seq::empty(),
        Err(ResolveErrorView::EnvNotSet(name)) => seq![WarningView { span, kind: WarningKindView::EnvNotSet(name) }],
        Err(ResolveErrorView::NotFound(p)) => seq![WarningView { span, kind: WarningKindView::Unresolved(p) }],
        Err(ResolveErrorView::Cycle(_)) => seq![WarningView { span, kind: WarningKindView::Cyclic(path) }],
    }
}

/// The warnings of a node, in document order.
pub open spec fn node_warnings(n: NodeView, root: NodeView, env: Seq<(Seq<char>, Seq<char>)>) -> Seq<WarningView>
    decreases n,
{
    match n {
        NodeView::Document { children, .. } => nodes_warnings(children, root, env),
        NodeView::Object { entries, .. } => entries_warnings(entries, root, env),
        NodeView::Array { items, form, .. } => (if form == ArrayForm::Tabular {
            cell_warnings(table_cells(items))
        } else {
            list_warnings(items)
        }) + nodes_warnings(items, root, env),
        NodeView::Number { value, span } => match value {
            NumberView::PosInt(v) => if v > MAX_SAFE_INTEGER {
                seq![WarningView { span, kind: WarningKindView::UnsafeInteger(value) }]
            } else {
                Seq::empty()
            },
            NumberView::NegInt(v) => if v < -9007199254740991 {
                seq![WarningView { span, kind: WarningKindView::UnsafeInteger(value) }]
            } else {
                Seq::empty()
            },
            NumberView::Float(t) => seq![WarningView { span, kind: WarningKindView::FloatLiteral(t) }],
        },
        NodeView::Reference { path, span, .. } => reference_warnings(path, span, root, env),
        _ => Seq::empty(),
    }
}

pub open spec fn nodes_warnings(s: Seq<NodeView>, root: NodeView, env: Seq<(Seq<char>, Seq<char>)>) -> Seq<WarningView>
    decreases s,
{
    if s.len() == 0 {
        Seq::empty()
    } else {
        nodes_warnings(s.drop_last(), root, env) + node_warnings(s.last(), root, env)
    }
}

pub open spec fn entries_warnings(s: Seq<EntryView>, root: NodeView, env: Seq<(Seq<char>, Seq<char>)>) -> Seq<WarningView>
    decreases s,
{
    if s.len() == 0 {
        Seq::empty()
    } else {
        entries_warnings(s.drop_last(), root, env) + (if has_key(s.drop_last(), s.last().key) {
            seq![WarningView { span: s.last().key_span, kind: WarningKindView::DuplicateKey(s.last().key) }]
        } else {
            Seq::empty()
        }) + node_warnings(s.last().value, root, env)
    }
}

// ---------------------------------------------------------------------------
// Computing them
// ---------------------------------------------------------------------------

/// The kind a column table maps a key to: its first pair with that key.
pub open spec fn col_lookup(cols: Seq<(String, NodeKind)>, key: Seq<char>) -> Option<NodeKind>
    decreases cols.len(),
{
    if cols.len() == 0 {
        None
    } else {
        match col_lookup(cols.drop_last(), key) {
            Some(k) => Some(k),
            None => if cols.last().0@ == key { Some(cols.last().1) } else { None },
        }
    }
}

/// The warnings of a document, in document order; references are resolved
/// against the document and the environment `env`.
pub fn validate_document(ast: &AstNode, env: &Vec<(String, String)>) -> (ws: Vec<DocumentWarning>)
    ensures
        warnings_view(ws@) == node_warnings(node_view(*ast), node_view(*ast), env_view(env@)),
{
    let mut ws: Vec<DocumentWarning> = Vec::new();
    validate_node(ast, &mut ws, ast, env);
    proof {
        assert(warnings_view(ws@) =~= Seq::<WarningView>::empty() + node_warnings(node_view(*ast), node_view(*ast), env_view(env@)));
    }
    ws
}

fn push_warning(ws: &mut Vec<DocumentWarning>, w: DocumentWarning)
    ensures
        warnings_view(final(ws)@) == warnings_view(old(ws)@).push(warning_view(w)),
{
    ws.push(w);
    proof {
        assert(warnings_view(final(ws)@) =~= warnings_view(old(ws)@).push(warning_view(w)));
    }
}

fn validate_node(node: &AstNode, ws: &mut Vec<DocumentWarning>, root: &AstNode, env: &Vec<(String, String)>)
    ensures
        warnings_view(final(ws)@) == warnings_view(old(ws)@) + node_warnings(node_view(*node), node_view(*root), env_view(env@)),
    decreases node,
{
    let ghost w0 = warnings_view(ws@);
    match node {
        AstNode::Document { children, .. } => validate_nodes(children, ws, root, env),
        AstNode::Object { entries, .. } => validate_entries(entries, ws, root, env),
        AstNode::Array { items, form, .. } => {
            if *form == ArrayForm::Tabular {
                check_table(items, ws);
            } else {
                check_list(items, ws);
            }
            let ghost w1 = warnings_view(ws@);
            validate_nodes(items, ws, root, env);
            proof {
                assert(warnings_view(ws@) =~= w0 + node_warnings(node_view(*node), node_view(*root), env_view(env@)));
            }
        },
        AstNode::Number { value, span } => {
            match value {
                NumberValue::PosInt(n) => {
                    if *n > MAX_SAFE_INTEGER {
                        push_warning(ws, DocumentWarning { span: *span, kind: WarningKind::UnsafeInteger { value: NumberValue::PosInt(*n) } });
                    }
                },
                NumberValue::NegInt(n) => {
                    if *n < -9007199254740991i64 {
                        push_warning(ws, DocumentWarning { span: *span, kind: WarningKind::UnsafeInteger { value: NumberValue::NegInt(*n) } });
                    }
                },
                NumberValue::Float(t) => {
                    push_warning(ws, DocumentWarning { span: *span, kind: WarningKind::FloatLiteral { text: t.clone() } });
                },
            }
            proof {
                assert(warnings_view(ws@) =~= w0 + node_warnings(node_view(*node), node_view(*root), env_view(env@)));
            }
        },
        AstNode::Reference { path, span, .. } => {
            match resolve(root, path.as_str(), env) {
                Ok(_) => {},
                Err(ResolveError::EnvNotSet(name)) => {
                    push_warning(ws, DocumentWarning { span: *span, kind: WarningKind::EnvNotSet { name } });
                },
                Err(ResolveError::NotFound(p)) => {
                    push_warning(ws, DocumentWarning { span: *span, kind: WarningKind::Unresolved { path: p } });
                },
                Err(ResolveError::Cycle(_)) => {
                    push_warning(ws, DocumentWarning { span: *span, kind: WarningKind::Cyclic { path: path.clone() } });
                },
            }
            proof {
                assert(warnings_view(ws@) =~= w0 + node_warnings(node_view(*node), node_view(*root), env_view(env@)));
            }
        },
        _ => {
            proof {
                assert(warnings_view(ws@) =~= w0 + node_warnings(node_view(*node), node_view(*root), env_view(env@)));
            }
        },
    }
}

/// The message of an unsafe-number warning, given the number as the double
/// renders it.
pub open spec fn unsafe_number_text(rendering: Seq<char>) -> Seq<char> {
    "Number "@ + rendering + " exceeds safe JavaScript/JSON integer limits (2^53 - 1) and may lose precision"@
}

/// The message of an unsafe-number warning (the integer or float literal
/// beyond 2^53 - 1), given the number rendered as a double.
pub fn unsafe_number_message(rendering: &str) -> (s: String)
    ensures
        s@ == unsafe_number_text(rendering@),
{
    let mut s = String::from_str("Number ");
    s.append(rendering);
    s.append(" exceeds safe JavaScript/JSON integer limits (2^53 - 1) and may lose precision");
    s
}

fn validate_nodes(nodes: &Vec<AstNode>, ws: &mut Vec<DocumentWarning>, root: &AstNode, env: &Vec<(String, String)>)
    ensures
        warnings_view(final(ws)@) == warnings_view(old(ws)@) + nodes_warnings(nodes_view(nodes@), node_view(*root), env_view(env@)),
    decreases nodes,
{
    let mut i: usize = 0;
    proof {
        assert(nodes_view(nodes@.take(0)) =~= Seq::<NodeView>::empty());
        assert(warnings_view(ws@) =~= warnings_view(old(ws)@) + nodes_warnings(nodes_view(nodes@.take(0)), node_view(*root), env_view(env@)));
    }
    while i < nodes.len()
        invariant
            0 <= i <= nodes.len(),
            warnings_view(ws@) == warnings_view(old(ws)@) + nodes_warnings(nodes_view(nodes@.take(i as int)), node_view(*root), env_view(env@)),
        decreases nodes.len() - i,
    {
        proof {
            assert(nodes@.take(i + 1) =~= nodes@.take(i as int).push(nodes@[i as int]));
            lemma_nodes_view_push(nodes@.take(i as int), nodes@[i as int]);
            assert(nodes_view(nodes@.take(i + 1)).drop_last() =~= nodes_view(nodes@.take(i as int)));
        }
        let ghost before = warnings_view(ws@);
        validate_node(&nodes[i], ws, root, env);
        proof {
            assert(warnings_view(ws@) =~= warnings_view(old(ws)@) + nodes_warnings(nodes_view(nodes@.take(i + 1)), node_view(*root), env_view(env@)));
        }
        i += 1;
    }
    proof {
        assert(nodes@.take(nodes.len() as int) =~= nodes@);
    }
}

fn validate_entries(entries: &Vec<ObjectEntry>, ws: &mut Vec<DocumentWarning>, root: &AstNode, env: &Vec<(String, String)>)
    ensures
        warnings_view(final(ws)@) == warnings_view(old(ws)@) + entries_warnings(entries_view(entries@), node_view(*root), env_view(env@)),
    decreases entries,
{
    let mut i: usize = 0;
    proof {
        assert(entries_view(entries@.take(0)) =~= Seq::<EntryView>::empty());
        assert(warnings_view(ws@) =~= warnings_view(old(ws)@) + entries_warnings(entries_view(entries@.take(0)), node_view(*root), env_view(env@)));
    }
    while i < entries.len()
        invariant
            0 <= i <= entries.len(),
            warnings_view(ws@) == warnings_view(old(ws)@) + entries_warnings(entries_view(entries@.take(i as int)), node_view(*root), env_view(env@)),
        decreases entries.len() - i,
    {
        let ghost prefix = entries_view(entries@.take(i as int));
        proof {
            assert(entries@.take(i + 1) =~= entries@.take(i as int).push(entries@[i as int]));
            lemma_entries_view_push(entries@.take(i as int), entries@[i as int]);
            assert(entries_view(entries@.take(i + 1)).drop_last() =~= prefix);
            crate::ast::node::lemma_entries_view_len(entries@.take(i as int));
        }
        let entry = &entries[i];
        // Was the key seen before?
        let mut seen = false;
        let mut j: usize = 0;
        while j < i
            invariant
                0 <= j <= i < entries.len(),
                prefix == entries_view(entries@.take(i as int)),
                prefix.len() == i,
                entry.key@ == entries@[i as int].key@,
                seen == exists|m: int| 0 <= m < j && #[trigger] prefix[m].key == entries@[i as int].key@,
            decreases i - j,
        {
            proof {
                lemma_entry_view_index(entries@.take(i as int), j as int);
                assert(entries@.take(i as int)[j as int] == entries@[j as int]);
                assert(prefix[j as int].key == entries@[j as int].key@);
            }
            let same = entries[j].key == entry.key;
            if same {
                seen = true;
            }
            proof {
                assert(same == (prefix[j as int].key == entries@[i as int].key@));
                if same {
                    assert(prefix[j as int].key == entries@[i as int].key@);
                }
            }
            j += 1;
        }
        let ghost before = warnings_view(ws@);
        if seen {
            push_warning(ws, DocumentWarning { span: entry.key_span, kind: WarningKind::DuplicateKey { key: entry.key.clone() } });
        }
        let ghost mid = warnings_view(ws@);
        validate_node(&entry.value, ws, root, env);
        proof {
            assert(has_key(prefix, entries@[i as int].key@) == seen);
            assert(warnings_view(ws@) =~= warnings_view(old(ws)@) + entries_warnings(entries_view(entries@.take(i + 1)), node_view(*root), env_view(env@)));
        }
        i += 1;
    }
    proof {
        assert(entries@.take(entries.len() as int) =~= entries@);
    }
}

proof fn lemma_entry_view_index(s: Seq<ObjectEntry>, j: int)
    requires
        0 <= j < s.len(),
    ensures
        entries_view(s)[j] == crate::ast::node::entry_view(s[j]),
    decreases s.len(),
{
    crate::ast::node::lemma_entries_view_len(s.drop_last());
    if j < s.len() - 1 {
        assert(s.drop_last()[j] == s[j]);
        lemma_entry_view_index(s.drop_last(), j);
    }
}

proof fn lemma_node_view_index(s: Seq<AstNode>, j: int)
    requires
        0 <= j < s.len(),
    ensures
        nodes_view(s)[j] == node_view(s[j]),
    decreases s.len(),
{
    crate::ast::node::lemma_nodes_view_len(s.drop_last());
    if j < s.len() - 1 {
        assert(s.drop_last()[j] == s[j]);
        lemma_node_view_index(s.drop_last(), j);
    }
}

proof fn lemma_view_span(n: AstNode)
    ensures
        view_span(node_view(n)) == n.spec_span(),
{
}

fn check_list(items: &Vec<AstNode>, ws: &mut Vec<DocumentWarning>)
    ensures
        warnings_view(final(ws)@) == warnings_view(old(ws)@) + list_warnings(nodes_view(items@)),
{
    let mut expected: Option<NodeKind> = None;
    let mut i: usize = 0;
    proof {
        assert(nodes_view(items@.take(0)) =~= Seq::<NodeView>::empty());
        assert(warnings_view(ws@) =~= warnings_view(old(ws)@) + list_warnings(nodes_view(items@.take(0))));
    }
    while i < items.len()
        invariant
            0 <= i <= items.len(),
            expected == first_kind(nodes_view(items@.take(i as int))),
            warnings_view(ws@) == warnings_view(old(ws)@) + list_warnings(nodes_view(items@.take(i as int))),
        decreases items.len() - i,
    {
        let ghost prefix = nodes_view(items@.take(i as int));
        proof {
            assert(items@.take(i + 1) =~= items@.take(i as int).push(items@[i as int]));
            lemma_nodes_view_push(items@.take(i as int), items@[i as int]);
            assert(nodes_view(items@.take(i + 1)).drop_last() =~= prefix);
            lemma_view_span(items@[i as int]);
        }
        let item = &items[i];
        let item_type = node_kind(item);
        let ghost before = warnings_view(ws@);
        if item_type != NodeKind::Null && item_type != NodeKind::Reference {
            match expected {
                Some(exp_type) => {
                    if exp_type != item_type {
                        push_warning(ws, DocumentWarning {
                            span: item.span(),
                            kind: WarningKind::ArrayType { expected: exp_type, found: item_type },
                        });
                    }
                },
                None => {
                    expected = Some(item_type);
                },
            }
        }
        proof {
            assert(warnings_view(ws@) =~= warnings_view(old(ws)@) + list_warnings(nodes_view(items@.take(i + 1))));
        }
        i += 1;
    }
    proof {
        assert(items@.take(items.len() as int) =~= items@);
    }
}

/// The kind column `key` has so far, if any.
fn find_column(cols: &Vec<(String, NodeKind)>, key: &String) -> (r: Option<NodeKind>)
    ensures
        r == col_lookup(cols@, key@),
{
    let mut i: usize = 0;
    while i < cols.len()
        invariant
            0 <= i <= cols.len(),
            col_lookup(cols@.take(i as int), key@) is None,
        decreases cols.len() - i,
    {
        proof {
            assert(cols@.take(i + 1).drop_last() =~= cols@.take(i as int));
        }
        if cols[i].0 == *key {
            proof {
                lemma_col_lookup_prefix(cols@, i + 1, key@);
            }
            return Some(cols[i].1);
        }
        i += 1;
    }
    proof {
        assert(cols@.take(cols.len() as int) =~= cols@);
    }
    None
}

proof fn lemma_col_lookup_prefix(cols: Seq<(String, NodeKind)>, n: int, key: Seq<char>)
    requires
        0 <= n <= cols.len(),
        col_lookup(cols.take(n), key) is Some,
    ensures
        col_lookup(cols, key) == col_lookup(cols.take(n), key),
    decreases cols.len() - n,
{
    if n < cols.len() {
        assert(cols.take(n + 1).drop_last() =~= cols.take(n));
        lemma_col_lookup_prefix(cols, n + 1, key);
    } else {
        assert(cols.take(n) =~= cols);
    }
}

fn check_table(items: &Vec<AstNode>, ws: &mut Vec<DocumentWarning>)
    ensures
        warnings_view(final(ws)@) == warnings_view(old(ws)@) + cell_warnings(table_cells(nodes_view(items@))),
{
    let mut cols: Vec<(String, NodeKind)> = Vec::new();
    let mut i: usize = 0;
    proof {
        assert(nodes_view(items@.take(0)) =~= Seq::<NodeView>::empty());
        assert(warnings_view(ws@) =~= warnings_view(old(ws)@) + cell_warnings(table_cells(nodes_view(items@.take(0)))));
    }
    while i < items.len()
        invariant
            0 <= i <= items.len(),
            forall|key: Seq<char>| #[trigger] col_lookup(cols@, key) == column_kind(table_cells(nodes_view(items@.take(i as int))), key),
            warnings_view(ws@) == warnings_view(old(ws)@) + cell_warnings(table_cells(nodes_view(items@.take(i as int)))),
        decreases items.len() - i,
    {
        let ghost prefix = nodes_view(items@.take(i as int));
        proof {
            assert(items@.take(i + 1) =~= items@.take(i as int).push(items@[i as int]));
            lemma_nodes_view_push(items@.take(i as int), items@[i as int]);
            assert(nodes_view(items@.take(i + 1)).drop_last() =~= prefix);
        }
        match &items[i] {
            AstNode::Object { entries, .. } => {
                let ghost done = table_cells(prefix);
                let mut j: usize = 0;
                proof {
                    assert(entries_view(entries@.take(0)) =~= Seq::<EntryView>::empty());
                    assert(done + entries_view(entries@.take(0)) =~= done);
                }
                while j < entries.len()
                    invariant
                        0 <= j <= entries.len(),
                        forall|key: Seq<char>| #[trigger] col_lookup(cols@, key) == column_kind(done + entries_view(entries@.take(j as int)), key),
                        warnings_view(ws@) == warnings_view(old(ws)@) + cell_warnings(done + entries_view(entries@.take(j as int))),
                    decreases entries.len() - j,
                {
                    let ghost processed = done + entries_view(entries@.take(j as int));
                    proof {
                        assert(entries@.take(j + 1) =~= entries@.take(j as int).push(entries@[j as int]));
                        lemma_entries_view_push(entries@.take(j as int), entries@[j as int]);
                        assert(done + entries_view(entries@.take(j + 1)) =~= processed.push(crate::ast::node::entry_view(entries@[j as int])));
                        assert(processed.push(crate::ast::node::entry_view(entries@[j as int])).drop_last() =~= processed);
                        lemma_view_span(entries@[j as int].value);
                    }
                    let entry = &entries[j];
                    let cell_type = node_kind(&entry.value);
                    let ghost c0 = cols@;
                    if cell_type != NodeKind::Null && cell_type != NodeKind::Reference {
                        match find_column(&cols, &entry.key) {
                            Some(expected_type) => {
                                if expected_type != cell_type {
                                    push_warning(ws, DocumentWarning {
                                        span: entry.value.span(),
                                        kind: WarningKind::ColumnType {
                                            column: entry.key.clone(),
                                            expected: expected_type,
                                            found: cell_type,
                                        },
                                    });
                                }
                            },
                            None => {
                                cols.push((entry.key.clone(), cell_type));
                                proof {
                                    assert(cols@.drop_last() =~= c0);
                                }
                            },
                        }
                    }
                    proof {
                        let next = processed.push(crate::ast::node::entry_view(entries@[j as int]));
                        assert forall|key: Seq<char>| #[trigger] col_lookup(cols@, key) == column_kind(next, key) by {
                            assert(col_lookup(c0, key) == column_kind(processed, key));
                        }
                        assert(warnings_view(ws@) =~= warnings_view(old(ws)@) + cell_warnings(next));
                    }
                    j += 1;
                }
                proof {
                    assert(entries@.take(entries.len() as int) =~= entries@);
                    assert(table_cells(nodes_view(items@.take(i + 1))) =~= done + entries_view(entries@));
                }
            },
            _ => {
                proof {
                    assert(table_cells(nodes_view(items@.take(i + 1))) =~= table_cells(prefix));
                }
            },
        }
        i += 1;
    }
    proof {
        assert(items@.take(items.len() as int) =~= items@);
    }
}

/// The entries of a row of a table (none for an item that is not an object).
pub open spec fn row_entries(n: NodeView) -> Seq<EntryView> {
    match n {
        NodeView::Object { entries, .. } => entries,
        _ => Seq::empty(),
    }
}

proof fn lemma_table_cells_concat(a: Seq<NodeView>, b: Seq<NodeView>)
    ensures
        table_cells(a + b) == table_cells(a) + table_cells(b),
    decreases b.len(),
{
    if b.len() == 0 {
        assert(a + b =~= a);
        assert(table_cells(a) + table_cells(b) =~= table_cells(a));
    } else {
        lemma_table_cells_concat(a, b.drop_last());
        assert((a + b).drop_last() =~= a + b.drop_last());
        assert((a + b).last() == b.last());
        let r = row_entries(b.last());
        assert(table_cells(a + b) == table_cells(a + b.drop_last()) + r);
        assert(table_cells(b) == table_cells(b.drop_last()) + r);
        assert(table_cells(a) + table_cells(b.drop_last()) + r =~= table_cells(a) + (table_cells(b.drop_last()) + r));
    }
}

/// Where cell `x` of row `a` stands among the cells of a table.
proof fn lemma_cell_position(items: Seq<NodeView>, a: int, x: int)
    requires
        0 <= a < items.len(),
        0 <= x < row_entries(items[a]).len(),
    ensures
        table_cells(items.take(a)).len() + x < table_cells(items).len(),
        table_cells(items)[table_cells(items.take(a)).len() + x] == row_entries(items[a])[x],
        table_cells(items.take(a + 1)).len() == table_cells(items.take(a)).len() + row_entries(items[a]).len(),
{
    assert(items.take(a + 1).drop_last() =~= items.take(a));
    assert(items.take(a + 1).last() == items[a]);
    assert(items =~= items.take(a + 1) + items.skip(a + 1));
    lemma_table_cells_concat(items.take(a + 1), items.skip(a + 1));
    let c = table_cells(items);
    let p = table_cells(items.take(a)).len() + x;
    assert(c[p] == table_cells(items.take(a + 1))[p]);
}

proof fn lemma_table_cells_grow(items: Seq<NodeView>, a: int, b: int)
    requires
        0 <= a <= b <= items.len(),
    ensures
        table_cells(items.take(a)).len() <= table_cells(items.take(b)).len(),
{
    assert(items.take(b) =~= items.take(a) + items.subrange(a, b));
    lemma_table_cells_concat(items.take(a), items.subrange(a, b));
}

proof fn lemma_cell_warnings_grow(cells: Seq<EntryView>, n: int, w: WarningView)
    requires
        0 <= n <= cells.len(),
        cell_warnings(cells.take(n)).contains(w),
    ensures
        cell_warnings(cells).contains(w),
    decreases cells.len() - n,
{
    if n < cells.len() {
        let t = cell_warnings(cells.take(n));
        assert(cells.take(n + 1).drop_last() =~= cells.take(n));
        let u = cell_warnings(cells.take(n + 1));
        let k = choose|k: int| 0 <= k < t.len() && t[k] == w;
        assert(u[k] == t[k]);
        lemma_cell_warnings_grow(cells, n + 1, w);
    } else {
        assert(cells.take(n) =~= cells);
    }
}

proof fn lemma_column_found(cells: Seq<EntryView>, i: int, j: int)
    requires
        0 <= i < j <= cells.len(),
        is_typed(kind_of(cells[i].value)),
    ensures
        column_kind(cells.take(j), cells[i].key) is Some,
    decreases j,
{
    assert(cells.take(j).drop_last() =~= cells.take(j - 1));
    assert(cells.take(j).last() == cells[j - 1]);
    if j > i + 1 {
        lemma_column_found(cells, i, j - 1);
    }
}

proof fn lemma_column_stable(cells: Seq<EntryView>, k: Seq<char>, n: int, m: int)
    requires
        0 <= n <= m <= cells.len(),
        column_kind(cells.take(n), k) is Some,
    ensures
        column_kind(cells.take(m), k) == column_kind(cells.take(n), k),
    decreases m - n,
{
    if m > n {
        lemma_column_stable(cells, k, n, m - 1);
        assert(cells.take(m).drop_last() =~= cells.take(m - 1));
    }
}

/// The warning at cell `j` when its column already has a different kind.
proof fn lemma_cell_warned(cells: Seq<EntryView>, j: int)
    requires
        0 <= j < cells.len(),
        column_kind(cells.take(j), cells[j].key) matches Some(e) && e != kind_of(cells[j].value),
        is_typed(kind_of(cells[j].value)),
    ensures
        cell_warnings(cells).contains(
            WarningView {
                span: view_span(cells[j].value),
                kind: WarningKindView::ColumnType(
                    cells[j].key,
                    column_kind(cells.take(j), cells[j].key).unwrap(),
                    kind_of(cells[j].value),
                ),
            },
        ),
{
    let w = WarningView {
        span: view_span(cells[j].value),
        kind: WarningKindView::ColumnType(
            cells[j].key,
            column_kind(cells.take(j), cells[j].key).unwrap(),
            kind_of(cells[j].value),
        ),
    };
    assert(cells.take(j + 1).drop_last() =~= cells.take(j));
    assert(cells.take(j + 1).last() == cells[j]);
    let t = cell_warnings(cells.take(j + 1));
    assert(t.last() == w);
    assert(t.contains(w));
    lemma_cell_warnings_grow(cells, j + 1, w);
}

/// Two typed cells of one column that differ in kind give a warning for
/// that column, of two differing typed kinds.
proof fn lemma_cells_conflict(cells: Seq<EntryView>, i: int, j: int)
    requires
        0 <= i < j < cells.len(),
        cells[i].key == cells[j].key,
        is_typed(kind_of(cells[i].value)),
        is_typed(kind_of(cells[j].value)),
        kind_of(cells[i].value) != kind_of(cells[j].value),
    ensures
        exists|w: WarningView|
            #[trigger] cell_warnings(cells).contains(w) && (w.kind matches WarningKindView::ColumnType(c, e, f)
                && c == cells[i].key && e != f && is_typed(e) && is_typed(f)),
{
    let k = cells[i].key;
    lemma_column_found(cells, i, j);
    let e = column_kind(cells.take(j), k).unwrap();
    lemma_column_kind_typed(cells.take(j), k);
    if e != kind_of(cells[j].value) {
        lemma_cell_warned(cells, j);
    } else {
        match column_kind(cells.take(i), k) {
            None => {
                assert(cells.take(i + 1).drop_last() =~= cells.take(i));
                assert(cells.take(i + 1).last() == cells[i]);
                lemma_column_stable(cells, k, i + 1, j);
            },
            Some(e1) => {
                lemma_column_stable(cells, k, i, j);
                lemma_cell_warned(cells, i);
            },
        }
    }
}

proof fn lemma_column_kind_typed(cells: Seq<EntryView>, k: Seq<char>)
    ensures
        column_kind(cells, k) matches Some(e) ==> is_typed(e),
    decreases cells.len(),
{
    if cells.len() > 0 {
        lemma_column_kind_typed(cells.drop_last(), k);
    }
}

/// In a tabular array, two typed cells (neither null nor a reference) of
/// one column whose kinds differ always draw a column-type warning for that
/// column, naming two differing kinds. Cell `x` of row `a` comes before
/// cell `y` of row `b` in the table.
pub proof fn lemma_table_column_conflict_warns(
    items: Seq<NodeView>,
    span: Span,
    root: NodeView,
    env: Seq<(Seq<char>, Seq<char>)>,
    a: int,
    x: int,
    b: int,
    y: int,
)
    requires
        0 <= a < items.len(),
        0 <= b < items.len(),
        a < b || (a == b && x < y),
        0 <= x < row_entries(items[a]).len(),
        0 <= y < row_entries(items[b]).len(),
        row_entries(items[a])[x].key == row_entries(items[b])[y].key,
        kind_of(row_entries(items[a])[x].value) != NodeKind::Null,
        kind_of(row_entries(items[a])[x].value) != NodeKind::Reference,
        kind_of(row_entries(items[b])[y].value) != NodeKind::Null,
        kind_of(row_entries(items[b])[y].value) != NodeKind::Reference,
        kind_of(row_entries(items[a])[x].value) != kind_of(row_entries(items[b])[y].value),
    ensures
        exists|w: WarningView|
            #[trigger] node_warnings(NodeView::Array { items, form: ArrayForm::Tabular, span }, root, env).contains(w)
                && (w.kind matches WarningKindView::ColumnType(c, e, f) && c == row_entries(items[a])[x].key && e
                != f),
{
    let cells = table_cells(items);
    lemma_cell_position(items, a, x);
    lemma_cell_position(items, b, y);
    let i = table_cells(items.take(a)).len() + x;
    let j = table_cells(items.take(b)).len() + y;
    if a < b {
        lemma_table_cells_grow(items, a + 1, b);
    }
    assert(i < j);
    lemma_cells_conflict(cells, i, j);
    let w = choose|w: WarningView|
        #[trigger] cell_warnings(cells).contains(w) && (w.kind matches WarningKindView::ColumnType(c, e, f) && c
            == cells[i].key && e != f && is_typed(e) && is_typed(f));
    let all = node_warnings(NodeView::Array { items, form: ArrayForm::Tabular, span }, root, env);
    assert(all == cell_warnings(cells) + nodes_warnings(items, root, env));
    let q = choose|q: int| 0 <= q < cell_warnings(cells).len() && cell_warnings(cells)[q] == w;
    assert(all[q] == w);
    assert(all.contains(w));
}

proof fn lemma_list_warnings_grow(items: Seq<NodeView>, n: int, w: WarningView)
    requires
        0 <= n <= items.len(),
        list_warnings(items.take(n)).contains(w),
    ensures
        list_warnings(items).contains(w),
    decreases items.len() - n,
{
    if n < items.len() {
        let t = list_warnings(items.take(n));
        assert(items.take(n + 1).drop_last() =~= items.take(n));
        let u = list_warnings(items.take(n + 1));
        let k = choose|k: int| 0 <= k < t.len() && t[k] == w;
        assert(u[k] == t[k]);
        lemma_list_warnings_grow(items, n + 1, w);
    } else {
        assert(items.take(n) =~= items);
    }
}

proof fn lemma_first_kind_found(items: Seq<NodeView>, i: int, j: int)
    requires
        0 <= i < j <= items.len(),
        is_typed(kind_of(items[i])),
    ensures
        first_kind(items.take(j)) is Some,
    decreases j,
{
    assert(items.take(j).drop_last() =~= items.take(j - 1));
    assert(items.take(j).last() == items[j - 1]);
    if j > i + 1 {
        lemma_first_kind_found(items, i, j - 1);
    }
}

proof fn lemma_first_kind_stable(items: Seq<NodeView>, n: int, m: int)
    requires
        0 <= n <= m <= items.len(),
        first_kind(items.take(n)) is Some,
    ensures
        first_kind(items.take(m)) == first_kind(items.take(n)),
    decreases m - n,
{
    if m > n {
        lemma_first_kind_stable(items, n, m - 1);
        assert(items.take(m).drop_last() =~= items.take(m - 1));
    }
}

proof fn lemma_first_kind_typed(items: Seq<NodeView>)
    ensures
        first_kind(items) matches Some(e) ==> is_typed(e),
    decreases items.len(),
{
    if items.len() > 0 {
        lemma_first_kind_typed(items.drop_last());
    }
}

proof fn lemma_item_warned(items: Seq<NodeView>, j: int)
    requires
        0 <= j < items.len(),
        first_kind(items.take(j)) matches Some(e) && e != kind_of(items[j]),
        is_typed(kind_of(items[j])),
    ensures
        list_warnings(items).contains(
            WarningView {
                span: view_span(items[j]),
                kind: WarningKindView::ArrayType(first_kind(items.take(j)).unwrap(), kind_of(items[j])),
            },
        ),
{
    let w = WarningView {
        span: view_span(items[j]),
        kind: WarningKindView::ArrayType(first_kind(items.take(j)).unwrap(), kind_of(items[j])),
    };
    assert(items.take(j + 1).drop_last() =~= items.take(j));
    assert(items.take(j + 1).last() == items[j]);
    let t = list_warnings(items.take(j + 1));
    assert(t.last() == w);
    assert(t.contains(w));
    lemma_list_warnings_grow(items, j + 1, w);
}

/// In an array that is not tabular, two typed items (neither null nor a
/// reference) whose kinds differ always draw an array-type warning naming
/// two differing kinds.
pub proof fn lemma_list_type_conflict_warns(
    items: Seq<NodeView>,
    form: ArrayForm,
    span: Span,
    root: NodeView,
    env: Seq<(Seq<char>, Seq<char>)>,
    i: int,
    j: int,
)
    requires
        form != ArrayForm::Tabular,
        0 <= i < j < items.len(),
        kind_of(items[i]) != NodeKind::Null,
        kind_of(items[i]) != NodeKind::Reference,
        kind_of(items[j]) != NodeKind::Null,
        kind_of(items[j]) != NodeKind::Reference,
        kind_of(items[i]) != kind_of(items[j]),
    ensures
        exists|w: WarningView|
            #[trigger] node_warnings(NodeView::Array { items, form, span }, root, env).contains(w)
                && (w.kind matches WarningKindView::ArrayType(e, f) && e != f),
{
    lemma_first_kind_found(items, i, j);
    let e = first_kind(items.take(j)).unwrap();
    let target = if e != kind_of(items[j]) {
        lemma_item_warned(items, j);
        WarningView { span: view_span(items[j]), kind: WarningKindView::ArrayType(e, kind_of(items[j])) }
    } else {
        match first_kind(items.take(i)) {
            None => {
                assert(items.take(i + 1).drop_last() =~= items.take(i));
                assert(items.take(i + 1).last() == items[i]);
                lemma_first_kind_stable(items, i + 1, j);
                WarningView { span: view_span(items[i]), kind: WarningKindView::ArrayType(e, kind_of(items[i])) }
            },
            Some(e1) => {
                lemma_first_kind_stable(items, i, j);
                lemma_item_warned(items, i);
                WarningView { span: view_span(items[i]), kind: WarningKindView::ArrayType(e1, kind_of(items[i])) }
            },
        }
    };
    let lw = list_warnings(items);
    let all = node_warnings(NodeView::Array { items, form, span }, root, env);
    assert(all == lw + nodes_warnings(items, root, env));
    let q = choose|q: int| 0 <= q < lw.len() && lw[q] == target;
    assert(all[q] == target);
    assert(all.contains(target));
    assert(target.kind matches WarningKindView::ArrayType(x, y) && x != y);
}

} // verus!
