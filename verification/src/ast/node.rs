//! AST node types for TOON documents.
use super::span::Span;
use vstd::prelude::*;

verus! {

/// Array presentation form in the source document.
#[derive(Debug, Clone, Copy, PartialEq, Eq, Structural)]
pub enum ArrayForm {
    /// Inline form: `key[3]: a,b,c`
    Inline,
    /// Expanded form with one dash-prefixed item per line
    Expanded,
    /// Tabular form: `key[2]{f1,f2}:` followed by rows
    Tabular,
}

/// A numeric value in TOON.
#[derive(Debug, Clone, PartialEq)]
pub enum NumberValue {
    /// Non-negative integer literal
    PosInt(u64),
    /// Negative (or `-0`) integer literal
    NegInt(i64),
    /// Floating-point literal, kept as its source text. The text always matches
    /// `-?D+(.D+)?([eE][+-]?D+)?` (D a decimal digit), every one of which Rust's
    /// `f64` parser accepts.
    Float(String),
}

/// An AST node in a TOON document; each variant carries its source span.
#[derive(Debug, PartialEq)]
pub enum AstNode {
    /// A TOON document (root node)
    Document { children: Vec<AstNode>, span: Span },
    /// An object (key-value pairs)
    Object { entries: Vec<ObjectEntry>, span: Span },
    /// An array
    Array { items: Vec<AstNode>, form: ArrayForm, span: Span },
    /// A string value
    String { value: String, span: Span },
    /// A number value
    Number { value: NumberValue, span: Span },
    /// A boolean value
    Bool { value: bool, span: Span },
    /// A null value
    Null { span: Span },
    /// A reference `${path}`, or `${env:VAR}` to an environment variable:
    /// the text between the braces, and whether it names a variable
    Reference { path: String, is_env: bool, span: Span },
}

/// An entry in a TOON object.
#[derive(Debug, PartialEq)]
pub struct ObjectEntry {
    /// The key
    pub key: String,
    /// Span of the key
    pub key_span: Span,
    /// The value
    pub value: AstNode,
}

impl AstNode {
    /// The span a node carries.
    pub open spec fn spec_span(self) -> Span {
        match self {
            AstNode::Document { span, .. } => span,
            AstNode::Object { span, .. } => span,
            AstNode::Array { span, .. } => span,
            AstNode::String { span, .. } => span,
            AstNode::Number { span, .. } => span,
            AstNode::Bool { span, .. } => span,
            AstNode::Null { span } => span,
            AstNode::Reference { span, .. } => span,
        }
    }

    /// The name of a node's kind.
    pub open spec fn spec_kind(self) -> Seq<char> {
        match self {
            AstNode::Document { .. } => "document"@,
            AstNode::Object { .. } => "object"@,
            AstNode::Array { .. } => "array"@,
            AstNode::String { .. } => "string"@,
            AstNode::Number { .. } => "number"@,
            AstNode::Bool { .. } => "bool"@,
            AstNode::Null { .. } => "null"@,
            AstNode::Reference { .. } => "reference"@,
        }
    }

    /// Get the span of this node.
    pub fn span(&self) -> (s: Span)
        ensures
            s == self.spec_span(),
    {
        match self {
            AstNode::Document { span, .. } => *span,
            AstNode::Object { span, .. } => *span,
            AstNode::Array { span, .. } => *span,
            AstNode::String { span, .. } => *span,
            AstNode::Number { span, .. } => *span,
            AstNode::Bool { span, .. } => *span,
            AstNode::Null { span } => *span,
            AstNode::Reference { span, .. } => *span,
        }
    }

    /// Get the kind of this node as a string.
    pub fn kind(&self) -> (k: &'static str)
        ensures
            k@ == self.spec_kind(),
    {
        match self {
            AstNode::Document { .. } => "document",
            AstNode::Object { .. } => "object",
            AstNode::Array { .. } => "array",
            AstNode::String { .. } => "string",
            AstNode::Number { .. } => "number",
            AstNode::Bool { .. } => "bool",
            AstNode::Null { .. } => "null",
            AstNode::Reference { .. } => "reference",
        }
    }
}


/// The model of a number value.
pub enum NumberView {
    PosInt(u64),
    NegInt(i64),
    Float(Seq<char>),
}

/// The model of an AST node: strings as character sequences.
pub enum NodeView {
    Document { children: Seq<NodeView>, span: Span },
    Object { entries: Seq<EntryView>, span: Span },
    Array { items: Seq<NodeView>, form: ArrayForm, span: Span },
    Str { value: Seq<char>, span: Span },
    Number { value: NumberView, span: Span },
    Bool { value: bool, span: Span },
    Null { span: Span },
    Reference { path: Seq<char>, is_env: bool, span: Span },
}

/// The model of an object entry.
pub struct EntryView {
    pub key: Seq<char>,
    pub key_span: Span,
    pub value: NodeView,
}

impl View for NumberValue {
    type V = NumberView;

    open spec fn view(&self) -> NumberView {
        match self {
            NumberValue::PosInt(n) => NumberView::PosInt(*n),
            NumberValue::NegInt(n) => NumberView::NegInt(*n),
            NumberValue::Float(s) => NumberView::Float(s@),
        }
    }
}

/// The model of a node.
pub open spec fn node_view(n: AstNode) -> NodeView
    decreases n,
{
    match n {
        AstNode::Document { children, span } => NodeView::Document { children: nodes_view(children@), span },
        AstNode::Object { entries, span } => NodeView::Object { entries: entries_view(entries@), span },
        AstNode::Array { items, form, span } => NodeView::Array { items: nodes_view(items@), form, span },
        AstNode::String { value, span } => NodeView::Str { value: value@, span },
        AstNode::Number { value, span } => NodeView::Number { value: value@, span },
        AstNode::Bool { value, span } => NodeView::Bool { value, span },
        AstNode::Null { span } => NodeView::Null { span },
        AstNode::Reference { path, is_env, span } => NodeView::Reference { path: path@, is_env, span },
    }
}

/// The models of a sequence of nodes.
pub open spec fn nodes_view(s: Seq<AstNode>) -> Seq<NodeView>
    decreases s,
{
    if s.len() == 0 {
        Seq::empty()
    } else {
        nodes_view(s.drop_last()).push(node_view(s.last()))
    }
}

/// The models of a sequence of entries.
pub open spec fn entries_view(s: Seq<ObjectEntry>) -> Seq<EntryView>
    decreases s,
{
    if s.len() == 0 {
        Seq::empty()
    } else {
        entries_view(s.drop_last()).push(EntryView {
            key: s.last().key@,
            key_span: s.last().key_span,
            value: node_view(s.last().value),
        })
    }
}

/// The model of an object entry.
pub open spec fn entry_view(e: ObjectEntry) -> EntryView {
    EntryView { key: e.key@, key_span: e.key_span, value: node_view(e.value) }
}

pub proof fn lemma_nodes_view_push(s: Seq<AstNode>, x: AstNode)
    ensures
        nodes_view(s.push(x)) == nodes_view(s).push(node_view(x)),
{
    assert(s.push(x).drop_last() =~= s);
}

pub proof fn lemma_nodes_view_len(s: Seq<AstNode>)
    ensures
        nodes_view(s).len() == s.len(),
    decreases s.len(),
{
    if s.len() > 0 {
        lemma_nodes_view_len(s.drop_last());
    }
}

pub proof fn lemma_entries_view_push(s: Seq<ObjectEntry>, x: ObjectEntry)
    ensures
        entries_view(s.push(x)) == entries_view(s).push(entry_view(x)),
{
    assert(s.push(x).drop_last() =~= s);
}

pub proof fn lemma_entries_view_len(s: Seq<ObjectEntry>)
    ensures
        entries_view(s).len() == s.len(),
    decreases s.len(),
{
    if s.len() > 0 {
        lemma_entries_view_len(s.drop_last());
    }
}

fn clone_number(v: &NumberValue) -> (r: NumberValue)
    ensures
        r@ == v@,
{
    match v {
        NumberValue::PosInt(n) => NumberValue::PosInt(*n),
        NumberValue::NegInt(n) => NumberValue::NegInt(*n),
        NumberValue::Float(t) => NumberValue::Float(t.clone()),
    }
}

pub(crate) fn clone_node(n: &AstNode) -> (r: AstNode)
    ensures
        node_view(r) == node_view(*n),
    decreases n,
{
    match n {
        AstNode::Document { children, span } => AstNode::Document { children: clone_nodes(children), span: *span },
        AstNode::Object { entries, span } => AstNode::Object { entries: clone_entries(entries), span: *span },
        AstNode::Array { items, form, span } => AstNode::Array { items: clone_nodes(items), form: *form, span: *span },
        AstNode::String { value, span } => AstNode::String { value: value.clone(), span: *span },
        AstNode::Number { value, span } => AstNode::Number { value: clone_number(value), span: *span },
        AstNode::Bool { value, span } => AstNode::Bool { value: *value, span: *span },
        AstNode::Null { span } => AstNode::Null { span: *span },
        AstNode::Reference { path, is_env, span } => AstNode::Reference { path: path.clone(), is_env: *is_env, span: *span },
    }
}

fn clone_nodes(v: &Vec<AstNode>) -> (r: Vec<AstNode>)
    ensures
        nodes_view(r@) == nodes_view(v@),
    decreases v,
{
    let mut out: Vec<AstNode> = Vec::new();
    let mut i: usize = 0;
    while i < v.len()
        invariant
            0 <= i <= v.len(),
            nodes_view(out@) == nodes_view(v@.take(i as int)),
        decreases v.len() - i,
    {
        let c = clone_node(&v[i]);
        proof {
            lemma_nodes_view_push(out@, c);
            lemma_nodes_view_push(v@.take(i as int), v@[i as int]);
            assert(v@.take(i + 1) =~= v@.take(i as int).push(v@[i as int]));
        }
        out.push(c);
        i += 1;
    }
    proof {
        assert(v@.take(v.len() as int) =~= v@);
    }
    out
}

fn clone_entries(v: &Vec<ObjectEntry>) -> (r: Vec<ObjectEntry>)
    ensures
        entries_view(r@) == entries_view(v@),
    decreases v,
{
    let mut out: Vec<ObjectEntry> = Vec::new();
    let mut i: usize = 0;
    while i < v.len()
        invariant
            0 <= i <= v.len(),
            entries_view(out@) == entries_view(v@.take(i as int)),
        decreases v.len() - i,
    {
        let e = ObjectEntry { key: v[i].key.clone(), key_span: v[i].key_span, value: clone_node(&v[i].value) };
        proof {
            lemma_entries_view_push(out@, e);
            lemma_entries_view_push(v@.take(i as int), v@[i as int]);
            assert(v@.take(i + 1) =~= v@.take(i as int).push(v@[i as int]));
        }
        out.push(e);
        i += 1;
    }
    proof {
        assert(v@.take(v.len() as int) =~= v@);
    }
    out
}

impl Clone for AstNode {
    /// A copy of the tree, with the same model.
    fn clone(&self) -> (r: Self)
        ensures
            node_view(r) == node_view(*self),
    {
        clone_node(self)
    }
}

impl Clone for ObjectEntry {
    /// A copy of the entry, with the same model.
    fn clone(&self) -> (r: Self)
        ensures
            entry_view(r) == entry_view(*self),
    {
        ObjectEntry { key: self.key.clone(), key_span: self.key_span, value: clone_node(&self.value) }
    }
}

} // verus!
