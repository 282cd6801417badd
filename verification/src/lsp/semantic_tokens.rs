//! Semantic tokens: the classification of each key and scalar of a document,
//! in document order, for syntax highlighting.
use crate::ast::node::{
    entries_view, lemma_entries_view_push, lemma_nodes_view_push, node_view, nodes_view, EntryView, NodeView,
};
use super::utf16::{is_byte_column, lemma_utf16_column_mono, utf16_column, utf8_to_utf16_col, LspRange};
use crate::ast::{AstNode, Span};
use crate::text::{chars_of, lines_of, nth_line, utf16_len};
use vstd::prelude::*;

verus! {

/// Token types, in the order of the legend the server announces.
#[derive(Debug, Clone, Copy, PartialEq, Eq, Structural)]
pub enum ToonTokenType {
    /// Object keys
    Property,
    /// String values
    String,
    /// Numeric values
    Number,
    /// Boolean and null keywords (true, false, null)
    Keyword,
    /// Operators (colons, brackets)
    Operator,
}

/// The legend index of a token type.
pub open spec fn token_type_index(t: ToonTokenType) -> u32 {
    match t {
        ToonTokenType::Property => 0,
        ToonTokenType::String => 1,
        ToonTokenType::Number => 2,
        ToonTokenType::Keyword => 3,
        ToonTokenType::Operator => 4,
    }
}

impl ToonTokenType {
    /// Convert a token type to its index in the legend.
    pub fn as_u32(self) -> (n: u32)
        ensures
            n == token_type_index(self),
    {
        match self {
            ToonTokenType::Property => 0,
            ToonTokenType::String => 1,
            ToonTokenType::Number => 2,
            ToonTokenType::Keyword => 3,
            ToonTokenType::Operator => 4,
        }
    }
}

impl From<ToonTokenType> for u32 {
    fn from(token_type: ToonTokenType) -> (n: u32) {
        token_type.as_u32()
    }
}

impl vstd::std_specs::convert::FromSpecImpl<ToonTokenType> for u32 {
    open spec fn obeys_from_spec() -> bool {
        true
    }

    open spec fn from_spec(token_type: ToonTokenType) -> u32 {
        token_type_index(token_type)
    }
}

/// Token modifiers for semantic highlighting, as a bit set: bit 0 marks the
/// definition site of a key, bit 1 an immutable literal.
#[derive(Debug, Clone, Copy, PartialEq, Eq, Structural)]
pub struct ToonTokenModifier {
    pub bits: u32,
}

impl ToonTokenModifier {
    /// The set of modifier bits.
    pub open spec fn spec_bits(self) -> u32 {
        self.bits
    }

    /// First occurrence of a key (definition site).
    pub fn definition() -> (m: Self)
        ensures
            m.spec_bits() == 1,
    {
        ToonTokenModifier { bits: 1 }
    }

    /// Immutable literal value.
    pub fn readonly() -> (m: Self)
        ensures
            m.spec_bits() == 2,
    {
        ToonTokenModifier { bits: 2 }
    }

    /// No modifier.
    pub fn empty() -> (m: Self)
        ensures
            m.spec_bits() == 0,
    {
        ToonTokenModifier { bits: 0 }
    }

    /// Both sets of modifiers.
    pub fn union(self, other: Self) -> (m: Self)
        ensures
            m.spec_bits() == self.spec_bits() | other.spec_bits(),
    {
        ToonTokenModifier { bits: self.bits | other.bits }
    }

    /// Whether every modifier of `other` is in `self`.
    pub fn contains(&self, other: Self) -> (b: bool)
        ensures
            b == (self.spec_bits() & other.spec_bits() == other.spec_bits()),
    {
        self.bits & other.bits == other.bits
    }

    /// The bit set.
    pub fn bits(&self) -> (n: u32)
        ensures
            n == self.spec_bits(),
    {
        self.bits
    }

    /// Convert modifiers to the bit mask of the protocol.
    pub fn as_u32(self) -> (n: u32)
        ensures
            n == self.spec_bits(),
    {
        self.bits
    }
}

/// A semantic token with UTF-8 positions.
#[derive(Debug, Clone, Copy, PartialEq, Eq, Structural)]
pub struct SemanticToken {
    /// 0-based line number
    pub line: u32,
    /// 0-based UTF-8 column
    pub start_col: u32,
    /// Token length in UTF-8 bytes
    pub length: u32,
    /// Token classification
    pub token_type: ToonTokenType,
    /// Token modifiers
    pub modifiers: ToonTokenModifier,
}

/// Whether a span does not end before it starts.
pub open spec fn span_ordered(s: Span) -> bool {
    s.start.offset <= s.end.offset
}

/// The token covering `span`.
pub open spec fn token_of_span(span: Span, token_type: ToonTokenType, modifier_bits: u32) -> SemanticToken {
    SemanticToken {
        line: span.start.line,
        start_col: span.start.column,
        length: (span.end.offset - span.start.offset) as u32,
        token_type,
        modifiers: ToonTokenModifier { bits: modifier_bits },
    }
}

impl SemanticToken {
    /// Create a new semantic token.
    pub fn new(line: u32, start_col: u32, length: u32, token_type: ToonTokenType, modifiers: ToonTokenModifier) -> (t: Self)
        ensures
            t == (SemanticToken { line, start_col, length, token_type, modifiers }),
    {
        SemanticToken { line, start_col, length, token_type, modifiers }
    }

    /// Create a semantic token from a span: its start, and its length in bytes.
    pub fn from_span(span: &Span, token_type: ToonTokenType, modifiers: ToonTokenModifier) -> (t: Self)
        requires
            span_ordered(*span),
        ensures
            t == token_of_span(*span, token_type, modifiers.spec_bits()),
    {
        let length = span.end.offset - span.start.offset;
        SemanticToken { line: span.start.line, start_col: span.start.column, length, token_type, modifiers }
    }

    /// Check if this token has a specific modifier.
    pub fn has_modifier(&self, modifier: ToonTokenModifier) -> (b: bool)
        ensures
            b == (self.modifiers.spec_bits() & modifier.spec_bits() == modifier.spec_bits()),
    {
        self.modifiers.contains(modifier)
    }
}

/// Whether every span in a node model is ordered.
pub open spec fn spans_ordered(n: NodeView) -> bool
    decreases n,
{
    match n {
        NodeView::Document { children, span } => span_ordered(span) && all_spans_ordered(children),
        NodeView::Object { entries, span } => span_ordered(span) && entry_spans_ordered(entries),
        NodeView::Array { items, span, .. } => span_ordered(span) && all_spans_ordered(items),
        NodeView::Str { span, .. } => span_ordered(span),
        NodeView::Number { span, .. } => span_ordered(span),
        NodeView::Bool { span, .. } => span_ordered(span),
        NodeView::Null { span } => span_ordered(span),
        NodeView::Reference { span, .. } => span_ordered(span),
    }
}

pub open spec fn all_spans_ordered(s: Seq<NodeView>) -> bool
    decreases s,
{
    if s.len() == 0 {
        true
    } else {
        all_spans_ordered(s.drop_last()) && spans_ordered(s.last())
    }
}

pub open spec fn entry_spans_ordered(s: Seq<EntryView>) -> bool
    decreases s,
{
    if s.len() == 0 {
        true
    } else {
        entry_spans_ordered(s.drop_last()) && span_ordered(s.last().key_span) && spans_ordered(s.last().value)
    }
}

/// The semantic tokens of a node, in document order: a property token for
/// each key (marked as a definition), then the tokens of its value; a string,
/// number or keyword token (marked read-only) for each scalar.
pub open spec fn node_tokens(n: NodeView) -> Seq<SemanticToken>
    decreases n,
{
    match n {
        NodeView::Document { children, .. } => nodes_tokens(children),
        NodeView::Object { entries, .. } => entries_tokens(entries),
        NodeView::Array { items, .. } => nodes_tokens(items),
        NodeView::Str { span, .. } => seq![token_of_span(span, ToonTokenType::String, 2)],
        NodeView::Number { span, .. } => seq![token_of_span(span, ToonTokenType::Number, 2)],
        NodeView::Bool { span, .. } => seq![token_of_span(span, ToonTokenType::Keyword, 2)],
        NodeView::Null { span } => seq![token_of_span(span, ToonTokenType::Keyword, 2)],
        NodeView::Reference { span, .. } => seq![token_of_span(span, ToonTokenType::String, 2)],
    }
}

pub open spec fn nodes_tokens(s: Seq<NodeView>) -> Seq<SemanticToken>
    decreases s,
{
    if s.len() == 0 {
        Seq::empty()
    } else {
        nodes_tokens(s.drop_last()) + node_tokens(s.last())
    }
}

pub open spec fn entries_tokens(s: Seq<EntryView>) -> Seq<SemanticToken>
    decreases s,
{
    if s.len() == 0 {
        Seq::empty()
    } else {
        entries_tokens(s.drop_last()) + seq![token_of_span(s.last().key_span, ToonTokenType::Property, 1)]
            + node_tokens(s.last().value)
    }
}

/// Collect the semantic tokens of a document, in document order.
pub fn collect_semantic_tokens(ast: &AstNode) -> (tokens: Vec<SemanticToken>)
    requires
        spans_ordered(node_view(*ast)),
    ensures
        tokens@ == node_tokens(node_view(*ast)),
{
    let mut tokens: Vec<SemanticToken> = Vec::new();
    visit_node(ast, &mut tokens);
    proof {
        assert(tokens@ =~= Seq::<SemanticToken>::empty() + node_tokens(node_view(*ast)));
    }
    tokens
}

fn visit_node(node: &AstNode, tokens: &mut Vec<SemanticToken>)
    requires
        spans_ordered(node_view(*node)),
    ensures
        final(tokens)@ == old(tokens)@ + node_tokens(node_view(*node)),
    decreases node,
{
    match node {
        AstNode::Document { children, .. } => {
            visit_nodes(children, tokens);
        },
        AstNode::Object { entries, .. } => {
            visit_entries(entries, tokens);
        },
        AstNode::Array { items, .. } => {
            visit_nodes(items, tokens);
        },
        AstNode::String { span, .. } => {
            tokens.push(SemanticToken::from_span(span, ToonTokenType::String, ToonTokenModifier::readonly()));
        },
        AstNode::Number { span, .. } => {
            tokens.push(SemanticToken::from_span(span, ToonTokenType::Number, ToonTokenModifier::readonly()));
        },
        AstNode::Bool { span, .. } => {
            tokens.push(SemanticToken::from_span(span, ToonTokenType::Keyword, ToonTokenModifier::readonly()));
        },
        AstNode::Null { span } => {
            tokens.push(SemanticToken::from_span(span, ToonTokenType::Keyword, ToonTokenModifier::readonly()));
        },
        AstNode::Reference { span, .. } => {
            tokens.push(SemanticToken::from_span(span, ToonTokenType::String, ToonTokenModifier::readonly()));
        },
    }
}

fn visit_entries(entries: &Vec<crate::ast::ObjectEntry>, tokens: &mut Vec<SemanticToken>)
    requires
        entry_spans_ordered(entries_view(entries@)),
    ensures
        final(tokens)@ == old(tokens)@ + entries_tokens(entries_view(entries@)),
    decreases entries,
{
    let mut i: usize = 0;
    while i < entries.len()
        invariant
            0 <= i <= entries.len(),
            entry_spans_ordered(entries_view(entries@)),
            tokens@ == old(tokens)@ + entries_tokens(entries_view(entries@.take(i as int))),
        decreases entries.len() - i,
    {
        proof {
            lemma_entries_prefix(entries@, i as int);
            assert(entries@.take(i + 1) =~= entries@.take(i as int).push(entries@[i as int]));
            lemma_entries_view_push(entries@.take(i as int), entries@[i as int]);
            let a = entries_view(entries@.take(i + 1));
            assert(a.drop_last() =~= entries_view(entries@.take(i as int)));
        }
        tokens.push(SemanticToken::from_span(&entries[i].key_span, ToonTokenType::Property, ToonTokenModifier::definition()));
        visit_node(&entries[i].value, tokens);
        i += 1;
    }
    proof {
        assert(entries@.take(entries.len() as int) =~= entries@);
    }
}

fn visit_nodes(nodes: &Vec<AstNode>, tokens: &mut Vec<SemanticToken>)
    requires
        all_spans_ordered(nodes_view(nodes@)),
    ensures
        final(tokens)@ == old(tokens)@ + nodes_tokens(nodes_view(nodes@)),
    decreases nodes,
{
    let mut i: usize = 0;
    while i < nodes.len()
        invariant
            0 <= i <= nodes.len(),
            all_spans_ordered(nodes_view(nodes@)),
            tokens@ == old(tokens)@ + nodes_tokens(nodes_view(nodes@.take(i as int))),
        decreases nodes.len() - i,
    {
        proof {
            lemma_nodes_prefix(nodes@, i as int);
            assert(nodes@.take(i + 1) =~= nodes@.take(i as int).push(nodes@[i as int]));
            lemma_nodes_view_push(nodes@.take(i as int), nodes@[i as int]);
            let a = nodes_view(nodes@.take(i + 1));
            assert(a.drop_last() =~= nodes_view(nodes@.take(i as int)));
        }
        visit_node(&nodes[i], tokens);
        i += 1;
    }
    proof {
        assert(nodes@.take(nodes.len() as int) =~= nodes@);
    }
}

proof fn lemma_nodes_prefix(s: Seq<AstNode>, i: int)
    requires
        0 <= i < s.len(),
        all_spans_ordered(nodes_view(s)),
    ensures
        spans_ordered(node_view(s[i])),
    decreases s.len(),
{
    assert(nodes_view(s).drop_last() =~= nodes_view(s.drop_last()));
    if i < s.len() - 1 {
        assert(s.drop_last()[i] == s[i]);
        lemma_nodes_prefix(s.drop_last(), i);
    }
}

proof fn lemma_entries_prefix(s: Seq<crate::ast::ObjectEntry>, i: int)
    requires
        0 <= i < s.len(),
        entry_spans_ordered(crate::ast::node::entries_view(s)),
    ensures
        span_ordered(s[i].key_span),
        spans_ordered(node_view(s[i].value)),
    decreases s.len(),
{
    assert(crate::ast::node::entries_view(s).drop_last() =~= crate::ast::node::entries_view(s.drop_last()));
    if i < s.len() - 1 {
        assert(s.drop_last()[i] == s[i]);
        lemma_entries_prefix(s.drop_last(), i);
    }
}

/// A semantic token in the protocol's relative encoding.
#[derive(Debug, Clone, Copy, PartialEq, Eq, Structural)]
pub struct EncodedToken {
    /// Lines since the previous token
    pub delta_line: u32,
    /// UTF-16 columns since the previous token's start on the same line, or
    /// the UTF-16 start column on a new line
    pub delta_start: u32,
    /// Length in UTF-16 code units
    pub length: u32,
    /// Legend index of the token type
    pub token_type: u32,
    /// Modifier bits
    pub token_modifiers_bitset: u32,
}

/// Line `l` of the text, or the empty line past its end.
pub open spec fn line_at(lines: Seq<Seq<char>>, l: u32) -> Seq<char> {
    if (l as int) < lines.len() {
        lines[l as int]
    } else {
        Seq::empty()
    }
}

/// The line and start column of the token before `i` (the origin for the first).
pub open spec fn previous_start(tokens: Seq<SemanticToken>, i: int) -> (u32, u32) {
    if i == 0 {
        (0, 0)
    } else {
        (tokens[i - 1].line, tokens[i - 1].start_col)
    }
}

/// The relative encoding of token `i`: its line relative to the previous
/// token's; its start in UTF-16 units, relative to the previous token's
/// start when on the same line; its length in UTF-16 units.
pub open spec fn encode_at(tokens: Seq<SemanticToken>, lines: Seq<Seq<char>>, i: int) -> EncodedToken {
    let t = tokens[i];
    let (pl, pc) = previous_start(tokens, i);
    let line = line_at(lines, t.line);
    let c = utf16_column(line, t.start_col as nat);
    EncodedToken {
        delta_line: (t.line - pl) as u32,
        delta_start: (if t.line == pl { c - utf16_column(line, pc as nat) } else { c as int }) as u32,
        length: (utf16_column(line, (t.start_col + t.length) as nat) - c) as u32,
        token_type: token_type_index(t.token_type),
        token_modifiers_bitset: t.modifiers.spec_bits(),
    }
}

/// Whether token `i` can be encoded: it does not come before the previous
/// token, its start and end are character boundaries of its line (or past
/// its end), and its end and the line's UTF-16 length fit in a `u32`.
pub open spec fn encodable_at(tokens: Seq<SemanticToken>, lines: Seq<Seq<char>>, i: int) -> bool {
    let t = tokens[i];
    let (pl, pc) = previous_start(tokens, i);
    let line = line_at(lines, t.line);
    &&& pl <= t.line
    &&& t.start_col + t.length <= u32::MAX
    &&& is_byte_column(line, t.start_col as nat)
    &&& is_byte_column(line, (t.start_col + t.length) as nat)
    &&& utf16_len(line) <= u32::MAX
    &&& (t.line == pl ==> pc <= t.start_col && is_byte_column(line, pc as nat))
}

/// Encode tokens (in document order, UTF-8 columns) in the protocol's
/// relative form with UTF-16 columns, the lines being those of `text`.
pub fn encode_tokens(tokens: &[SemanticToken], text: &str) -> (r: Vec<EncodedToken>)
    requires
        forall|i: int| 0 <= i < tokens@.len() ==> encodable_at(tokens@, lines_of(text@), i),
    ensures
        r@.len() == tokens@.len(),
        forall|i: int| 0 <= i < tokens@.len() ==> #[trigger] r@[i] == encode_at(tokens@, lines_of(text@), i),
{
    let src = chars_of(text);
    let ghost lines = lines_of(text@);
    let mut result: Vec<EncodedToken> = Vec::new();
    let mut prev_line: u32 = 0;
    let mut prev_col: u32 = 0;
    let mut cached: Option<(u32, String)> = None;
    let mut i: usize = 0;
    while i < tokens.len()
        invariant
            0 <= i <= tokens@.len(),
            src@ == text@,
            lines == lines_of(text@),
            forall|k: int| 0 <= k < tokens@.len() ==> encodable_at(tokens@, lines, k),
            (prev_line, prev_col) == previous_start(tokens@, i as int),
            result@.len() == i,
            forall|k: int| 0 <= k < i ==> #[trigger] result@[k] == encode_at(tokens@, lines, k),
            cached matches Some((l, t)) ==> t@ == line_at(lines, l),
        decreases tokens@.len() - i,
    {
        let token = tokens[i];
        proof {
            assert(encodable_at(tokens@, lines, i as int));
        }
        let line_text: String = match cached {
            Some((l, t)) if l == token.line => t,
            _ => match nth_line(&src, token.line as usize) {
                Some(t) => t,
                None => {
                    proof {
                        assert(line_at(lines, token.line) =~= Seq::<char>::empty());
                    }
                    String::new()
                },
            },
        };
        let ghost line = line_at(lines, token.line);
        proof {
            assert(line_text@ == line);
            lemma_utf16_column_mono(line, token.start_col as nat, (token.start_col + token.length) as nat);
            if token.line == prev_line {
                lemma_utf16_column_mono(line, prev_col as nat, token.start_col as nat);
            }
        }
        let delta_line = token.line - prev_line;
        let utf16_col = utf8_to_utf16_col(line_text.as_str(), token.start_col);
        let utf16_end = utf8_to_utf16_col(line_text.as_str(), token.start_col + token.length);
        let utf16_length = utf16_end - utf16_col;
        let delta_start = if delta_line == 0 {
            let prev_utf16_col = utf8_to_utf16_col(line_text.as_str(), prev_col);
            utf16_col - prev_utf16_col
        } else {
            utf16_col
        };
        result.push(EncodedToken {
            delta_line,
            delta_start,
            length: utf16_length,
            token_type: token.token_type.as_u32(),
            token_modifiers_bitset: token.modifiers.bits(),
        });
        prev_line = token.line;
        prev_col = token.start_col;
        cached = Some((token.line, line_text));
        i += 1;
    }
    result
}

/// Whether a token overlaps a requested range: its line lies within the
/// range's lines, it does not end at or before the start column on the
/// first line, and it does not start at or after the end column on the
/// last line (columns compared as given).
pub open spec fn token_in_range(t: SemanticToken, range: LspRange) -> bool {
    &&& range.start.line <= t.line <= range.end.line
    &&& !(t.line == range.start.line && t.start_col + t.length <= range.start.character)
    &&& !(t.line == range.end.line && t.start_col >= range.end.character)
}

/// The tokens of `s` that overlap `range`, in order.
pub open spec fn tokens_within(s: Seq<SemanticToken>, range: LspRange) -> Seq<SemanticToken>
    decreases s.len(),
{
    if s.len() == 0 {
        s
    } else {
        tokens_within(s.drop_last(), range) + if token_in_range(s.last(), range) { seq![s.last()] } else { Seq::empty() }
    }
}

/// The tokens that overlap a requested range, in order.
pub fn tokens_in_range(tokens: &Vec<SemanticToken>, range: LspRange) -> (r: Vec<SemanticToken>)
    requires
        forall|i: int| 0 <= i < tokens@.len() ==> #[trigger] tokens@[i].start_col + tokens@[i].length <= u32::MAX,
    ensures
        r@ == tokens_within(tokens@, range),
{
    let mut out: Vec<SemanticToken> = Vec::new();
    let mut i: usize = 0;
    while i < tokens.len()
        invariant
            0 <= i <= tokens@.len(),
            forall|k: int| 0 <= k < tokens@.len() ==> #[trigger] tokens@[k].start_col + tokens@[k].length <= u32::MAX,
            out@ == tokens_within(tokens@.take(i as int), range),
        decreases tokens@.len() - i,
    {
        let t = tokens[i];
        proof {
            assert(tokens@[i as int].start_col + tokens@[i as int].length <= u32::MAX);
            assert(tokens@.take(i + 1).drop_last() =~= tokens@.take(i as int));
        }
        let end = t.start_col + t.length;
        let inside = !(t.line < range.start.line || t.line > range.end.line) && !(t.line == range.start.line && end
            <= range.start.character) && !(t.line == range.end.line && t.start_col >= range.end.character);
        let ghost before = out@;
        if inside {
            out.push(t);
            proof {
                assert(out@ =~= before + seq![t]);
            }
        } else {
            proof {
                assert(out@ =~= before + Seq::<SemanticToken>::empty());
            }
        }
        i += 1;
    }
    proof {
        assert(tokens@.take(tokens@.len() as int) =~= tokens@);
    }
    out
}

/// Whether every span of a tree is ordered (the condition
/// `collect_semantic_tokens` needs).
pub fn spans_are_ordered(ast: &AstNode) -> (b: bool)
    ensures
        b == spans_ordered(node_view(*ast)),
    decreases ast,
{
    match ast {
        AstNode::Document { children, span } => span.start.offset <= span.end.offset && nodes_spans_ordered(children),
        AstNode::Object { entries, span } => span.start.offset <= span.end.offset && entries_spans_ordered(entries),
        AstNode::Array { items, span, .. } => span.start.offset <= span.end.offset && nodes_spans_ordered(items),
        AstNode::String { span, .. } => span.start.offset <= span.end.offset,
        AstNode::Number { span, .. } => span.start.offset <= span.end.offset,
        AstNode::Bool { span, .. } => span.start.offset <= span.end.offset,
        AstNode::Null { span } => span.start.offset <= span.end.offset,
        AstNode::Reference { span, .. } => span.start.offset <= span.end.offset,
    }
}

fn nodes_spans_ordered(nodes: &Vec<AstNode>) -> (b: bool)
    ensures
        b == all_spans_ordered(nodes_view(nodes@)),
    decreases nodes,
{
    let mut i: usize = 0;
    while i < nodes.len()
        invariant
            0 <= i <= nodes.len(),
            all_spans_ordered(nodes_view(nodes@.take(i as int))),
        decreases nodes.len() - i,
    {
        proof {
            assert(nodes@.take(i + 1) =~= nodes@.take(i as int).push(nodes@[i as int]));
            lemma_nodes_view_push(nodes@.take(i as int), nodes@[i as int]);
            assert(nodes_view(nodes@.take(i + 1)).drop_last() =~= nodes_view(nodes@.take(i as int)));
        }
        if !spans_are_ordered(&nodes[i]) {
            proof {
                if all_spans_ordered(nodes_view(nodes@)) {
                    lemma_nodes_prefix(nodes@, i as int);
                }
            }
            return false;
        }
        i += 1;
    }
    proof {
        assert(nodes@.take(nodes.len() as int) =~= nodes@);
    }
    true
}

fn entries_spans_ordered(entries: &Vec<crate::ast::ObjectEntry>) -> (b: bool)
    ensures
        b == entry_spans_ordered(entries_view(entries@)),
    decreases entries,
{
    let mut i: usize = 0;
    while i < entries.len()
        invariant
            0 <= i <= entries.len(),
            entry_spans_ordered(entries_view(entries@.take(i as int))),
        decreases entries.len() - i,
    {
        proof {
            assert(entries@.take(i + 1) =~= entries@.take(i as int).push(entries@[i as int]));
            lemma_entries_view_push(entries@.take(i as int), entries@[i as int]);
            assert(entries_view(entries@.take(i + 1)).drop_last() =~= entries_view(entries@.take(i as int)));
        }
        let k = entries[i].key_span;
        if !(k.start.offset <= k.end.offset && spans_are_ordered(&entries[i].value)) {
            proof {
                if entry_spans_ordered(entries_view(entries@)) {
                    lemma_entries_prefix(entries@, i as int);
                }
            }
            return false;
        }
        i += 1;
    }
    proof {
        assert(entries@.take(entries.len() as int) =~= entries@);
    }
    true
}

/// Whether every token can be encoded (the condition `encode_tokens`
/// needs).
pub fn tokens_encodable(tokens: &[SemanticToken], text: &str) -> (b: bool)
    ensures
        b == forall|i: int| 0 <= i < tokens@.len() ==> encodable_at(tokens@, lines_of(text@), i),
{
    let src = chars_of(text);
    let ghost lines = lines_of(text@);
    let mut prev_line: u32 = 0;
    let mut prev_col: u32 = 0;
    let mut i: usize = 0;
    while i < tokens.len()
        invariant
            0 <= i <= tokens@.len(),
            src@ == text@,
            lines == lines_of(text@),
            (prev_line, prev_col) == previous_start(tokens@, i as int),
            forall|k: int| 0 <= k < i ==> encodable_at(tokens@, lines, k),
        decreases tokens@.len() - i,
    {
        let t = tokens[i];
        let line: Vec<char> = match nth_line(&src, t.line as usize) {
            Some(l) => chars_of(l.as_str()),
            None => Vec::new(),
        };
        proof {
            assert(line@ == line_at(lines, t.line));
        }
        let mut ok = prev_line <= t.line && t.start_col as u64 + t.length as u64 <= u32::MAX as u64;
        if ok {
            let end = t.start_col + t.length;
            ok = super::utf16::byte_column_ok(&line, t.start_col) && super::utf16::byte_column_ok(&line, end)
                && super::utf16::utf16_fits(&line) && (t.line != prev_line || (prev_col <= t.start_col
                && super::utf16::byte_column_ok(&line, prev_col)));
        }
        proof {
            assert(ok == encodable_at(tokens@, lines, i as int));
        }
        if !ok {
            return false;
        }
        prev_line = t.line;
        prev_col = t.start_col;
        i += 1;
    }
    true
}

} // verus!
