//! TOON parser that produces an AST with source positions.
//!
//! A recursive-descent parser with one token of lookahead over the scanner's
//! tokens. It records errors as it goes, recovers at line boundaries, and
//! enforces limits on document size, nesting depth, array length and object
//! size. Every routine is proved to compute the function of the same name in
//! `grammar`.

pub mod error;
pub mod grammar;
pub mod nesting;
pub mod object_size;
pub mod lexical;
pub mod numbers;
pub mod scanner;

pub use error::{ParseError, ParseErrorKind};
pub use scanner::{Scanner, Token, TokenKind};

use crate::ast::node::{
    entries_view, entry_view, lemma_entries_view_len, lemma_entries_view_push, lemma_nodes_view_len,
    lemma_nodes_view_push, node_view, nodes_view, EntryView, NodeView,
};
use crate::ast::{ArrayForm, AstNode, ObjectEntry, Span};
use crate::text::chars_of;
use error::ErrView;
use grammar::{
    advanced, append_to_last, cell_value, deeper, document_spec, error_at, field_names_from,
    header_count, initial_state, inline_array_spec, inline_items_spec, is_white_space, join_words,
    kind_at, lemma_skip_newlines, lemma_sync, moved, recorded, row_cells_spec, shallower,
    skip_newlines_from, skip_white_from, span_at, state_ok, sync_from, tabular_array_spec,
    tabular_rows_spec, tok_at, tokens_wf, trim_end_from, trim_white, unquoted_spec, unquoted_words, append_text,
    PState, MAX_ARRAY_ITEMS, MAX_NESTING_DEPTH,
};
use numbers::{number_value, number_value_spec, parse_usize, usize_of};
use scanner::{token_views, TokView, TokenView};
use vstd::prelude::*;

verus! {

/// The model of a parse result.
pub open spec fn node_result(r: Result<AstNode, ParseError>) -> Result<NodeView, ErrView> {
    match r {
        Ok(n) => Ok(node_view(n)),
        Err(e) => Err(e@),
    }
}

/// The model of an entry result.
pub open spec fn entry_result(r: Result<ObjectEntry, ParseError>) -> Result<EntryView, ErrView> {
    match r {
        Ok(e) => Ok(entry_view(e)),
        Err(e) => Err(e@),
    }
}

/// The models of a sequence of errors.
pub open spec fn error_views(v: Seq<ParseError>) -> Seq<ErrView> {
    v.map_values(|e: ParseError| e@)
}

/// The models of a sequence of strings.
pub open spec fn string_views(v: Seq<String>) -> Seq<Seq<char>> {
    v.map_values(|s: String| s@)
}

/// The model of a scalar cell.
pub open spec fn cell_result(c: Option<Result<AstNode, ParseError>>) -> Option<Result<NodeView, ErrView>> {
    match c {
        Some(r) => Some(node_result(r)),
        None => None,
    }
}

/// Parser state machine that consumes tokens and produces an AST.
struct Parser {
    /// All tokens from the scanner
    tokens: Vec<Token>,
    /// Current position in the token stream
    position: usize,
    /// Accumulated parse errors
    errors: Vec<ParseError>,
    /// Current nesting depth
    depth: usize,
}

impl Parser {
    spec fn toks(&self) -> Seq<TokView> {
        token_views(self.tokens@)
    }

    spec fn st(&self) -> PState {
        PState { pos: self.position as int, errors: error_views(self.errors@), depth: self.depth as int }
    }

    spec fn inv(&self) -> bool {
        &&& tokens_wf(self.toks())
        &&& self.position <= self.tokens.len()
        &&& self.depth <= MAX_NESTING_DEPTH
    }

    /// `self` is a later state of the same parse as `before`.
    spec fn follows(&self, before: Parser) -> bool {
        &&& self.inv()
        &&& self.tokens@ == before.tokens@
        &&& self.position >= before.position
        &&& self.depth >= before.depth
    }

    proof fn lemma_ok(&self)
        requires
            self.inv(),
        ensures
            state_ok(self.toks(), self.st()),
            self.toks().len() == self.tokens.len(),
    {
    }

    /// Get the current token without consuming it.
    fn current(&self) -> (t: &Token)
        requires
            self.inv(),
        ensures
            t@ == tok_at(self.toks(), self.position as int),
    {
        if self.position < self.tokens.len() {
            &self.tokens[self.position]
        } else {
            &self.tokens[self.tokens.len() - 1]
        }
    }

    /// Peek at the token after the current one.
    fn peek(&self) -> (t: Option<&Token>)
        requires
            self.inv(),
        ensures
            match t {
                Some(t) => self.position + 1 < self.tokens.len() && t@ == self.toks()[self.position + 1],
                None => !(self.position + 1 < self.tokens.len()),
            },
    {
        if self.position < self.tokens.len() - 1 {
            Some(&self.tokens[self.position + 1])
        } else {
            None
        }
    }

    /// Move to the next token (staying on the last one at the end).
    fn advance(&mut self)
        requires
            old(self).inv(),
        ensures
            final(self).follows(*old(self)),
            final(self).st() == advanced(old(self).toks(), old(self).st()),
            final(self).depth == old(self).depth,
            final(self).errors@ == old(self).errors@,
    {
        if self.position < self.tokens.len() {
            self.position += 1;
        }
    }

    /// Check if we've reached the end of input.
    fn is_at_end(&self) -> (b: bool)
        requires
            self.inv(),
        ensures
            b == (kind_at(self.toks(), self.position as int) is Eof),
    {
        matches!(self.current().kind, TokenKind::Eof)
    }

    /// Skip newline tokens.
    fn skip_newlines(&mut self)
        requires
            old(self).inv(),
        ensures
            final(self).follows(*old(self)),
            final(self).st() == moved(old(self).st(), skip_newlines_from(old(self).toks(), old(self).position as int)),
            final(self).depth == old(self).depth,
            final(self).errors@ == old(self).errors@,
    {
        while matches!(self.current().kind, TokenKind::Newline)
            invariant
                self.follows(*old(self)),
                self.depth == old(self).depth,
                self.errors@ == old(self).errors@,
                skip_newlines_from(self.toks(), self.position as int)
                    == skip_newlines_from(old(self).toks(), old(self).position as int),
            decreases self.tokens.len() - self.position,
        {
            self.advance();
        }
    }

    /// Record an error.
    fn record(&mut self, e: ParseError)
        requires
            old(self).inv(),
        ensures
            final(self).follows(*old(self)),
            final(self).st() == recorded(old(self).st(), e@),
            final(self).position == old(self).position,
            final(self).depth == old(self).depth,
    {
        self.errors.push(e);
        proof {
            assert(error_views(self.errors@) =~= error_views(old(self).errors@).push(e@));
        }
    }

    /// Record a parse error and return it.
    fn error(&mut self, kind: ParseErrorKind, span: Span) -> (e: ParseError)
        requires
            old(self).inv(),
        ensures
            final(self).follows(*old(self)),
            e@ == error_at(kind, span),
            final(self).st() == recorded(old(self).st(), e@),
            final(self).position == old(self).position,
            final(self).depth == old(self).depth,
    {
        let e = ParseError::new(kind, span);
        self.record(e.duplicate());
        e
    }

    /// Record a parse error with context and return it.
    fn error_with_context(&mut self, kind: ParseErrorKind, span: Span, context: &str) -> (e: ParseError)
        requires
            old(self).inv(),
        ensures
            final(self).follows(*old(self)),
            e@ == (ErrView { kind, span, context: Some(context@) }),
            final(self).st() == recorded(old(self).st(), e@),
            final(self).position == old(self).position,
            final(self).depth == old(self).depth,
    {
        let e = ParseError::new(kind, span).with_context(context);
        self.record(e.duplicate());
        e
    }

    /// Skip to the next statement boundary after an error: past the next
    /// newline, or up to the next dedent or the end.
    fn synchronize(&mut self)
        requires
            old(self).inv(),
        ensures
            final(self).follows(*old(self)),
            final(self).st() == moved(old(self).st(), sync_from(old(self).toks(), old(self).position as int)),
            final(self).depth == old(self).depth,
    {
        while !self.is_at_end()
            invariant
                self.tokens@ == old(self).tokens@,
                tokens_wf(self.toks()),
                self.position <= self.tokens.len(),
                self.depth == old(self).depth,
                self.depth <= MAX_NESTING_DEPTH,
                self.errors@ == old(self).errors@,
                self.position >= old(self).position,
                sync_from(self.toks(), self.position as int) == sync_from(old(self).toks(), old(self).position as int),
            decreases self.tokens.len() - self.position,
        {
            let is_newline = matches!(self.current().kind, TokenKind::Newline);
            if is_newline || matches!(self.current().kind, TokenKind::Dedent) {
                if is_newline {
                    self.position += 1;
                }
                return;
            }
            self.position += 1;
        }
    }

    // =========================================================================
    // Primitive values
    // =========================================================================

    /// Parse a number token into a number node.
    fn parse_number(&mut self) -> (r: Result<AstNode, ParseError>)
        requires
            old(self).inv(),
            kind_at(old(self).toks(), old(self).position as int) is Number,
        ensures
            final(self).follows(*old(self)),
            final(self).depth == old(self).depth,
            ({
                let t = tok_at(old(self).toks(), old(self).position as int);
                &&& final(self).st() == advanced(old(self).toks(), old(self).st())
                &&& node_result(r) == grammar::number_node(t.kind->Number_0, t.span)
            }),
    {
        let token = self.current();
        let span = token.span;
        match &token.kind {
            TokenKind::Number(text) => {
                let value = number_value(text.as_str(), span);
                self.advance();
                match value {
                    Ok(value) => Ok(AstNode::Number { value, span }),
                    Err(e) => Err(e),
                }
            },
            _ => Err(ParseError::new(ParseErrorKind::ExpectedValue, span)),
        }
    }

    /// Parse a string token.
    fn parse_string(&mut self) -> (r: Result<AstNode, ParseError>)
        requires
            old(self).inv(),
            kind_at(old(self).toks(), old(self).position as int) is Str,
        ensures
            final(self).follows(*old(self)),
            final(self).depth == old(self).depth,
            ({
                let t = tok_at(old(self).toks(), old(self).position as int);
                &&& final(self).st() == advanced(old(self).toks(), old(self).st())
                &&& node_result(r) == Ok::<NodeView, ErrView>(NodeView::Str { value: t.kind->Str_0, span: t.span })
            }),
    {
        let token = self.current();
        let span = token.span;
        match &token.kind {
            TokenKind::String(value) => {
                let value = value.clone();
                self.advance();
                Ok(AstNode::String { value, span })
            },
            _ => Err(ParseError::new(ParseErrorKind::ExpectedValue, span)),
        }
    }

    /// Parse the keywords `true`, `false` and `null`.
    fn parse_primitive(&mut self) -> (r: Result<AstNode, ParseError>)
        requires
            old(self).inv(),
            ({
                let k = kind_at(old(self).toks(), old(self).position as int);
                k is True || k is False || k is Null
            }),
        ensures
            final(self).follows(*old(self)),
            final(self).depth == old(self).depth,
            ({
                let t = tok_at(old(self).toks(), old(self).position as int);
                &&& final(self).st() == advanced(old(self).toks(), old(self).st())
                &&& node_result(r) == Ok::<NodeView, ErrView>(match t.kind {
                    TokenView::True => NodeView::Bool { value: true, span: t.span },
                    TokenView::False => NodeView::Bool { value: false, span: t.span },
                    _ => NodeView::Null { span: t.span },
                })
            }),
    {
        let token = self.current();
        let span = token.span;
        let r = match &token.kind {
            TokenKind::True => Ok(AstNode::Bool { value: true, span }),
            TokenKind::False => Ok(AstNode::Bool { value: false, span }),
            _ => Ok(AstNode::Null { span }),
        };
        self.advance();
        r
    }

    /// The scalar at the current token, for inline arrays and tabular rows:
    /// `None` when the token is not a scalar. Nothing is consumed.
    fn scalar_cell(&self) -> (c: Option<Result<AstNode, ParseError>>)
        requires
            self.inv(),
        ensures
            cell_result(c) == cell_value(tok_at(self.toks(), self.position as int)),
    {
        let token = self.current();
        let span = token.span;
        match &token.kind {
            TokenKind::String(s) => Some(Ok(AstNode::String { value: s.clone(), span })),
            TokenKind::Number(n) => match number_value(n.as_str(), span) {
                Ok(value) => Some(Ok(AstNode::Number { value, span })),
                Err(e) => Some(Err(e)),
            },
            TokenKind::Identifier(s) => Some(Ok(AstNode::String { value: s.clone(), span })),
            TokenKind::True => Some(Ok(AstNode::Bool { value: true, span })),
            TokenKind::False => Some(Ok(AstNode::Bool { value: false, span })),
            TokenKind::Null => Some(Ok(AstNode::Null { span })),
            _ => None,
        }
    }

    /// Parse an unquoted string: the words up to the end of the line.
    fn parse_unquoted_string(&mut self) -> (r: Result<AstNode, ParseError>)
        requires
            old(self).inv(),
        ensures
            final(self).follows(*old(self)),
            final(self).depth == old(self).depth,
            (final(self).st(), node_result(r)) == unquoted_spec(old(self).toks(), old(self).st()),
    {
        let ghost toks = self.toks();
        let start_span = self.current().span;
        let mut parts: Vec<String> = Vec::new();
        let mut end_span = start_span;
        let mut glue = false;
        proof {
            assert(string_views(parts@) =~= Seq::<Seq<char>>::empty());
        }
        loop
            invariant
                self.follows(*old(self)),
                toks == self.toks(),
                self.depth == old(self).depth,
                self.errors@ == old(self).errors@,
                start_span == span_at(toks, old(self).position as int),
                unquoted_words(toks, self.position as int, string_views(parts@), end_span, glue)
                    == unquoted_words(toks, old(self).position as int, Seq::empty(), start_span, false),
            ensures
                self.follows(*old(self)),
                self.depth == old(self).depth,
                self.errors@ == old(self).errors@,
                unquoted_words(toks, old(self).position as int, Seq::empty(), start_span, false)
                    == (self.position as int, string_views(parts@), end_span),
            decreases self.tokens.len() - self.position,
        {
            if self.is_at_end() {
                break;
            }
            let token = self.current();
            let span = token.span;
            let ghost before = parts@;
            match &token.kind {
                TokenKind::Identifier(s) | TokenKind::Number(s) | TokenKind::String(s) => {
                    if glue && parts.len() > 0 && span.start.offset == end_span.end.offset {
                        let n = parts.len();
                        let mut last = parts[n - 1].clone();
                        last.append(s.as_str());
                        parts.set(n - 1, last);
                        proof {
                            assert(string_views(parts@) =~= append_text(string_views(before), s@));
                        }
                    } else {
                        parts.push(s.clone());
                        proof {
                            assert(string_views(parts@) =~= string_views(before).push(s@));
                        }
                    }
                    glue = false;
                },
                TokenKind::Error(m) => {
                    match stray_char_of(m) {
                        Some(c) => {
                            if parts.len() > 0 && span.start.offset == end_span.end.offset {
                                let n = parts.len();
                                let mut last = parts[n - 1].clone();
                                last.push(c);
                                parts.set(n - 1, last);
                                proof {
                                    assert(string_views(parts@) =~= append_to_last(string_views(before), c));
                                }
                            } else {
                                let mut word = String::new();
                                word.push(c);
                                proof {
                                    assert(word@ =~= seq![c]);
                                }
                                parts.push(word);
                                proof {
                                    assert(string_views(parts@) =~= string_views(before).push(seq![c]));
                                }
                            }
                            glue = true;
                        },
                        None => {
                            break;
                        },
                    }
                },
                TokenKind::Colon | TokenKind::Comma => {
                    let c = if matches!(token.kind, TokenKind::Colon) { ':' } else { ',' };
                    if parts.len() > 0 {
                        let n = parts.len();
                        let mut last = parts[n - 1].clone();
                        last.push(c);
                        parts.set(n - 1, last);
                        proof {
                            assert(string_views(parts@) =~= append_to_last(string_views(before), c));
                        }
                    } else {
                        let word = if c == ':' { String::from_str(":") } else { String::from_str(",") };
                        proof {
                            reveal_strlit(":");
                            reveal_strlit(",");
                            assert(word@ =~= seq![c]);
                        }
                        parts.push(word);
                        proof {
                            assert(string_views(parts@) =~= append_to_last(string_views(before), c));
                        }
                    }
                    glue = false;
                },
                _ => {
                    break;
                },
            }
            end_span = span;
            self.advance();
        }
        let joined = join_with_spaces(&parts);
        let value = trim_white_string(&joined);
        Ok(AstNode::String { value, span: start_span.merge(end_span) })
    }
}

impl Parser {
    // =========================================================================
    // Arrays with a header
    // =========================================================================

    /// Parse an array entry's header (`[N]`, `[N]{fields}`, an optional `|`
    /// delimiter and the colon) and its content; the key is already consumed.
    fn parse_array_with_key(&mut self, _key: &str, start_span: Span) -> (r: Result<AstNode, ParseError>)
        requires
            old(self).inv(),
        ensures
            final(self).follows(*old(self)),
            (final(self).st(), node_result(r)) == grammar::array_with_key_spec(old(self).toks(), old(self).st(), start_span),
    {
        let ghost toks = self.toks();
        let ghost st0 = self.st();
        // Consume [
        self.advance();
        let ghost p1 = self.position as int;
        // Parse the count
        let count: usize = match &self.current().kind {
            TokenKind::Number(n) => {
                let c = match parse_usize(&chars_of(n.as_str())) {
                    Some(c) => c,
                    None => 0,
                };
                self.advance();
                c
            },
            _ => 0,
        };
        assert(header_count(toks, p1) == (count as nat, self.position as int));
        let ghost p2 = self.position as int;
        // The field schema {f1,f2}
        let fields: Option<Vec<String>> = if matches!(self.current().kind, TokenKind::RightBracket) {
            self.advance();
            if matches!(self.current().kind, TokenKind::LeftBrace) {
                self.advance();
                let ghost p4 = self.position as int;
                let mut fields: Vec<String> = Vec::new();
                proof {
                    assert(string_views(fields@) =~= Seq::<Seq<char>>::empty());
                }
                loop
                    invariant
                        self.follows(*old(self)),
                        toks == self.toks(),
                        self.depth == old(self).depth,
                        self.errors@ == old(self).errors@,
                        field_names_from(toks, self.position as int, string_views(fields@))
                            == field_names_from(toks, p4, Seq::empty()),
                    ensures
                        self.follows(*old(self)),
                        self.depth == old(self).depth,
                        self.errors@ == old(self).errors@,
                        field_names_from(toks, p4, Seq::empty()) == (self.position as int, string_views(fields@)),
                    decreases self.tokens.len() - self.position,
                {
                    if matches!(self.current().kind, TokenKind::RightBrace | TokenKind::Eof) {
                        break;
                    }
                    let before = self.position;
                    let ghost fv = string_views(fields@);
                    if let TokenKind::Identifier(name) = &self.current().kind {
                        fields.push(name.clone());
                        proof {
                            assert(string_views(fields@) =~= fv.push(name@));
                        }
                        self.advance();
                    }
                    if matches!(self.current().kind, TokenKind::Comma) {
                        self.advance();
                    }
                    if self.position == before {
                        // Neither a name nor a comma: the list ends here.
                        break;
                    }
                }
                if matches!(self.current().kind, TokenKind::RightBrace) {
                    self.advance();
                }
                Some(fields)
            } else {
                None
            }
        } else {
            // Missing ]
            let span = self.current().span;
            self.error(ParseErrorKind::UnexpectedToken, span);
            None
        };
        // The delimiter
        let pipe = match &self.current().kind {
            TokenKind::Identifier(s) => {
                let v = chars_of(s.as_str());
                let b = v.len() == 1 && v[0] == '|';
                proof {
                    if b {
                        assert(v@ =~= seq!['|']);
                    }
                }
                b
            },
            _ => false,
        };
        assert(pipe == (kind_at(toks, self.position as int) == TokenView::Identifier(seq!['|'])));
        let delimiter = if pipe {
            self.advance();
            '|'
        } else {
            ','
        };
        // Expect the colon
        if !matches!(self.current().kind, TokenKind::Colon) {
            let span = self.current().span;
            return Err(self.error(ParseErrorKind::ExpectedColon, span));
        }
        self.advance();
        match fields {
            Some(field_names) => self.parse_tabular_array(start_span, count, &field_names, delimiter),
            None => self.parse_inline_array(start_span, count, delimiter),
        }
    }

    /// Parse inline array values: `v1,v2,v3`.
    fn parse_inline_array(&mut self, start_span: Span, _expected_count: usize, delimiter: char) -> (r: Result<AstNode, ParseError>)
        requires
            old(self).inv(),
        ensures
            final(self).follows(*old(self)),
            (final(self).st(), node_result(r)) == inline_array_spec(old(self).toks(), old(self).st(), start_span, delimiter),
    {
        let ghost toks = self.toks();
        if matches!(self.current().kind, TokenKind::Newline | TokenKind::Eof | TokenKind::Dedent) {
            return Ok(AstNode::Array { items: Vec::new(), form: ArrayForm::Inline, span: start_span });
        }
        let mut items: Vec<AstNode> = Vec::new();
        proof {
            assert(nodes_view(items@) =~= Seq::<NodeView>::empty());
        }
        loop
            invariant
                self.follows(*old(self)),
                toks == self.toks(),
                self.depth == old(self).depth,
                inline_array_spec(old(self).toks(), old(self).st(), start_span, delimiter)
                    == inline_items_spec(toks, old(self).st(), start_span, delimiter, Seq::empty()),
                inline_items_spec(toks, self.st(), start_span, delimiter, nodes_view(items@))
                    == inline_items_spec(toks, old(self).st(), start_span, delimiter, Seq::empty()),
            decreases self.tokens.len() - self.position,
        {
            proof {
                lemma_nodes_view_len(items@);
                self.lemma_ok();
            }
            if items.len() >= MAX_ARRAY_ITEMS {
                return Err(ParseError::new(ParseErrorKind::TooManyArrayItems, self.current().span));
            }
            match self.scalar_cell() {
                None => {
                    return Ok(finish_array(items, ArrayForm::Inline, start_span));
                },
                Some(Err(e)) => {
                    return Err(e);
                },
                Some(Ok(item)) => {
                    let ghost before = self.st();
                    proof {
                        lemma_nodes_view_push(items@, item);
                    }
                    self.advance();
                    items.push(item);
                    if matches!(self.current().kind, TokenKind::Comma) && delimiter == ',' {
                        self.advance();
                    } else {
                        return Ok(finish_array(items, ArrayForm::Inline, start_span));
                    }
                },
            }
        }
    }

    /// Parse the rows of a tabular array into objects.
    fn parse_tabular_array(
        &mut self,
        start_span: Span,
        expected_count: usize,
        field_names: &Vec<String>,
        delimiter: char,
    ) -> (r: Result<AstNode, ParseError>)
        requires
            old(self).inv(),
        ensures
            final(self).follows(*old(self)),
            (final(self).st(), node_result(r)) == tabular_array_spec(old(self).toks(), old(self).st(),
                start_span, expected_count as nat, string_views(field_names@), delimiter),
    {
        let ghost toks = self.toks();
        let ghost fields = string_views(field_names@);
        // Consume the newline after the header, then the indentation
        if matches!(self.current().kind, TokenKind::Newline) {
            self.advance();
        }
        if matches!(self.current().kind, TokenKind::Indent) {
            self.advance();
        }
        let ghost st2 = self.st();
        let mut items: Vec<AstNode> = Vec::new();
        proof {
            assert(nodes_view(items@) =~= Seq::<NodeView>::empty());
        }
        let mut i: usize = 0;
        while i < expected_count
            invariant
                self.follows(*old(self)),
                toks == self.toks(),
                fields == string_views(field_names@),
                0 <= i <= expected_count,
                tabular_array_spec(old(self).toks(), old(self).st(), start_span, expected_count as nat, fields, delimiter)
                    == tabular_rows_spec(toks, st2, start_span, expected_count as nat, fields, delimiter, Seq::empty()),
                tabular_rows_spec(toks, self.st(), start_span, (expected_count - i) as nat, fields, delimiter, nodes_view(items@))
                    == tabular_rows_spec(toks, st2, start_span, expected_count as nat, fields, delimiter, Seq::empty()),
            decreases expected_count - i,
        {
            proof {
                lemma_nodes_view_len(items@);
            }
            if items.len() >= MAX_ARRAY_ITEMS {
                return Err(ParseError::new(ParseErrorKind::TooManyArrayItems, self.current().span));
            }
            if self.is_at_end() || matches!(self.current().kind, TokenKind::Dedent) {
                return Ok(self.finish_tabular(items, start_span));
            }
            let row = match self.parse_tabular_row(field_names, delimiter) {
                Ok(row) => row,
                Err(e) => {
                    return Err(e);
                },
            };
            proof {
                lemma_nodes_view_push(items@, row);
            }
            items.push(row);
            if matches!(self.current().kind, TokenKind::Newline) {
                self.advance();
            }
            i += 1;
        }
        Ok(self.finish_tabular(items, start_span))
    }

    /// The end of a tabular array: consume a closing dedent and build the node.
    fn finish_tabular(&mut self, items: Vec<AstNode>, start_span: Span) -> (n: AstNode)
        requires
            old(self).inv(),
        ensures
            final(self).follows(*old(self)),
            (final(self).st(), Ok::<NodeView, ErrView>(node_view(n)))
                == grammar::tabular_done(old(self).toks(), old(self).st(), start_span, nodes_view(items@)),
    {
        if matches!(self.current().kind, TokenKind::Dedent) {
            self.advance();
        }
        finish_array(items, ArrayForm::Tabular, start_span)
    }

    /// Parse a single tabular row into an object.
    fn parse_tabular_row(&mut self, field_names: &Vec<String>, delimiter: char) -> (r: Result<AstNode, ParseError>)
        requires
            old(self).inv(),
        ensures
            final(self).follows(*old(self)),
            (final(self).st(), node_result(r)) == grammar::tabular_row_spec(old(self).toks(), old(self).st(),
                string_views(field_names@), delimiter),
    {
        let ghost toks = self.toks();
        let ghost fields = string_views(field_names@);
        let start_span = self.current().span;
        if self.depth >= MAX_NESTING_DEPTH {
            return Err(ParseError::new(ParseErrorKind::MaxDepthExceeded, start_span));
        }
        self.depth += 1;
        let ghost st1 = self.st();
        let mut entries: Vec<ObjectEntry> = Vec::new();
        proof {
            assert(entries_view(entries@) =~= Seq::<EntryView>::empty());
        }
        let num_fields = field_names.len();
        let mut i: usize = 0;
        while i < num_fields
            invariant
                self.follows(*old(self)),
                toks == self.toks(),
                fields == string_views(field_names@),
                num_fields == field_names.len(),
                0 <= i <= num_fields,
                self.depth == old(self).depth + 1,
                grammar::tabular_row_spec(old(self).toks(), old(self).st(), fields, delimiter)
                    == row_cells_spec(toks, st1, start_span, fields, delimiter, 0, Seq::empty()),
                row_cells_spec(toks, self.st(), start_span, fields, delimiter, i as int, entries_view(entries@))
                    == row_cells_spec(toks, st1, start_span, fields, delimiter, 0, Seq::empty()),
            decreases num_fields - i,
        {
            let value = match self.scalar_cell() {
                Some(Ok(v)) => {
                    self.advance();
                    v
                },
                Some(Err(e)) => {
                    return Err(e);
                },
                None => AstNode::Null { span: self.current().span },
            };
            let entry = ObjectEntry { key: field_names[i].clone(), key_span: start_span, value };
            proof {
                lemma_entries_view_push(entries@, entry);
            }
            entries.push(entry);
            if i < num_fields - 1 && delimiter == ',' && matches!(self.current().kind, TokenKind::Comma) {
                self.advance();
            }
            i += 1;
        }
        let node = finish_object(entries, start_span);
        self.depth -= 1;
        Ok(node)
    }
}

proof fn lemma_view_span(n: AstNode)
    ensures
        grammar::view_span(node_view(n)) == n.spec_span(),
{
}

/// An array node from its items: its span runs from `start_span` to the last
/// item's span.
fn finish_array(items: Vec<AstNode>, form: ArrayForm, start_span: Span) -> (n: AstNode)
    ensures
        node_view(n) == (NodeView::Array { items: nodes_view(items@), form, span: grammar::items_span(start_span, nodes_view(items@)) }),
{
    proof {
        lemma_nodes_view_len(items@);
        if items.len() > 0 {
            lemma_view_span(items@.last());
        }
    }
    let end_span = if items.len() == 0 { start_span } else { items[items.len() - 1].span() };
    let span = if items.len() == 0 { start_span } else { start_span.merge(end_span) };
    AstNode::Array { items, form, span }
}

/// An object node from its entries: its span runs from `start_span` to the
/// last value's span.
fn finish_object(entries: Vec<ObjectEntry>, start_span: Span) -> (n: AstNode)
    ensures
        node_view(n) == (NodeView::Object { entries: entries_view(entries@), span: grammar::entries_span(start_span, entries_view(entries@)) }),
{
    proof {
        lemma_entries_view_len(entries@);
        if entries.len() > 0 {
            lemma_view_span(entries@.last().value);
        }
    }
    let span = if entries.len() == 0 { start_span } else { start_span.merge(entries[entries.len() - 1].value.span()) };
    AstNode::Object { entries, span }
}

/// The character of a stray-character scanner message.
fn stray_char_of(m: &String) -> (r: Option<char>)
    ensures
        r == grammar::stray_char(m@),
{
    let v = chars_of(m.as_str());
    let p = chars_of("Unexpected character: ");
    if v.len() > 0 && v.len() - 1 == p.len() && crate::text::range_equals(&v, 0, p.len(), &p) {
        proof {
            assert(v@.subrange(0, p.len() as int) =~= v@.take(p.len() as int));
        }
        Some(v[v.len() - 1])
    } else {
        proof {
            if v.len() > 0 && v.len() - 1 == p.len() {
                assert(v@.subrange(0, p.len() as int) =~= v@.take(p.len() as int));
            }
        }
        None
    }
}

/// Whether a reference names an environment variable.
pub fn is_env_reference(p: &String) -> (b: bool)
    ensures
        b == grammar::env_prefixed(p@),
{
    let v = chars_of(p.as_str());
    let w = chars_of("env:");
    proof {
        reveal_strlit("env:");
    }
    if v.len() < 4 {
        return false;
    }
    let b = crate::text::range_equals(&v, 0, 4, &w);
    proof {
        assert(v@.subrange(0, 4) =~= v@.take(4));
    }
    b
}

impl Parser {
    // =========================================================================
    // Values, nested objects and expanded arrays
    // =========================================================================

    /// Parse any value (dispatcher for all value types).
    fn parse_value(&mut self) -> (r: Result<AstNode, ParseError>)
        requires
            old(self).inv(),
        ensures
            final(self).follows(*old(self)),
            (final(self).st(), node_result(r)) == grammar::value_spec(old(self).toks(), old(self).st()),
        decreases old(self).tokens@.len() - old(self).position, 6int,
    {
        proof {
            self.lemma_ok();
        }
        let token = self.current();
        let span = token.span;
        match &token.kind {
            TokenKind::Error(m) => {
                if stray_char_of(m).is_some() {
                    return self.parse_unquoted_string();
                }
                let msg = m.clone();
                let err = self.error_with_context(ParseErrorKind::UnexpectedToken, span, msg.as_str());
                self.advance();
                Err(err)
            },
            TokenKind::String(_) => self.parse_string(),
            TokenKind::Reference(p) => {
                let node = AstNode::Reference { path: p.clone(), is_env: is_env_reference(p), span };
                self.advance();
                Ok(node)
            },
            TokenKind::Number(_) => self.parse_number(),
            TokenKind::True | TokenKind::False | TokenKind::Null => self.parse_primitive(),
            TokenKind::Identifier(_) => match self.peek() {
                Some(next) => {
                    if matches!(next.kind, TokenKind::LeftBracket) {
                        self.parse_array_header()
                    } else if matches!(next.kind, TokenKind::Colon) {
                        self.parse_nested_value()
                    } else {
                        self.parse_unquoted_string()
                    }
                },
                None => self.parse_unquoted_string(),
            },
            TokenKind::Indent => self.parse_nested_object(),
            TokenKind::Dash => self.parse_expanded_array(),
            TokenKind::Newline => {
                self.advance();
                if matches!(self.current().kind, TokenKind::Indent) {
                    self.parse_nested_object()
                } else if matches!(self.current().kind, TokenKind::Dash) {
                    self.parse_expanded_array()
                } else {
                    Ok(AstNode::Null { span: Span::point(self.current().span.start) })
                }
            },
            TokenKind::Eof => Ok(AstNode::Null { span: Span::point(span.start) }),
            _ => Err(self.error(ParseErrorKind::ExpectedValue, span)),
        }
    }

    /// Parse a value that starts with `identifier:`: read as an unquoted string.
    fn parse_nested_value(&mut self) -> (r: Result<AstNode, ParseError>)
        requires
            old(self).inv(),
        ensures
            final(self).follows(*old(self)),
            final(self).depth == old(self).depth,
            (final(self).st(), node_result(r)) == unquoted_spec(old(self).toks(), old(self).st()),
    {
        self.parse_unquoted_string()
    }

    /// An array header where a value is expected is an error.
    fn parse_array_header(&mut self) -> (r: Result<AstNode, ParseError>)
        requires
            old(self).inv(),
        ensures
            final(self).follows(*old(self)),
            ({
                let e = error_at(ParseErrorKind::UnexpectedToken, span_at(old(self).toks(), old(self).position as int));
                &&& final(self).st() == recorded(old(self).st(), e)
                &&& node_result(r) == Err::<NodeView, ErrView>(e)
            }),
    {
        let span = self.current().span;
        Err(self.error(ParseErrorKind::UnexpectedToken, span))
    }

    /// Parse a nested object (or an expanded array) after an indent.
    fn parse_nested_object(&mut self) -> (r: Result<AstNode, ParseError>)
        requires
            old(self).inv(),
        ensures
            final(self).follows(*old(self)),
            (final(self).st(), node_result(r)) == grammar::nested_object_spec(old(self).toks(), old(self).st()),
        decreases old(self).tokens@.len() - old(self).position, 5int,
    {
        proof {
            self.lemma_ok();
        }
        let start_span = self.current().span;
        if self.depth >= MAX_NESTING_DEPTH {
            return Err(ParseError::new(ParseErrorKind::MaxDepthExceeded, start_span));
        }
        self.depth += 1;
        if matches!(self.current().kind, TokenKind::Indent) {
            self.advance();
        }
        if matches!(self.current().kind, TokenKind::Dash) {
            let result = self.parse_expanded_array();
            self.depth -= 1;
            return result;
        }
        let result = self.parse_object(start_span);
        if matches!(self.current().kind, TokenKind::Dedent) {
            self.advance();
        }
        self.depth -= 1;
        result
    }

    /// Parse an expanded array: dash-prefixed items.
    fn parse_expanded_array(&mut self) -> (r: Result<AstNode, ParseError>)
        requires
            old(self).inv(),
        ensures
            final(self).follows(*old(self)),
            (final(self).st(), node_result(r)) == grammar::expanded_array_spec(old(self).toks(), old(self).st()),
        decreases old(self).tokens@.len() - old(self).position, 4int,
    {
        let ghost toks = self.toks();
        proof {
            self.lemma_ok();
        }
        let start_span = self.current().span;
        if self.depth >= MAX_NESTING_DEPTH {
            return Err(ParseError::new(ParseErrorKind::MaxDepthExceeded, start_span));
        }
        self.depth += 1;
        let mut items: Vec<AstNode> = Vec::new();
        proof {
            assert(nodes_view(items@) =~= Seq::<NodeView>::empty());
        }
        loop
            invariant
                self.follows(*old(self)),
                toks == self.toks(),
                self.depth >= old(self).depth + 1,
                grammar::expanded_array_spec(toks, old(self).st())
                    == grammar::expanded_items_spec(toks, self.st(), start_span, nodes_view(items@)),
            decreases self.tokens.len() - self.position,
        {
            proof {
                self.lemma_ok();
                lemma_nodes_view_len(items@);
            }
            if !matches!(self.current().kind, TokenKind::Dash) {
                self.depth -= 1;
                return Ok(finish_array(items, ArrayForm::Expanded, start_span));
            }
            if items.len() >= MAX_ARRAY_ITEMS {
                self.depth -= 1;
                return Err(ParseError::new(ParseErrorKind::TooManyArrayItems, self.current().span));
            }
            let ghost before = self.st();
            // Consume the dash
            self.advance();
            let ghost after_dash = self.st();
            assert(after_dash.pos > before.pos);
            let item = if matches!(self.current().kind, TokenKind::Newline) {
                // Item value on the next line (nested object or array)
                self.advance();
                if matches!(self.current().kind, TokenKind::Indent) {
                    match self.parse_nested_object() {
                        Ok(item) => item,
                        Err(e) => {
                            assert(grammar::dash_item_spec(toks, after_dash) == (self.st(), Err::<NodeView, ErrView>(e@)));
                            return Err(e);
                        },
                    }
                } else {
                    // Empty item: null
                    AstNode::Null { span: Span::point(self.current().span.start) }
                }
            } else if matches!(self.current().kind, TokenKind::Eof | TokenKind::Dedent) {
                // Empty item at the end
                AstNode::Null { span: Span::point(self.current().span.start) }
            } else {
                // Item value on the same line
                match self.parse_value() {
                    Ok(item) => item,
                    Err(e) => {
                        assert(grammar::dash_item_spec(toks, after_dash) == (self.st(), Err::<NodeView, ErrView>(e@)));
                        return Err(e);
                    },
                }
            };
            assert(grammar::dash_item_spec(toks, after_dash) == (self.st(), Ok::<NodeView, ErrView>(node_view(item))));
            proof {
                lemma_nodes_view_push(items@, item);
            }
            items.push(item);
            // Consume the newline after the item
            if matches!(self.current().kind, TokenKind::Newline) {
                self.advance();
            }
            // A dedent ends the array
            if matches!(self.current().kind, TokenKind::Dedent) {
                self.depth -= 1;
                return Ok(finish_array(items, ArrayForm::Expanded, start_span));
            }
        }
    }

    // =========================================================================
    // Objects
    // =========================================================================

    /// Parse the object entries at the current indentation level.
    fn parse_object(&mut self, start_span: Span) -> (r: Result<AstNode, ParseError>)
        requires
            old(self).inv(),
        ensures
            final(self).follows(*old(self)),
            (final(self).st(), node_result(r)) == grammar::object_spec(old(self).toks(), old(self).st(), start_span),
        decreases old(self).tokens@.len() - old(self).position, 3int,
    {
        let ghost toks = self.toks();
        let mut entries: Vec<ObjectEntry> = Vec::new();
        proof {
            assert(entries_view(entries@) =~= Seq::<EntryView>::empty());
        }
        loop
            invariant
                self.follows(*old(self)),
                toks == self.toks(),
                grammar::object_spec(toks, old(self).st(), start_span)
                    == grammar::object_entries_spec(toks, self.st(), start_span, entries_view(entries@)),
            decreases self.tokens.len() - self.position,
        {
            proof {
                self.lemma_ok();
                lemma_entries_view_len(entries@);
            }
            if self.is_at_end() {
                return Ok(finish_object(entries, start_span));
            }
            if entries.len() >= grammar::MAX_OBJECT_ENTRIES {
                return Err(ParseError::new(ParseErrorKind::TooManyObjectEntries, self.current().span));
            }
            let ghost before = self.st();
            self.skip_newlines();
            proof {
                lemma_skip_newlines(toks, before.pos);
            }
            if matches!(self.current().kind, TokenKind::Dedent | TokenKind::Eof) {
                return Ok(finish_object(entries, start_span));
            }
            if !matches!(self.current().kind, TokenKind::Identifier(_) | TokenKind::String(_)) {
                return Ok(finish_object(entries, start_span));
            }
            let ghost entry_start = self.st();
            let key_span = self.current().span;
            match self.parse_object_entry() {
                Ok(entry) => {
                    proof {
                        lemma_entries_view_push(entries@, entry);
                    }
                    entries.push(entry);
                },
                Err(e) => {
                    let n = self.errors.len();
                    if !(n > 0 && self.errors[n - 1].same_as(&e)) {
                        self.record(e);
                    }
                    let _ = self.error_with_context(ParseErrorKind::ExpectedValue, key_span, "incomplete value");
                    proof {
                        lemma_sync(toks, self.position as int);
                    }
                    self.synchronize();
                },
            }
            if matches!(self.current().kind, TokenKind::Newline) {
                self.advance();
            }
        }
    }

    /// Parse a single object entry (`key: value`, or an array entry).
    fn parse_object_entry(&mut self) -> (r: Result<ObjectEntry, ParseError>)
        requires
            old(self).inv(),
        ensures
            final(self).follows(*old(self)),
            (final(self).st(), entry_result(r)) == grammar::object_entry_spec(old(self).toks(), old(self).st()),
            ({
                let k = kind_at(old(self).toks(), old(self).position as int);
                k is Identifier || k is Str
            }) ==> final(self).position > old(self).position,
        decreases old(self).tokens@.len() - old(self).position, 1int,
    {
        let ghost toks = self.toks();
        proof {
            self.lemma_ok();
        }
        let key_token = self.current();
        let key_span = key_token.span;
        let key = match &key_token.kind {
            TokenKind::Identifier(name) => name.clone(),
            TokenKind::String(name) => name.clone(),
            _ => {
                return Err(self.error(ParseErrorKind::ExpectedKey, key_span));
            },
        };
        self.advance();
        // Array header syntax: key[N]
        if matches!(self.current().kind, TokenKind::LeftBracket) {
            return match self.parse_array_with_key(key.as_str(), key_span) {
                Ok(value) => Ok(ObjectEntry { key, key_span, value }),
                Err(e) => Err(e),
            };
        }
        // Expect the colon
        if !matches!(self.current().kind, TokenKind::Colon) {
            let span = self.current().span;
            return Err(self.error(ParseErrorKind::ExpectedColon, span));
        }
        self.advance();
        match self.parse_value() {
            Ok(value) => Ok(ObjectEntry { key, key_span, value }),
            Err(e) => Err(e),
        }
    }

    /// Parse a document (entry point).
    fn parse_document(&mut self) -> (r: Result<AstNode, ParseError>)
        requires
            old(self).inv(),
            old(self).st() == initial_state(),
        ensures
            final(self).follows(*old(self)),
            (final(self).st(), node_result(r)) == document_spec(old(self).toks()),
    {
        let ghost toks = self.toks();
        let start_span = self.current().span;
        self.skip_newlines();
        // Empty document
        if self.is_at_end() {
            return Ok(AstNode::Document { children: Vec::new(), span: Span::point(start_span.start) });
        }
        // The root object
        let root = match self.parse_object(start_span) {
            Ok(root) => root,
            Err(e) => {
                // The root object's own error (its size limit) is recorded
                // too, so recovering parsing reports it.
                self.record(e.duplicate());
                return Err(e);
            },
        };
        let end_span = root.span();
        proof {
            lemma_view_span(root);
        }
        let mut children: Vec<AstNode> = Vec::new();
        children.push(root);
        proof {
            assert(children@ =~= Seq::<AstNode>::empty().push(root));
            lemma_nodes_view_push(Seq::<AstNode>::empty(), root);
            assert(nodes_view(Seq::<AstNode>::empty()) =~= Seq::<NodeView>::empty());
            assert(nodes_view(children@) =~= seq![node_view(root)]);
        }
        Ok(AstNode::Document { children, span: start_span.merge(end_span) })
    }
}

impl Parser {
    /// Create a parser over the tokens of `source`.
    fn new(source: &str) -> (p: Parser)
        requires
            crate::text::utf8_len(source@) <= u32::MAX,
        ensures
            p.inv(),
            p.toks() == scanner::scanned_tokens(source@),
            p.st() == initial_state(),
    {
        let mut scanner = Scanner::new(source);
        let tokens = scanner.scan_all();
        proof {
            scanner::lemma_scanned_tokens(source@, tokens@);
        }
        let p = Parser { tokens, position: 0, errors: Vec::new(), depth: 0 };
        proof {
            assert(error_views(p.errors@) =~= Seq::<ErrView>::empty());
            assert(p.toks().last() == p.tokens@.last()@);
        }
        p
    }
}

/// Parse TOON source into an AST.
///
/// Returns the document on success, else the first error the parser
/// recorded (or the error that stopped it). A source over 10 MB is refused
/// with `DocumentTooLarge`; nesting deeper than 128 levels, arrays over
/// 100,000 items and objects over 10,000 entries are refused too.
pub fn parse(source: &str) -> (r: Result<AstNode, ParseError>)
    ensures
        node_result(r) == grammar::parse_result(source.len() as nat, source@),
        r matches Ok(n) ==> grammar::arrays_bounded(node_view(n)),
        r matches Ok(n) ==> nesting::within_depth(node_view(n), grammar::MAX_NESTING_DEPTH + 2),
        object_size::headers_bounded(scanner::scanned_tokens(source@)) ==> (r matches Ok(n)
            ==> object_size::objects_bounded(node_view(n))),
{
    let size = source.as_bytes().len();
    if size > grammar::MAX_DOCUMENT_SIZE {
        return Err(ParseError::new(ParseErrorKind::DocumentTooLarge, Span::default()));
    }
    proof {
        crate::text::lemma_utf8_bytes_exact(source@);
    }
    let mut parser = Parser::new(source);
    proof {
        grammar::lemma_document_arrays_bounded(parser.toks());
        nesting::lemma_document_within_depth(parser.toks());
        if object_size::headers_bounded(parser.toks()) {
            object_size::lemma_document_objects_bounded(parser.toks());
        }
    }
    let result = parser.parse_document();
    if parser.errors.len() > 0 {
        return Err(parser.errors[0].duplicate());
    }
    result
}

/// The model of what `parse_with_errors` returns.
pub open spec fn recovering_view(r: (Option<AstNode>, Vec<ParseError>)) -> (Option<NodeView>, Seq<ErrView>) {
    (match r.0 {
        Some(n) => Some(node_view(n)),
        None => None,
    }, error_views(r.1@))
}

/// Parse TOON source with error recovery, for IDE use: the document (when
/// its parse went through) and every error recorded on the way.
pub fn parse_with_errors(source: &str) -> (r: (Option<AstNode>, Vec<ParseError>))
    ensures
        recovering_view(r) == grammar::parse_with_errors_result(source.len() as nat, source@),
        r.0 matches Some(n) ==> grammar::arrays_bounded(node_view(n)),
        r.0 matches Some(n) ==> nesting::within_depth(node_view(n), grammar::MAX_NESTING_DEPTH + 2),
        object_size::headers_bounded(scanner::scanned_tokens(source@)) ==> (r.0 matches Some(n)
            ==> object_size::objects_bounded(node_view(n))),
{
    let size = source.as_bytes().len();
    if size > grammar::MAX_DOCUMENT_SIZE {
        let error = ParseError::new(ParseErrorKind::DocumentTooLarge, Span::default());
        let mut errors: Vec<ParseError> = Vec::new();
        errors.push(error);
        proof {
            assert(error_views(errors@) =~= seq![error@]);
        }
        return (None, errors);
    }
    proof {
        crate::text::lemma_utf8_bytes_exact(source@);
    }
    let mut parser = Parser::new(source);
    proof {
        grammar::lemma_document_arrays_bounded(parser.toks());
        nesting::lemma_document_within_depth(parser.toks());
        if object_size::headers_bounded(parser.toks()) {
            object_size::lemma_document_objects_bounded(parser.toks());
        }
    }
    let result = parser.parse_document();
    match result {
        Ok(ast) => (Some(ast), parser.errors),
        Err(_) => (None, parser.errors),
    }
}

/// The words joined with single spaces (`[String]::join(" ")`).
fn join_with_spaces(parts: &Vec<String>) -> (s: String)
    ensures
        s@ == join_words(string_views(parts@)),
{
    let mut s = String::new();
    let mut i: usize = 0;
    while i < parts.len()
        invariant
            0 <= i <= parts.len(),
            s@ == join_words(string_views(parts@.take(i as int))),
        decreases parts.len() - i,
    {
        proof {
            let a = string_views(parts@.take(i as int + 1));
            assert(a.drop_last() =~= string_views(parts@.take(i as int)));
            assert(a.last() == parts@[i as int]@);
            if i == 0 {
                assert(a =~= seq![parts@[0]@]);
            }
        }
        if i > 0 {
            s.append(" ");
            proof {
                reveal_strlit(" ");
            }
        }
        s.append(parts[i].as_str());
        i += 1;
    }
    proof {
        assert(parts@.take(parts.len() as int) =~= parts@);
    }
    s
}

/// Whether `c` is white space (`char::is_whitespace`).
fn is_whitespace_char(c: char) -> (b: bool)
    ensures
        b == is_white_space(c),
{
    ('\u{9}' <= c && c <= '\u{d}') || c == ' ' || c == '\u{85}' || c == '\u{a0}' || c == '\u{1680}'
        || ('\u{2000}' <= c && c <= '\u{200a}') || c == '\u{2028}' || c == '\u{2029}'
        || c == '\u{202f}' || c == '\u{205f}' || c == '\u{3000}'
}

/// `s` without leading and trailing white space (`str::trim`).
fn trim_white_string(s: &String) -> (t: String)
    ensures
        t@ == trim_white(s@),
{
    let v = chars_of(s.as_str());
    let mut a: usize = 0;
    while a < v.len() && is_whitespace_char(v[a])
        invariant
            0 <= a <= v.len(),
            skip_white_from(v@, a as int) == skip_white_from(v@, 0),
        decreases v.len() - a,
    {
        a += 1;
    }
    let mut b: usize = v.len();
    while a < b && is_whitespace_char(v[b - 1])
        invariant
            a <= b <= v.len(),
            a == skip_white_from(v@, 0),
            trim_end_from(v@, a as int, b as int) == trim_end_from(v@, a as int, v.len() as int),
        decreases b - a,
    {
        b -= 1;
    }
    crate::text::string_of(&v, a, b)
}

} // verus!
