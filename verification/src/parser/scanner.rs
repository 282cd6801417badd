//! TOON scanner: turns source text into tokens that carry their spans.
use super::lexical::{
    blanks_end, char_is, close_brace_from, has_tab, ident_end, is_alpha, is_leading_zero_literal,
    is_refused_control, is_structural, number_end, number_starts, quoted_scan, space_count,
    triple_quote_at, triple_quote_from, trivia_end, QuotedScan, line_end, block_comment_end,
    lemma_trivia_end, lemma_line_end, lemma_block_comment_end, lemma_blanks_end, digits_end,
    hex_end, zero_tail_end, is_ident_char, is_hex_digit, is_zero_tail_char, lemma_ident_end,
    lemma_digits_end, lemma_hex_end, lemma_zero_tail_end, after_sign, is_hex_literal,
    int_part_end, fraction_end, exponent_end, escape_value,
};
use crate::ast::{Position, Span};
use crate::text::{
    push_decimal,
    is_digit, string_of, range_equals, push_hex4,
    char_utf16_width, char_utf8_width, chars_of, column_after, decimal_digits, hex4,
    lemma_measure_bounds, lemma_measures_within_utf8, newline_count, utf8_len,
};
use vstd::prelude::*;

verus! {

/// Token types in TOON.
#[derive(Debug, Clone, PartialEq, Eq)]
pub enum TokenKind {
    Colon,
    Comma,
    Newline,
    Indent,
    Dedent,
    Eof,
    LeftBracket,
    RightBracket,
    LeftBrace,
    RightBrace,
    Dash,
    String(String),
    Reference(String),
    Number(String),
    True,
    False,
    Null,
    Identifier(String),
    Error(String),
}

/// The model of a token kind: text payloads as character sequences.
pub enum TokenView {
    Colon,
    Comma,
    Newline,
    Indent,
    Dedent,
    Eof,
    LeftBracket,
    RightBracket,
    LeftBrace,
    RightBrace,
    Dash,
    Str(Seq<char>),
    Reference(Seq<char>),
    Number(Seq<char>),
    True,
    False,
    Null,
    Identifier(Seq<char>),
    Error(Seq<char>),
}

impl View for TokenKind {
    type V = TokenView;

    open spec fn view(&self) -> TokenView {
        match self {
            TokenKind::Colon => TokenView::Colon,
            TokenKind::Comma => TokenView::Comma,
            TokenKind::Newline => TokenView::Newline,
            TokenKind::Indent => TokenView::Indent,
            TokenKind::Dedent => TokenView::Dedent,
            TokenKind::Eof => TokenView::Eof,
            TokenKind::LeftBracket => TokenView::LeftBracket,
            TokenKind::RightBracket => TokenView::RightBracket,
            TokenKind::LeftBrace => TokenView::LeftBrace,
            TokenKind::RightBrace => TokenView::RightBrace,
            TokenKind::Dash => TokenView::Dash,
            TokenKind::String(s) => TokenView::Str(s@),
            TokenKind::Reference(s) => TokenView::Reference(s@),
            TokenKind::Number(s) => TokenView::Number(s@),
            TokenKind::True => TokenView::True,
            TokenKind::False => TokenView::False,
            TokenKind::Null => TokenView::Null,
            TokenKind::Identifier(s) => TokenView::Identifier(s@),
            TokenKind::Error(s) => TokenView::Error(s@),
        }
    }
}

/// A token with its span.
#[derive(Debug, Clone, PartialEq, Eq)]
pub struct Token {
    pub kind: TokenKind,
    pub span: Span,
}

/// The model of a token.
pub struct TokView {
    pub kind: TokenView,
    pub span: Span,
}

impl View for Token {
    type V = TokView;

    open spec fn view(&self) -> TokView {
        TokView { kind: self.kind@, span: self.span }
    }
}

impl Token {
    /// Create a token.
    pub fn new(kind: TokenKind, span: Span) -> (t: Self)
        ensures
            t.kind == kind,
            t.span == span,
    {
        Token { kind, span }
    }
}

/// The source position of character index `i` of `s`: the line and column
/// reached after reading `s[..i]`, and its UTF-8 byte offset.
pub open spec fn position_at(s: Seq<char>, i: int) -> Position {
    Position {
        line: newline_count(s.take(i)) as u32,
        column: column_after(s.take(i)) as u32,
        offset: utf8_len(s.take(i)) as u32,
    }
}

/// The span between character indices `i` and `j` of `s`.
pub open spec fn span_between(s: Seq<char>, i: int, j: int) -> Span {
    Span { start: position_at(s, i), end: position_at(s, j) }
}

/// The abstract state of a scanner.
pub struct ScanModel {
    /// Index of the next unread character
    pub pos: int,
    /// Indentation levels of the open blocks, outermost first
    pub stack: Seq<u32>,
    /// Dedent tokens still to be emitted
    pub pending: nat,
    /// Whether the next read starts a line
    pub at_line_start: bool,
}

/// The scanner state before reading any input.
pub open spec fn initial_model() -> ScanModel {
    ScanModel { pos: 0, stack: seq![0u32], pending: 0, at_line_start: true }
}

pub open spec fn keyword_or_identifier(text: Seq<char>) -> TokenView {
    if text == "true"@ {
        TokenView::True
    } else if text == "false"@ {
        TokenView::False
    } else if text == "null"@ {
        TokenView::Null
    } else {
        TokenView::Identifier(text)
    }
}

pub open spec fn structural_token(c: char) -> TokenView {
    if c == ':' {
        TokenView::Colon
    } else if c == ',' {
        TokenView::Comma
    } else if c == '[' {
        TokenView::LeftBracket
    } else if c == ']' {
        TokenView::RightBracket
    } else if c == '{' {
        TokenView::LeftBrace
    } else if c == '}' {
        TokenView::RightBrace
    } else {
        TokenView::Dash
    }
}

/// The stack left after popping every level deeper than `spaces`.
pub open spec fn pop_above(stack: Seq<u32>, spaces: u32) -> Seq<u32>
    decreases stack.len(),
{
    if stack.len() > 0 && stack.last() > spaces {
        pop_above(stack.drop_last(), spaces)
    } else {
        stack
    }
}

pub open spec fn mismatch_message(spaces: nat) -> Seq<char> {
    "Indentation mismatch: "@ + decimal_digits(spaces) + " spaces does not match any previous level"@
}

/// The indentation step at the start of a line: `Some` token, or `None` when
/// the indentation keeps the current level (the blanks are then consumed).
pub open spec fn indentation_step(s: Seq<char>, m: ScanModel) -> Option<(TokenView, ScanModel)> {
    let b = blanks_end(s, m.pos);
    let spaces = space_count(s, m.pos, b) as u32;
    let top = m.stack.last();
    if has_tab(s, m.pos, b) {
        Some((TokenView::Error("Tabs not allowed in indentation"@), ScanModel { pos: b, ..m }))
    } else if spaces > top {
        Some((TokenView::Indent, ScanModel { pos: b, stack: m.stack.push(spaces), ..m }))
    } else if spaces < top {
        let st = pop_above(m.stack, spaces);
        let k = (m.stack.len() - st.len()) as nat;
        if (st.len() == 0 || st.last() != spaces) && spaces != 0 {
            Some(
                (
                    TokenView::Error(mismatch_message(spaces as nat)),
                    ScanModel { pos: b, stack: st, pending: k, ..m },
                ),
            )
        } else {
            Some((TokenView::Dedent, ScanModel { pos: b, stack: st, pending: (k - 1) as nat, ..m }))
        }
    } else {
        None
    }
}

/// Reading a token that starts at `p`, right after the trivia.
pub open spec fn lex_at(s: Seq<char>, m: ScanModel, p: int) -> (TokenView, ScanModel) {
    let c = s[p];
    if number_starts(s, p) {
        let e = number_end(s, p);
        let text = s.subrange(p, e);
        if is_leading_zero_literal(s, p) {
            (TokenView::Str(text), ScanModel { pos: e, ..m })
        } else {
            (TokenView::Number(text), ScanModel { pos: e, ..m })
        }
    } else if is_structural(c) {
        (structural_token(c), ScanModel { pos: p + 1, ..m })
    } else if c == '\n' {
        (TokenView::Newline, ScanModel { pos: p + 1, at_line_start: true, ..m })
    } else if c == '"' {
        if triple_quote_at(s, p) {
            block_token(s, m, p)
        } else {
            quoted_token(m, quoted_scan(s, p + 1, seq![]))
        }
    } else if c == '$' {
        if char_is(s, p + 1, '{') {
            reference_token(s, m, p)
        } else {
            (TokenView::Error("Unexpected character: $"@), ScanModel { pos: p + 1, ..m })
        }
    } else if is_alpha(c) || c == '_' {
        let e = ident_end(s, p);
        (keyword_or_identifier(s.subrange(p, e)), ScanModel { pos: e, ..m })
    } else if is_refused_control(c) {
        (
            TokenView::Error("Invalid control character: U+"@ + hex4(c as u32 as nat)),
            ScanModel { pos: p + 1, ..m },
        )
    } else {
        (TokenView::Error("Unexpected character: "@.push(c)), ScanModel { pos: p + 1, ..m })
    }
}

/// The token read from a block string that opens at `p`.
pub open spec fn block_token(s: Seq<char>, m: ScanModel, p: int) -> (TokenView, ScanModel) {
    match triple_quote_from(s, p + 3) {
        Some(q) => (TokenView::Str(s.subrange(p + 3, q)), ScanModel { pos: q + 3, ..m }),
        None => (
            TokenView::Error("Unterminated block string literal"@),
            ScanModel { pos: s.len() as int, ..m },
        ),
    }
}

/// The token read from a reference that opens at `p`.
pub open spec fn reference_token(s: Seq<char>, m: ScanModel, p: int) -> (TokenView, ScanModel) {
    match close_brace_from(s, p + 2) {
        Some(q) => (TokenView::Reference(s.subrange(p + 2, q)), ScanModel { pos: q + 1, ..m }),
        None => (
            TokenView::Error("Unterminated reference literal"@),
            ScanModel { pos: s.len() as int, ..m },
        ),
    }
}

/// The token read from a quoted string with outcome `q`.
pub open spec fn quoted_token(m: ScanModel, q: QuotedScan) -> (TokenView, ScanModel) {
    match q {
        QuotedScan::Closed { end, value } => (TokenView::Str(value), ScanModel { pos: end, ..m }),
        QuotedScan::Unterminated { end } => (
            TokenView::Error("Unterminated string literal"@),
            ScanModel { pos: end, ..m },
        ),
        QuotedScan::BadEscape { end, ch } => (
            TokenView::Error("Invalid escape sequence: \\"@.push(ch)),
            ScanModel { pos: end, ..m },
        ),
        QuotedScan::EscapeAtEnd { end } => (
            TokenView::Error("Unterminated escape sequence"@),
            ScanModel { pos: end, ..m },
        ),
    }
}

/// Reading past the trivia at `m.pos`, then a token (or the end of input).
/// Returns the token, the index where its span starts, and the next state.
pub open spec fn lex_step(s: Seq<char>, m: ScanModel) -> (TokenView, int, ScanModel) {
    let p = trivia_end(s, m.pos);
    if p >= s.len() {
        if m.stack.len() > 0 && m.stack.last() > 0 {
            (TokenView::Dedent, p, ScanModel { pos: p, stack: m.stack.drop_last(), ..m })
        } else {
            (TokenView::Eof, p, ScanModel { pos: p, ..m })
        }
    } else {
        let (t, m2) = lex_at(s, m, p);
        (t, p, m2)
    }
}

/// One step of the scanner: the next token, the character index where its
/// span starts, and the state after it. Its span ends at the new state's index.
pub open spec fn scan_step(s: Seq<char>, m: ScanModel) -> (TokenView, int, ScanModel) {
    if m.pending > 0 {
        (TokenView::Dedent, m.pos, ScanModel { pending: (m.pending - 1) as nat, ..m })
    } else if m.at_line_start {
        let m1 = ScanModel { at_line_start: false, ..m };
        match indentation_step(s, m1) {
            Some((t, m2)) => (t, m.pos, m2),
            None => lex_step(s, ScanModel { pos: blanks_end(s, m.pos), ..m1 }),
        }
    } else {
        lex_step(s, m)
    }
}

/// Whether a model is a reachable state over `s`.
pub open spec fn model_wf(s: Seq<char>, m: ScanModel) -> bool {
    &&& utf8_len(s) <= u32::MAX
    &&& s.len() <= u32::MAX
    &&& 0 <= m.pos <= s.len()
    &&& m.stack.len() >= 1
    &&& m.stack[0] == 0
    &&& m.pending + m.stack.len() <= m.pos + 1
}

/// A measure that every step other than the end of input decreases.
pub open spec fn scan_measure(s: Seq<char>, m: ScanModel) -> int {
    3 * (s.len() - m.pos) + m.stack.len() + m.pending + if m.at_line_start { 1int } else { 0int }
}

/// Scanner state for tokenizing TOON input.
pub struct Scanner {
    source: Vec<char>,
    pos: usize,
    line: u32,
    column: u32,
    offset: u32,
    indent_stack: Vec<u32>,
    pending_dedents: u32,
    at_line_start: bool,
}

impl Scanner {
    /// The characters being scanned.
    pub closed spec fn src(&self) -> Seq<char> {
        self.source@
    }

    /// The abstract state.
    pub closed spec fn model(&self) -> ScanModel {
        ScanModel {
            pos: self.pos as int,
            stack: self.indent_stack@,
            pending: self.pending_dedents as nat,
            at_line_start: self.at_line_start,
        }
    }

    /// The scanner's invariant.
    pub closed spec fn wf(&self) -> bool {
        &&& model_wf(self.source@, self.model())
        &&& self.line as nat == newline_count(self.source@.take(self.pos as int))
        &&& self.column as nat == column_after(self.source@.take(self.pos as int))
        &&& self.offset as nat == utf8_len(self.source@.take(self.pos as int))
    }

    /// Create a new scanner for the given source.
    pub fn new(source: &str) -> (sc: Self)
        requires
            utf8_len(source@) <= u32::MAX,
        ensures
            sc.wf(),
            sc.src() == source@,
            sc.model() == initial_model(),
    {
        let chars = chars_of(source);
        let mut stack: Vec<u32> = Vec::new();
        stack.push(0);
        let sc = Scanner {
            source: chars,
            pos: 0,
            line: 0,
            column: 0,
            offset: 0,
            indent_stack: stack,
            pending_dedents: 0,
            at_line_start: true,
        };
        proof {
            assert(sc.source@.take(0) =~= Seq::<char>::empty());
            assert(sc.indent_stack@ =~= seq![0u32]);
            lemma_measures_within_utf8(source@);
        }
        sc
    }

    /// Current position in the source.
    pub fn current_position(&self) -> (p: Position)
        requires
            self.wf(),
        ensures
            p == position_at(self.src(), self.model().pos),
    {
        proof {
            lemma_measure_bounds(self.source@.take(self.pos as int));
            lemma_measures_within_utf8(self.source@.take(self.pos as int));
        }
        Position { line: self.line, column: self.column, offset: self.offset }
    }

    proof fn lemma_step_measures(s: Seq<char>, i: int)
        requires
            0 <= i < s.len(),
        ensures
            s.take(i + 1).drop_last() == s.take(i),
            s.take(i + 1).last() == s[i],
    {
        assert(s.take(i + 1).drop_last() =~= s.take(i));
    }

    fn advance(&mut self) -> (r: Option<char>)
        requires
            old(self).wf(),
        ensures
            final(self).wf(),
            final(self).src() == old(self).src(),
            old(self).model().pos < old(self).src().len() ==> r == Some(old(self).src()[old(self).model().pos])
                && final(self).model() == (ScanModel { pos: old(self).model().pos + 1, ..old(self).model() }),
            old(self).model().pos >= old(self).src().len() ==> r is None && final(self).model() == old(self).model(),
    {
        if self.pos < self.source.len() {
            let ch = self.source[self.pos];
            proof {
                Self::lemma_step_measures(self.source@, self.pos as int);
                lemma_measure_bounds(self.source@.take(self.pos + 1));
                lemma_measures_within_utf8(self.source@.take(self.pos + 1));
                lemma_offset_monotone(self.source@, self.pos + 1, self.source@.len() as int);
                assert(self.source@.take(self.source@.len() as int) =~= self.source@);
            }
            self.offset = self.offset + char_utf8_width(ch);
            if ch == '\n' {
                self.line = self.line + 1;
                self.column = 0;
            } else if ch != '\r' {
                self.column = self.column + char_utf16_width(ch);
            }
            self.pos = self.pos + 1;
            Some(ch)
        } else {
            None
        }
    }

    fn peek(&self) -> (r: Option<char>)
        ensures
            r == if self.model().pos < self.src().len() { Some(self.src()[self.model().pos]) } else { None::<char> },
    {
        if self.pos < self.source.len() {
            Some(self.source[self.pos])
        } else {
            None
        }
    }

    fn peek_next(&self) -> (r: Option<char>)
        requires
            self.wf(),
        ensures
            r == if self.model().pos + 1 < self.src().len() { Some(self.src()[self.model().pos + 1]) } else { None::<char> },
    {
        if self.pos < self.source.len() && self.source.len() - self.pos > 1 {
            Some(self.source[self.pos + 1])
        } else {
            None
        }
    }

    fn peek_next2(&self) -> (r: Option<char>)
        requires
            self.wf(),
        ensures
            r == if self.model().pos + 2 < self.src().len() { Some(self.src()[self.model().pos + 2]) } else { None::<char> },
    {
        if self.pos < self.source.len() && self.source.len() - self.pos > 2 {
            Some(self.source[self.pos + 2])
        } else {
            None
        }
    }
}


impl Scanner {
    /// Skip blanks, `#` line comments (up to, not including, the line feed) and
    /// `/* */` block comments (to the end of input when unterminated).
    fn skip_trivia(&mut self)
        requires
            old(self).wf(),
        ensures
            final(self).wf(),
            final(self).src() == old(self).src(),
            final(self).model() == (ScanModel {
                pos: trivia_end(old(self).src(), old(self).model().pos),
                ..old(self).model()
            }),
    {
        let ghost src = self.source@;
        let ghost m0 = self.model();
        let ghost target = trivia_end(src, self.pos as int);
        proof {
            lemma_trivia_end(src, self.pos as int);
        }
        loop
            invariant
                self.wf(),
                self.source@ == src,
                self.model() == (ScanModel { pos: self.pos as int, ..m0 }),
                self.pos <= target <= src.len(),
                trivia_end(src, self.pos as int) == target,
            ensures
                self.wf(),
                self.source@ == src,
                self.model() == (ScanModel { pos: self.pos as int, ..m0 }),
                self.pos == target,
            decreases src.len() - self.pos,
        {
            let c = self.peek();
            match c {
                Some(ch) => {
                    if ch == ' ' || ch == '\t' || ch == '\r' {
                        self.advance();
                        proof {
                            lemma_trivia_end(src, self.pos as int);
                        }
                    } else if ch == '#' {
                        self.advance();
                        let ghost inner = self.pos;
                        proof {
                            lemma_line_end(src, self.pos as int);
                        }
                        loop
                            invariant
                                self.pos >= inner,
                                self.wf(),
                                self.source@ == src,
                                self.model() == (ScanModel { pos: self.pos as int, ..m0 }),
                                self.pos <= target <= src.len(),
                                line_end(src, self.pos as int) == target,
                            ensures
                                self.pos >= inner,
                                self.wf(),
                                self.source@ == src,
                                self.model() == (ScanModel { pos: self.pos as int, ..m0 }),
                                self.pos == target,
                                self.pos == src.len() || src[self.pos as int] == '\n',
                            decreases src.len() - self.pos,
                        {
                            match self.peek() {
                                Some(x) => {
                                    if x == '\n' {
                                        break;
                                    }
                                    self.advance();
                                    proof {
                                        lemma_line_end(src, self.pos as int);
                                    }
                                },
                                None => {
                                    break;
                                },
                            }
                        }
                    } else if ch == '/' && self.peek_next() == Some('*') {
                        self.advance();
                        self.advance();
                        let ghost inner = self.pos;
                        proof {
                            lemma_block_comment_end(src, self.pos as int);
                        }
                        loop
                            invariant_except_break
                                block_comment_end(src, self.pos as int) == target,
                            invariant
                                self.pos >= inner,
                                self.wf(),
                                self.source@ == src,
                                self.model() == (ScanModel { pos: self.pos as int, ..m0 }),
                                self.pos <= src.len(),
                            ensures
                                self.pos >= inner,
                                self.wf(),
                                self.source@ == src,
                                self.model() == (ScanModel { pos: self.pos as int, ..m0 }),
                                self.pos <= target,
                                trivia_end(src, self.pos as int) == target,
                            decreases src.len() - self.pos,
                        {
                            match self.peek() {
                                Some(x) => {
                                    if x == '*' && self.peek_next() == Some('/') {
                                        self.advance();
                                        self.advance();
                                        proof {
                                            lemma_trivia_end(src, self.pos as int);
                                        }
                                        break;
                                    }
                                    self.advance();
                                    proof {
                                        lemma_block_comment_end(src, self.pos as int);
                                    }
                                },
                                None => {
                                    break;
                                },
                            }
                        }
                    } else {
                        break;
                    }
                },
                None => {
                    break;
                },
            }
        }
    }

    /// Count the spaces (and detect tabs) at the start of a line, consuming them.
    fn count_leading_spaces(&mut self) -> (r: (u32, bool))
        requires
            old(self).wf(),
        ensures
            final(self).wf(),
            final(self).src() == old(self).src(),
            final(self).model() == (ScanModel {
                pos: blanks_end(old(self).src(), old(self).model().pos),
                ..old(self).model()
            }),
            r.0 as nat == space_count(old(self).src(), old(self).model().pos, final(self).model().pos),
            r.1 == has_tab(old(self).src(), old(self).model().pos, final(self).model().pos),
    {
        let ghost src = self.source@;
        let ghost m0 = self.model();
        let ghost start = self.pos as int;
        let ghost target = blanks_end(src, start);
        proof {
            lemma_blanks_end(src, start);
        }
        let mut count: u32 = 0;
        let mut tab = false;
        loop
            invariant
                self.wf(),
                self.source@ == src,
                self.model() == (ScanModel { pos: self.pos as int, ..m0 }),
                0 <= start <= self.pos <= target <= src.len(),
                blanks_end(src, self.pos as int) == target,
                count as nat == space_count(src, start, self.pos as int),
                count <= self.pos - start,
                tab == has_tab(src, start, self.pos as int),
            ensures
                self.wf(),
                self.source@ == src,
                self.model() == (ScanModel { pos: self.pos as int, ..m0 }),
                self.pos == target,
                count as nat == space_count(src, start, self.pos as int),
                tab == has_tab(src, start, self.pos as int),
            decreases src.len() - self.pos,
        {
            match self.peek() {
                Some(ch) => {
                    if ch == ' ' {
                        count = count + 1;
                        self.advance();
                        proof {
                            lemma_blanks_end(src, self.pos as int);
                        }
                    } else if ch == '\t' {
                        tab = true;
                        self.advance();
                        proof {
                            lemma_blanks_end(src, self.pos as int);
                        }
                        proof {
                            assert(src[self.pos - 1] == '\t');
                        }
                    } else {
                        break;
                    }
                    proof {
                        assert(has_tab(src, start, self.pos as int) == (has_tab(src, start, self.pos - 1) || src[self.pos - 1] == '\t'));
                    }
                },
                None => {
                    break;
                },
            }
        }
        (count, tab)
    }

    /// A token from `start` to the current position.
    fn make_token(&self, kind: TokenKind, start: Position) -> (t: Token)
        requires
            self.wf(),
        ensures
            t.kind == kind,
            t.span.start == start,
            t.span.end == position_at(self.src(), self.model().pos),
    {
        let end = self.current_position();
        Token::new(kind, Span::new(start, end))
    }
}


fn exec_is_digit(c: char) -> (b: bool)
    ensures
        b == is_digit(c),
{
    '0' <= c && c <= '9'
}

fn exec_is_alpha(c: char) -> (b: bool)
    ensures
        b == is_alpha(c),
{
    ('a' <= c && c <= 'z') || ('A' <= c && c <= 'Z')
}

fn exec_is_ident_char(c: char) -> (b: bool)
    ensures
        b == is_ident_char(c),
{
    exec_is_alpha(c) || exec_is_digit(c) || c == '_'
}

fn exec_is_hex_digit(c: char) -> (b: bool)
    ensures
        b == is_hex_digit(c),
{
    exec_is_digit(c) || ('a' <= c && c <= 'f') || ('A' <= c && c <= 'F')
}

/// The character classes that the scanner skips runs of.
#[derive(Clone, Copy)]
enum RunClass {
    Ident,
    Digit,
    Hex,
    ZeroTail,
}

spec fn in_class(k: RunClass, c: char) -> bool {
    match k {
        RunClass::Ident => is_ident_char(c),
        RunClass::Digit => is_digit(c),
        RunClass::Hex => is_hex_digit(c),
        RunClass::ZeroTail => is_zero_tail_char(c),
    }
}

spec fn class_end(k: RunClass, s: Seq<char>, i: int) -> int {
    match k {
        RunClass::Ident => ident_end(s, i),
        RunClass::Digit => digits_end(s, i),
        RunClass::Hex => hex_end(s, i),
        RunClass::ZeroTail => zero_tail_end(s, i),
    }
}

fn exec_in_class(k: RunClass, c: char) -> (b: bool)
    ensures
        b == in_class(k, c),
{
    match k {
        RunClass::Ident => exec_is_ident_char(c),
        RunClass::Digit => exec_is_digit(c),
        RunClass::Hex => exec_is_hex_digit(c),
        RunClass::ZeroTail => exec_is_ident_char(c) || c == '.',
    }
}

proof fn lemma_class_end(k: RunClass, s: Seq<char>, i: int)
    requires
        0 <= i <= s.len(),
    ensures
        i <= class_end(k, s, i) <= s.len(),
        i < s.len() && in_class(k, s[i]) ==> class_end(k, s, i) == class_end(k, s, i + 1),
        !(i < s.len() && in_class(k, s[i])) ==> class_end(k, s, i) == i,
{
    match k {
        RunClass::Ident => lemma_ident_end(s, i),
        RunClass::Digit => lemma_digits_end(s, i),
        RunClass::Hex => lemma_hex_end(s, i),
        RunClass::ZeroTail => lemma_zero_tail_end(s, i),
    }
}

impl Scanner {
    /// Consume the run of characters of class `k`.
    fn skip_class(&mut self, k: RunClass)
        requires
            old(self).wf(),
        ensures
            final(self).wf(),
            final(self).src() == old(self).src(),
            final(self).model() == (ScanModel {
                pos: class_end(k, old(self).src(), old(self).model().pos),
                ..old(self).model()
            }),
            old(self).model().pos <= final(self).model().pos,
    {
        let ghost src = self.source@;
        let ghost m0 = self.model();
        let ghost target = class_end(k, src, self.pos as int);
        proof {
            lemma_class_end(k, src, self.pos as int);
        }
        loop
            invariant
                self.wf(),
                self.source@ == src,
                self.model() == (ScanModel { pos: self.pos as int, ..m0 }),
                self.pos <= target <= src.len(),
                class_end(k, src, self.pos as int) == target,
            ensures
                self.wf(),
                self.source@ == src,
                self.model() == (ScanModel { pos: self.pos as int, ..m0 }),
                self.pos == target,
            decreases src.len() - self.pos,
        {
            proof {
                lemma_class_end(k, src, self.pos as int);
            }
            match self.peek() {
                Some(c) => {
                    if !exec_in_class(k, c) {
                        break;
                    }
                    self.advance();
                    proof {
                        lemma_class_end(k, src, self.pos as int);
                    }
                },
                None => {
                    break;
                },
            }
        }
    }

    /// Scan a number literal (integer, float, scientific or hexadecimal); a
    /// literal with a leading zero such as `05` becomes a string token.
    #[verifier::rlimit(50)]
    fn scan_number(&mut self) -> (t: Token)
        requires
            old(self).wf(),
            number_starts(old(self).src(), old(self).model().pos),
        ensures
            final(self).wf(),
            final(self).src() == old(self).src(),
            (t.kind@, final(self).model()) == lex_at(old(self).src(), old(self).model(), old(self).model().pos),
            t.span == span_between(old(self).src(), old(self).model().pos, final(self).model().pos),
            final(self).model().pos > old(self).model().pos,
    {
        let ghost src = self.source@;
        let ghost p = self.pos as int;
        let ghost m0 = self.model();
        let start = self.current_position();
        let start_idx = self.pos;
        if self.peek() == Some('-') {
            self.advance();
        }
        assert(self.pos as int == after_sign(src, p));
        if self.peek() == Some('0') && (self.peek_next() == Some('x') || self.peek_next() == Some('X')) {
            self.advance();
            self.advance();
            self.skip_class(RunClass::Hex);
            let text = string_of(&self.source, start_idx, self.pos);
            return self.make_token(TokenKind::Number(text), start);
        }
        if self.peek() == Some('0') {
            self.advance();
            let next = self.peek();
            if next.is_some() && exec_is_digit(next.unwrap()) {
                self.skip_class(RunClass::ZeroTail);
                let text = string_of(&self.source, start_idx, self.pos);
                return self.make_token(TokenKind::String(text), start);
            }
        } else {
            proof {
                lemma_digits_end(src, self.pos + 1);
            }
            self.skip_class(RunClass::Digit);
        }
        assert(self.pos as int == int_part_end(src, p));
        assert(self.pos > p);
        let ghost k1 = self.pos as int;
        if self.peek() == Some('.') {
            let n = self.peek_next();
            if n.is_some() && exec_is_digit(n.unwrap()) {
                self.advance();
                self.skip_class(RunClass::Digit);
            }
        }
        assert(self.pos as int == fraction_end(src, k1));
        let ghost k2 = self.pos as int;
        if self.peek() == Some('e') || self.peek() == Some('E') {
            self.advance();
            if self.peek() == Some('+') || self.peek() == Some('-') {
                self.advance();
            }
            self.skip_class(RunClass::Digit);
        }
        assert(self.pos as int == exponent_end(src, k2));
        let text = string_of(&self.source, start_idx, self.pos);
        self.make_token(TokenKind::Number(text), start)
    }

    /// Scan an identifier, or the keyword `true`, `false` or `null`.
    fn scan_identifier_or_keyword(&mut self) -> (t: Token)
        requires
            old(self).wf(),
            old(self).model().pos < old(self).src().len(),
            !number_starts(old(self).src(), old(self).model().pos),
            is_alpha(old(self).src()[old(self).model().pos]) || old(self).src()[old(self).model().pos] == '_',
        ensures
            final(self).wf(),
            final(self).src() == old(self).src(),
            (t.kind@, final(self).model()) == lex_at(old(self).src(), old(self).model(), old(self).model().pos),
            t.span == span_between(old(self).src(), old(self).model().pos, final(self).model().pos),
            final(self).model().pos > old(self).model().pos,
    {
        let start = self.current_position();
        let start_idx = self.pos;
        proof {
            lemma_ident_end(self.source@, self.pos + 1);
        }
        self.skip_class(RunClass::Ident);
        let kw_true = chars_of("true");
        let kw_false = chars_of("false");
        let kw_null = chars_of("null");
        let kind = if range_equals(&self.source, start_idx, self.pos, &kw_true) {
            TokenKind::True
        } else if range_equals(&self.source, start_idx, self.pos, &kw_false) {
            TokenKind::False
        } else if range_equals(&self.source, start_idx, self.pos, &kw_null) {
            TokenKind::Null
        } else {
            TokenKind::Identifier(string_of(&self.source, start_idx, self.pos))
        };
        self.make_token(kind, start)
    }

    /// Scan one of `: , [ ] { } -`.
    fn scan_structural(&mut self, ch: char) -> (t: Token)
        requires
            old(self).wf(),
            old(self).model().pos < old(self).src().len(),
            old(self).src()[old(self).model().pos] == ch,
            !number_starts(old(self).src(), old(self).model().pos),
            is_structural(ch),
        ensures
            final(self).wf(),
            final(self).src() == old(self).src(),
            (t.kind@, final(self).model()) == lex_at(old(self).src(), old(self).model(), old(self).model().pos),
            t.span == span_between(old(self).src(), old(self).model().pos, final(self).model().pos),
            final(self).model().pos > old(self).model().pos,
    {
        let start = self.current_position();
        self.advance();
        let kind = if ch == ':' {
            TokenKind::Colon
        } else if ch == ',' {
            TokenKind::Comma
        } else if ch == '[' {
            TokenKind::LeftBracket
        } else if ch == ']' {
            TokenKind::RightBracket
        } else if ch == '{' {
            TokenKind::LeftBrace
        } else if ch == '}' {
            TokenKind::RightBrace
        } else {
            TokenKind::Dash
        };
        self.make_token(kind, start)
    }

    /// Scan a line feed.
    fn scan_newline(&mut self) -> (t: Token)
        requires
            old(self).wf(),
            old(self).model().pos < old(self).src().len(),
            old(self).src()[old(self).model().pos] == '\n',
        ensures
            final(self).wf(),
            final(self).src() == old(self).src(),
            (t.kind@, final(self).model()) == lex_at(old(self).src(), old(self).model(), old(self).model().pos),
            t.span == span_between(old(self).src(), old(self).model().pos, final(self).model().pos),
            final(self).model().pos > old(self).model().pos,
    {
        let start = self.current_position();
        self.advance();
        self.at_line_start = true;
        self.make_token(TokenKind::Newline, start)
    }
}


impl Scanner {
    /// Scan a quoted string literal, decoding the escapes `\n \r \t \" \\`.
    fn scan_quoted_string(&mut self) -> (t: Token)
        requires
            old(self).wf(),
            old(self).model().pos < old(self).src().len(),
            old(self).src()[old(self).model().pos] == '"',
            !triple_quote_at(old(self).src(), old(self).model().pos),
        ensures
            final(self).wf(),
            final(self).src() == old(self).src(),
            (t.kind@, final(self).model()) == lex_at(old(self).src(), old(self).model(), old(self).model().pos),
            t.span == span_between(old(self).src(), old(self).model().pos, final(self).model().pos),
            final(self).model().pos > old(self).model().pos,
    {
        let ghost src = self.source@;
        let ghost p = self.pos as int;
        let ghost m0 = self.model();
        let start = self.current_position();
        self.advance();
        let mut value = String::new();
        let ghost outcome = quoted_scan(src, p + 1, seq![]);
        assert(!number_starts(src, p));
        assert(lex_at(src, m0, p) == quoted_token(m0, outcome));
        loop
            invariant
                src == old(self).src(),
                m0 == old(self).model(),
                p == old(self).model().pos,
                self.wf(),
                self.source@ == src,
                self.model() == (ScanModel { pos: self.pos as int, ..m0 }),
                p < self.pos <= src.len(),
                start == position_at(src, p),
                outcome == quoted_scan(src, p + 1, seq![]),
                lex_at(src, m0, p) == quoted_token(m0, outcome),
                quoted_scan(src, self.pos as int, value@) == outcome,
            decreases src.len() - self.pos,
        {
            match self.peek() {
                None => {
                    let msg = String::from_str("Unterminated string literal");
                    assert(quoted_scan(src, self.pos as int, value@) == QuotedScan::Unterminated { end: self.pos as int });
                    return self.make_token(TokenKind::Error(msg), start);
                },
                Some(c) => {
                    if c == '\n' {
                        let msg = String::from_str("Unterminated string literal");
                        assert(quoted_scan(src, self.pos as int, value@) == QuotedScan::Unterminated { end: self.pos as int });
                        return self.make_token(TokenKind::Error(msg), start);
                    } else if c == '"' {
                        assert(quoted_scan(src, self.pos as int, value@) == QuotedScan::Closed { end: self.pos + 1, value: value@ });
                        self.advance();
                        return self.make_token(TokenKind::String(value), start);
                    } else if c == '\\' {
                        self.advance();
                        match self.peek() {
                            None => {
                                let msg = String::from_str("Unterminated escape sequence");
                                assert(quoted_scan(src, self.pos - 1, value@) == QuotedScan::EscapeAtEnd { end: self.pos as int });
                                return self.make_token(TokenKind::Error(msg), start);
                            },
                            Some(e) => {
                                if e == 'n' {
                                    self.advance();
                                    value.push('\n');
                                } else if e == 'r' {
                                    self.advance();
                                    value.push('\r');
                                } else if e == 't' {
                                    self.advance();
                                    value.push('\t');
                                } else if e == '"' {
                                    self.advance();
                                    value.push('"');
                                } else if e == '\\' {
                                    self.advance();
                                    value.push('\\');
                                } else {
                                    let mut msg = String::from_str("Invalid escape sequence: \\");
                                    msg.push(e);
                                    assert(quoted_scan(src, self.pos - 1, value@) == QuotedScan::BadEscape { end: self.pos as int, ch: e });
                                    return self.make_token(TokenKind::Error(msg), start);
                                }
                            },
                        }
                    } else {
                        self.advance();
                        value.push(c);
                    }
                },
            }
        }
    }

    /// Whether the next three characters are `"""`.
    fn is_closing_triple(&self) -> (b: bool)
        requires
            self.wf(),
        ensures
            b == triple_quote_at(self.src(), self.model().pos),
    {
        self.peek() == Some('"') && self.peek_next() == Some('"') && self.peek_next2() == Some('"')
    }

    /// Scan a triple-quoted block string; its content is kept verbatim.
    fn scan_block_string(&mut self) -> (t: Token)
        requires
            old(self).wf(),
            old(self).model().pos < old(self).src().len(),
            old(self).src()[old(self).model().pos] == '"',
            triple_quote_at(old(self).src(), old(self).model().pos),
        ensures
            final(self).wf(),
            final(self).src() == old(self).src(),
            (t.kind@, final(self).model()) == lex_at(old(self).src(), old(self).model(), old(self).model().pos),
            t.span == span_between(old(self).src(), old(self).model().pos, final(self).model().pos),
            final(self).model().pos > old(self).model().pos,
    {
        let ghost src = self.source@;
        let ghost p = self.pos as int;
        let ghost m0 = self.model();
        let start = self.current_position();
        self.advance();
        self.advance();
        self.advance();
        let content_start = self.pos;
        assert(!number_starts(src, p));
        assert(lex_at(src, m0, p) == block_token(src, m0, p));
        loop
            invariant
                src == old(self).src(),
                m0 == old(self).model(),
                p == old(self).model().pos,
                start == position_at(src, p),
                self.wf(),
                self.source@ == src,
                self.model() == (ScanModel { pos: self.pos as int, ..m0 }),
                content_start == p + 3,
                lex_at(src, m0, p) == block_token(src, m0, p),
                p + 3 <= self.pos <= src.len(),
                triple_quote_from(src, p + 3) == triple_quote_from(src, self.pos as int),
            decreases src.len() - self.pos,
        {
            match self.peek() {
                None => {
                    let msg = String::from_str("Unterminated block string literal");
                    assert(triple_quote_from(src, self.pos as int) is None);
                    return self.make_token(TokenKind::Error(msg), start);
                },
                Some(c) => {
                    if c == '"' && self.is_closing_triple() {
                        assert(triple_quote_from(src, self.pos as int) == Some(self.pos as int));
                        let text = string_of(&self.source, content_start, self.pos);
                        self.advance();
                        self.advance();
                        self.advance();
                        return self.make_token(TokenKind::String(text), start);
                    }
                    self.advance();
                },
            }
        }
    }

    /// Scan a reference `${...}`; its interior is kept verbatim.
    fn scan_reference(&mut self) -> (t: Token)
        requires
            old(self).wf(),
            old(self).model().pos + 1 < old(self).src().len(),
            old(self).src()[old(self).model().pos] == '$',
            old(self).src()[old(self).model().pos + 1] == '{',
        ensures
            final(self).wf(),
            final(self).src() == old(self).src(),
            (t.kind@, final(self).model()) == lex_at(old(self).src(), old(self).model(), old(self).model().pos),
            t.span == span_between(old(self).src(), old(self).model().pos, final(self).model().pos),
            final(self).model().pos > old(self).model().pos,
    {
        let ghost src = self.source@;
        let ghost p = self.pos as int;
        let ghost m0 = self.model();
        let start = self.current_position();
        self.advance();
        self.advance();
        let content_start = self.pos;
        assert(!number_starts(src, p));
        assert(lex_at(src, m0, p) == reference_token(src, m0, p));
        loop
            invariant
                src == old(self).src(),
                m0 == old(self).model(),
                p == old(self).model().pos,
                start == position_at(src, p),
                self.wf(),
                self.source@ == src,
                self.model() == (ScanModel { pos: self.pos as int, ..m0 }),
                content_start == p + 2,
                lex_at(src, m0, p) == reference_token(src, m0, p),
                p + 2 <= self.pos <= src.len(),
                close_brace_from(src, p + 2) == close_brace_from(src, self.pos as int),
            decreases src.len() - self.pos,
        {
            match self.peek() {
                None => {
                    let msg = String::from_str("Unterminated reference literal");
                    assert(close_brace_from(src, self.pos as int) is None);
                    return self.make_token(TokenKind::Error(msg), start);
                },
                Some(c) => {
                    if c == '}' {
                        assert(close_brace_from(src, self.pos as int) == Some(self.pos as int));
                        let raw = string_of(&self.source, content_start, self.pos);
                        self.advance();
                        return self.make_token(TokenKind::Reference(raw), start);
                    }
                    self.advance();
                },
            }
        }
    }
}


proof fn lemma_pop_above(stack: Seq<u32>, spaces: u32)
    requires
        stack.len() >= 1,
        stack[0] <= spaces,
    ensures
        1 <= pop_above(stack, spaces).len() <= stack.len(),
        pop_above(stack, spaces) == stack.take(pop_above(stack, spaces).len() as int),
        pop_above(stack, spaces).last() <= spaces,
    decreases stack.len(),
{
    if stack.len() > 0 && stack.last() > spaces {
        assert(stack.len() >= 2);
        lemma_pop_above(stack.drop_last(), spaces);
        let r = pop_above(stack.drop_last(), spaces);
        assert(r == stack.take(r.len() as int)) by {
            assert(stack.drop_last().take(r.len() as int) =~= stack.take(r.len() as int));
        }
    } else {
        assert(stack.take(stack.len() as int) =~= stack);
    }
}

proof fn lemma_pop_above_len(stack: Seq<u32>, spaces: u32)
    ensures
        pop_above(stack, spaces).len() <= stack.len(),
    decreases stack.len(),
{
    if stack.len() > 0 && stack.last() > spaces {
        lemma_pop_above_len(stack.drop_last(), spaces);
    }
}

proof fn lemma_space_count_bound(s: Seq<char>, i: int, j: int)
    ensures
        space_count(s, i, j) <= if j >= i { j - i } else { 0 },
    decreases j - i,
{
    if i < j {
        lemma_space_count_bound(s, i, j - 1);
    }
}

impl Scanner {
    /// Handle indentation at the start of a line, emitting an indent, a dedent
    /// or an error token, or nothing when the level is unchanged.
    fn handle_indentation(&mut self) -> (r: Option<Token>)
        requires
            old(self).wf(),
            old(self).model().pending == 0,
        ensures
            final(self).wf(),
            final(self).src() == old(self).src(),
            match indentation_step(old(self).src(), old(self).model()) {
                Some((tv, m2)) => r is Some && r->0.kind@ == tv && final(self).model() == m2
                    && r->0.span == span_between(old(self).src(), old(self).model().pos, m2.pos),
                None => r is None && final(self).model() == (ScanModel {
                    pos: blanks_end(old(self).src(), old(self).model().pos),
                    ..old(self).model()
                }),
            },
    {
        let ghost src = self.source@;
        let ghost m0 = self.model();
        let start = self.current_position();
        let (spaces, tab) = self.count_leading_spaces();
        proof {
            lemma_space_count_bound(src, m0.pos, self.pos as int);
            lemma_blanks_end(src, m0.pos);
        }
        if tab {
            let msg = String::from_str("Tabs not allowed in indentation");
            return Some(self.make_token(TokenKind::Error(msg), start));
        }
        let current_indent = self.indent_stack[self.indent_stack.len() - 1];
        if spaces > current_indent {
            self.indent_stack.push(spaces);
            return Some(self.make_token(TokenKind::Indent, start));
        } else if spaces < current_indent {
            proof {
                lemma_pop_above(m0.stack, spaces);
            }
            let ghost target = pop_above(m0.stack, spaces);
            let ghost b = self.pos;
            let ghost ln = self.line;
            let ghost col = self.column;
            let ghost off = self.offset;
            while self.indent_stack.len() > 0 && self.indent_stack[self.indent_stack.len() - 1] > spaces
                invariant
                    self.source@ == src,
                    self.pos == b,
                    self.line == ln,
                    self.column == col,
                    self.offset == off,
                    pop_above(self.indent_stack@, spaces) == target,
                    self.indent_stack@ == m0.stack.take(self.indent_stack@.len() as int),
                    target.len() <= self.indent_stack@.len() <= m0.stack.len(),
                    m0.stack.len() <= u32::MAX + 1,
                    m0.stack[0] == 0,
                    self.pending_dedents as int == m0.stack.len() - self.indent_stack@.len(),
                    self.at_line_start == m0.at_line_start,
                decreases self.indent_stack.len(),
            {
                let ghost before = self.indent_stack@;
                self.indent_stack.pop();
                self.pending_dedents = self.pending_dedents + 1;
                proof {
                    assert(self.indent_stack@ =~= m0.stack.take(self.indent_stack@.len() as int));
                    assert(self.indent_stack@ == before.drop_last());
                    lemma_pop_above_len(self.indent_stack@, spaces);
                }
            }
            assert(self.indent_stack@ == target);
            let top = self.indent_stack[self.indent_stack.len() - 1];
            if top != spaces && spaces != 0 {
                let mut msg = String::from_str("Indentation mismatch: ");
                push_decimal(&mut msg, spaces as u64);
                msg.append(" spaces does not match any previous level");
                return Some(self.make_token(TokenKind::Error(msg), start));
            }
            self.pending_dedents = self.pending_dedents - 1;
            return Some(self.make_token(TokenKind::Dedent, start));
        }
        None
    }
}


impl Scanner {
    /// Whether a number starts here: a digit, or `-` followed by a digit.
    fn is_number_start(&self) -> (b: bool)
        requires
            self.wf(),
        ensures
            b == number_starts(self.src(), self.model().pos),
    {
        match self.peek() {
            Some(c) => {
                if exec_is_digit(c) {
                    true
                } else if c == '-' {
                    match self.peek_next() {
                        Some(d) => exec_is_digit(d),
                        None => false,
                    }
                } else {
                    false
                }
            },
            None => false,
        }
    }

    /// Skip the trivia and read one token, or close a block / report the end
    /// of input.
    #[verifier::rlimit(50)]
    fn lex_token(&mut self) -> (t: Token)
        requires
            old(self).wf(),
        ensures
            final(self).wf(),
            final(self).src() == old(self).src(),
            t.kind@ == lex_step(old(self).src(), old(self).model()).0,
            final(self).model() == lex_step(old(self).src(), old(self).model()).2,
            t.span == span_between(
                old(self).src(),
                lex_step(old(self).src(), old(self).model()).1,
                final(self).model().pos,
            ),
            old(self).model().pos <= lex_step(old(self).src(), old(self).model()).1
                <= final(self).model().pos,
            !(t.kind is Eof) ==> scan_measure(old(self).src(), final(self).model())
                < scan_measure(old(self).src(), old(self).model()),
            t.kind is Eof ==> final(self).model().pos == old(self).src().len()
                && final(self).model().pending == old(self).model().pending,
    {
        let ghost src = self.source@;
        let ghost m1 = self.model();
        self.skip_trivia();
        proof {
            lemma_trivia_end(src, m1.pos);
        }
        let start = self.current_position();
        match self.peek() {
            None => {
                let top = self.indent_stack[self.indent_stack.len() - 1];
                if top > 0 {
                    self.indent_stack.pop();
                    return self.make_token(TokenKind::Dedent, start);
                }
                return self.make_token(TokenKind::Eof, start);
            },
            Some(ch) => {
                if self.is_number_start() {
                    return self.scan_number();
                }
                if ch == ':' || ch == ',' || ch == '[' || ch == ']' || ch == '{' || ch == '}' || ch == '-' {
                    return self.scan_structural(ch);
                }
                if ch == '\n' {
                    return self.scan_newline();
                }
                if ch == '"' {
                    if self.peek_next() == Some('"') && self.peek_next2() == Some('"') {
                        return self.scan_block_string();
                    } else {
                        return self.scan_quoted_string();
                    }
                }
                if ch == '$' {
                    if self.peek_next() == Some('{') {
                        return self.scan_reference();
                    } else {
                        self.advance();
                        let msg = String::from_str("Unexpected character: $");
                        return self.make_token(TokenKind::Error(msg), start);
                    }
                }
                if exec_is_alpha(ch) || ch == '_' {
                    return self.scan_identifier_or_keyword();
                }
                let v = ch as u32;
                if v <= 0x08 || v == 0x0B || v == 0x0C || (0x0E <= v && v <= 0x1F) || v == 0x7F {
                    self.advance();
                    let mut msg = String::from_str("Invalid control character: U+");
                    push_hex4(&mut msg, v);
                    return self.make_token(TokenKind::Error(msg), start);
                }
                self.advance();
                let mut msg = String::from_str("Unexpected character: ");
                msg.push(ch);
                self.make_token(TokenKind::Error(msg), start)
            },
        }
    }

    /// Scan the next token.
    ///
    /// Pending dedents come first; then the indentation at the start of a
    /// line; then, after the trivia, one token (a number is recognised before
    /// a dash). At the end of input every open block is closed by a dedent
    /// before the end-of-file token.
    pub fn next_token(&mut self) -> (t: Token)
        requires
            old(self).wf(),
        ensures
            final(self).wf(),
            final(self).src() == old(self).src(),
            t.kind@ == scan_step(old(self).src(), old(self).model()).0,
            final(self).model() == scan_step(old(self).src(), old(self).model()).2,
            t.span == span_between(
                old(self).src(),
                scan_step(old(self).src(), old(self).model()).1,
                final(self).model().pos,
            ),
            old(self).model().pos <= scan_step(old(self).src(), old(self).model()).1
                <= final(self).model().pos,
            !(t.kind is Eof) ==> scan_measure(old(self).src(), final(self).model())
                < scan_measure(old(self).src(), old(self).model()),
            t.kind is Eof ==> final(self).model().pos == old(self).src().len()
                && final(self).model().pending == 0,
    {
        let ghost src = self.source@;
        let ghost m0 = self.model();
        if self.pending_dedents > 0 {
            self.pending_dedents = self.pending_dedents - 1;
            let pos = self.current_position();
            return self.make_token(TokenKind::Dedent, pos);
        }
        if self.at_line_start {
            self.at_line_start = false;
            proof {
                lemma_indentation_measure(src, self.model());
            }
            let indented = self.handle_indentation();
            match indented {
                Some(token) => {
                    return token;
                },
                None => {},
            }
            proof {
                lemma_blanks_end(src, m0.pos);
            }
        }
        self.lex_token()
    }
}

proof fn lemma_indentation_measure(s: Seq<char>, m: ScanModel)
    requires
        model_wf(s, m),
        m.pending == 0,
    ensures
        match indentation_step(s, m) {
            Some((t, m2)) => m.pos <= m2.pos && scan_measure(s, m2) <= scan_measure(s, m),
            None => true,
        },
{
    let b = blanks_end(s, m.pos);
    lemma_blanks_end(s, m.pos);
    lemma_space_count_bound(s, m.pos, b);
    let spaces = space_count(s, m.pos, b) as u32;
    assert(space_count(s, m.pos, b) == spaces as nat);
    lemma_pop_above_len(m.stack, spaces);
    if has_tab(s, m.pos, b) {
        assert(b > m.pos);
    } else if spaces > m.stack.last() {
        assert(b > m.pos);
    } else if spaces < m.stack.last() {
        let st = pop_above(m.stack, spaces);
        lemma_pop_above_len(m.stack.drop_last(), spaces);
        assert(st.len() < m.stack.len());
        let k = (m.stack.len() - st.len()) as nat;
        let m2 = ScanModel { pos: b, stack: st, pending: k, ..m };
        assert(scan_measure(s, m2) <= scan_measure(s, m));
        let m3 = ScanModel { pos: b, stack: st, pending: (k - 1) as nat, ..m };
        assert(scan_measure(s, m3) <= scan_measure(s, m));
    }
}

impl ScanModel {
    /// The same state with the read index moved to `pos`.
    pub open spec fn pos_to(self, pos: int) -> ScanModel {
        ScanModel { pos, ..self }
    }
}


/// The scanner state after `n` steps from `m`.
pub open spec fn state_after(s: Seq<char>, m: ScanModel, n: nat) -> ScanModel
    decreases n,
{
    if n == 0 {
        m
    } else {
        scan_step(s, state_after(s, m, (n - 1) as nat)).2
    }
}

/// The `n`-th token (counting from 0) produced from state `m`.
pub open spec fn token_view_at(s: Seq<char>, m: ScanModel, n: nat) -> TokenView {
    scan_step(s, state_after(s, m, n)).0
}

/// The span of the `n`-th token produced from state `m`.
pub open spec fn token_span_at(s: Seq<char>, m: ScanModel, n: nat) -> Span {
    span_between(s, scan_step(s, state_after(s, m, n)).1, state_after(s, m, n + 1).pos)
}

/// Whether the `n`-th token produced from `m` is the first end-of-file token.
pub open spec fn is_first_eof(s: Seq<char>, m: ScanModel, n: nat) -> bool {
    &&& token_view_at(s, m, n) is Eof
    &&& forall|k: nat| k < n ==> !(#[trigger] token_view_at(s, m, k) is Eof)
}

/// The tokens of `s`, up to and including the first end-of-file token.
pub open spec fn scanned_tokens(s: Seq<char>) -> Seq<TokView> {
    let n = choose|n: nat| is_first_eof(s, initial_model(), n);
    Seq::new(n + 1, |k: int| TokView {
        kind: token_view_at(s, initial_model(), k as nat),
        span: token_span_at(s, initial_model(), k as nat),
    })
}

/// The token models of a token vector.
pub open spec fn token_views(v: Seq<Token>) -> Seq<TokView> {
    v.map_values(|t: Token| t@)
}

/// A token vector that ends at the first end-of-file token of `s` and agrees
/// with the scanner's steps is `scanned_tokens(s)`.
pub proof fn lemma_scanned_tokens(s: Seq<char>, toks: Seq<Token>)
    requires
        toks.len() >= 1,
        toks[toks.len() - 1].kind is Eof,
        forall|k: int| 0 <= k < toks.len() - 1 ==> !(#[trigger] toks[k].kind is Eof),
        forall|k: int| 0 <= k < toks.len() ==> #[trigger] toks[k].kind@
            == token_view_at(s, initial_model(), k as nat),
        forall|k: int| 0 <= k < toks.len() ==> #[trigger] toks[k].span
            == token_span_at(s, initial_model(), k as nat),
    ensures
        token_views(toks) == scanned_tokens(s),
{
    let m = initial_model();
    let n = (toks.len() - 1) as nat;
    assert(toks[n as int].kind@ == token_view_at(s, m, n));
    assert forall|k: nat| k < n implies !(#[trigger] token_view_at(s, m, k) is Eof) by {
        assert(toks[k as int].kind@ == token_view_at(s, m, k));
        assert(!(toks[k as int].kind is Eof));
    }
    assert(is_first_eof(s, m, n));
    let c = choose|c: nat| is_first_eof(s, m, c);
    if c < n {
        assert(!(token_view_at(s, m, c) is Eof));
    }
    if c > n {
        assert(!(token_view_at(s, m, n) is Eof));
    }
    assert(c == n);
    assert(token_views(toks) =~= scanned_tokens(s));
}

/// Whether an indentation stack starts at level 0 and rises strictly.
pub open spec fn rising(st: Seq<u32>) -> bool {
    &&& st.len() >= 1
    &&& st[0] == 0
    &&& forall|i: int, j: int| 0 <= i < j < st.len() ==> st[i] < st[j]
}

/// How a token moves the indentation balance: an indent opens a block, a
/// dedent closes one.
pub open spec fn token_weight(t: TokenView) -> int {
    match t {
        TokenView::Indent => 1,
        TokenView::Dedent => -1,
        _ => 0,
    }
}

/// Indents minus dedents among the first `n` tokens produced from `m`.
pub open spec fn indent_balance(s: Seq<char>, m: ScanModel, n: nat) -> int
    decreases n,
{
    if n == 0 {
        0
    } else {
        indent_balance(s, m, (n - 1) as nat) + token_weight(token_view_at(s, m, (n - 1) as nat))
    }
}

/// The blocks a state still has to close: its open levels and its pending
/// dedents.
pub open spec fn open_blocks(m: ScanModel) -> int {
    (m.stack.len() + m.pending) as int
}

proof fn lemma_rising_prefix(st: Seq<u32>, n: int)
    requires
        rising(st),
        1 <= n <= st.len(),
    ensures
        rising(st.take(n)),
{
}

proof fn lemma_lex_at_keeps_blocks(s: Seq<char>, m: ScanModel, p: int)
    ensures
        lex_at(s, m, p).1.stack == m.stack,
        lex_at(s, m, p).1.pending == m.pending,
        !(lex_at(s, m, p).0 is Indent),
        !(lex_at(s, m, p).0 is Dedent),
        !(lex_at(s, m, p).0 is Eof),
{
}

proof fn lemma_step_balance(s: Seq<char>, m: ScanModel)
    requires
        rising(m.stack),
    ensures
        rising(scan_step(s, m).2.stack),
        open_blocks(scan_step(s, m).2) == open_blocks(m) + token_weight(scan_step(s, m).0),
        scan_step(s, m).0 is Eof ==> open_blocks(m) == 1,
{
    if m.pending > 0 {
    } else {
        let m1 = ScanModel { at_line_start: false, ..m };
        if m.at_line_start {
            let b = blanks_end(s, m.pos);
            let spaces = space_count(s, m.pos, b) as u32;
            if !has_tab(s, m.pos, b) {
                if spaces > m.stack.last() {
                    let st2 = m.stack.push(spaces);
                    assert forall|i: int, j: int| 0 <= i < j < st2.len() implies st2[i] < st2[j] by {
                        if j == st2.len() - 1 && i < m.stack.len() - 1 {
                            assert(m.stack[i] < m.stack[m.stack.len() - 1]);
                        }
                    }
                } else if spaces < m.stack.last() {
                    lemma_pop_above(m.stack, spaces);
                    let st = pop_above(m.stack, spaces);
                    lemma_rising_prefix(m.stack, st.len() as int);
                    lemma_pop_above_len(m.stack.drop_last(), spaces);
                }
            }
            match indentation_step(s, m1) {
                Some(_) => {},
                None => {
                    let mm = ScanModel { pos: blanks_end(s, m.pos), ..m1 };
                    let p = trivia_end(s, mm.pos);
                    if p < s.len() {
                        lemma_lex_at_keeps_blocks(s, mm, p);
                    } else if m.stack.last() > 0 {
                        lemma_rising_prefix(m.stack, m.stack.len() - 1);
                        assert(m.stack.drop_last() =~= m.stack.take(m.stack.len() - 1));
                    } else if m.stack.len() > 1 {
                        assert(m.stack[0] < m.stack[m.stack.len() - 1]);
                    }
                },
            }
        } else {
            let p = trivia_end(s, m.pos);
            if p < s.len() {
                lemma_lex_at_keeps_blocks(s, m, p);
            } else if m.stack.last() > 0 {
                lemma_rising_prefix(m.stack, m.stack.len() - 1);
                assert(m.stack.drop_last() =~= m.stack.take(m.stack.len() - 1));
            } else if m.stack.len() > 1 {
                assert(m.stack[0] < m.stack[m.stack.len() - 1]);
            }
        }
    }
}

proof fn lemma_balance_tracks(s: Seq<char>, m: ScanModel, n: nat)
    requires
        rising(m.stack),
    ensures
        rising(state_after(s, m, n).stack),
        indent_balance(s, m, n) == open_blocks(state_after(s, m, n)) - open_blocks(m),
    decreases n,
{
    if n > 0 {
        lemma_balance_tracks(s, m, (n - 1) as nat);
        lemma_step_balance(s, state_after(s, m, (n - 1) as nat));
    }
}

/// Every block the scanner opens is closed before the input ends: among
/// the tokens before the first end-of-file token, indents and dedents are
/// as many.
pub proof fn lemma_indents_balance(s: Seq<char>, n: nat)
    requires
        is_first_eof(s, initial_model(), n),
    ensures
        indent_balance(s, initial_model(), n) == 0,
{
    let m = initial_model();
    assert(rising(m.stack));
    lemma_balance_tracks(s, m, n);
    lemma_step_balance(s, state_after(s, m, n));
}

/// Byte offsets grow with character indices.
pub proof fn lemma_offset_monotone(s: Seq<char>, i: int, j: int)
    requires
        0 <= i <= j <= s.len(),
    ensures
        utf8_len(s.take(i)) <= utf8_len(s.take(j)),
    decreases j - i,
{
    if i < j {
        lemma_offset_monotone(s, i, j - 1);
        assert(s.take(j).drop_last() =~= s.take(j - 1));
    }
}

impl Scanner {
    /// Scan all tokens from the source, up to and including the end-of-file token.
    pub fn scan_all(&mut self) -> (tokens: Vec<Token>)
        requires
            old(self).wf(),
        ensures
            final(self).wf(),
            final(self).src() == old(self).src(),
            tokens.len() >= 1,
            tokens[tokens.len() - 1].kind is Eof,
            forall|k: int| 0 <= k < tokens.len() - 1 ==> !(#[trigger] tokens[k].kind is Eof),
            forall|k: int| 0 <= k < tokens.len() ==> #[trigger] tokens[k].kind@
                == token_view_at(old(self).src(), old(self).model(), k as nat),
            forall|k: int| 0 <= k < tokens.len() ==> #[trigger] tokens[k].span
                == token_span_at(old(self).src(), old(self).model(), k as nat),
            forall|k: int| 0 <= k < tokens.len() ==> (#[trigger] tokens[k].span).start.offset
                <= tokens[k].span.end.offset,
            forall|k: int| 0 <= k < tokens.len() - 1 ==> (#[trigger] tokens[k].span).end.offset
                <= tokens[k + 1].span.start.offset,
            final(self).model().pos == old(self).src().len(),
            old(self).model() == initial_model() ==> indent_balance(
                old(self).src(),
                initial_model(),
                (tokens.len() - 1) as nat,
            ) == 0,
    {
        let ghost src = self.source@;
        let ghost m0 = self.model();
        let mut tokens: Vec<Token> = Vec::new();
        loop
            invariant
                src == old(self).src(),
                m0 == old(self).model(),
                self.wf(),
                self.source@ == src,
                self.model() == state_after(src, m0, tokens.len() as nat),
                forall|k: int| 0 <= k < tokens.len() ==> !(#[trigger] tokens[k].kind is Eof),
                forall|k: int| 0 <= k < tokens.len() ==> #[trigger] tokens[k].kind@
                    == token_view_at(src, m0, k as nat),
                forall|k: int| 0 <= k < tokens.len() ==> #[trigger] tokens[k].span
                    == token_span_at(src, m0, k as nat),
                forall|k: int| 0 <= k < tokens.len() ==> (#[trigger] tokens[k].span).start.offset
                    <= tokens[k].span.end.offset,
                forall|k: int| 0 <= k < tokens.len() - 1 ==> (#[trigger] tokens[k].span).end.offset
                    <= tokens[k + 1].span.start.offset,
                tokens.len() > 0 ==> tokens[tokens.len() - 1].span.end == position_at(src, self.model().pos),
            decreases scan_measure(src, self.model()),
        {
            let ghost before = self.model();
            let ghost n = tokens.len();
            let token = self.next_token();
            proof {
                let st = scan_step(src, before).1;
                lemma_measure_bounds(src.take(before.pos));
                lemma_measure_bounds(src.take(st));
                lemma_measure_bounds(src.take(self.model().pos));
                lemma_offset_monotone(src, before.pos, st);
                lemma_offset_monotone(src, st, self.model().pos);
                lemma_measures_within_utf8(src);
                assert(utf8_len(src) <= u32::MAX);
            }
            let is_eof = matches!(token.kind, TokenKind::Eof);
            tokens.push(token);
            proof {
                assert(state_after(src, m0, (n + 1) as nat) == scan_step(src, state_after(src, m0, n as nat)).2);
            }
            if is_eof {
                proof {
                    if m0 == initial_model() {
                        assert(token_view_at(src, m0, n as nat) is Eof) by {
                            assert(tokens[n as int].kind@ == token_view_at(src, m0, n as nat));
                        }
                        assert forall|k: nat| k < n implies !(#[trigger] token_view_at(src, m0, k) is Eof) by {
                            assert(tokens[k as int].kind@ == token_view_at(src, m0, k));
                        }
                        lemma_indents_balance(src, n as nat);
                    }
                }
                return tokens;
            }
        }
    }
}

} // verus!
