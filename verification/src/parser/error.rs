//! Parse errors with source spans.
use crate::ast::Span;
use vstd::prelude::*;

verus! {

/// Kinds of parse errors.
#[derive(Debug, Clone, Copy, PartialEq, Eq, Structural)]
pub enum ParseErrorKind {
    UnexpectedChar,
    UnexpectedToken,
    ExpectedColon,
    ExpectedValue,
    ExpectedKey,
    InvalidNumber,
    UnterminatedString,
    InvalidEscape,
    InvalidIndent,
    UnexpectedEof,
    DuplicateKey,
    MaxDepthExceeded,
    DocumentTooLarge,
    TooManyArrayItems,
    TooManyObjectEntries,
}

impl ParseErrorKind {
    /// The human-readable text of each kind.
    pub open spec fn spec_message(self) -> Seq<char> {
        match self {
            ParseErrorKind::UnexpectedChar => "unexpected character"@,
            ParseErrorKind::UnexpectedToken => "unexpected token"@,
            ParseErrorKind::ExpectedColon => "expected colon"@,
            ParseErrorKind::ExpectedValue => "expected value"@,
            ParseErrorKind::ExpectedKey => "expected key"@,
            ParseErrorKind::InvalidNumber => "invalid number"@,
            ParseErrorKind::UnterminatedString => "unterminated string"@,
            ParseErrorKind::InvalidEscape => "invalid escape sequence"@,
            ParseErrorKind::InvalidIndent => "invalid indentation"@,
            ParseErrorKind::UnexpectedEof => "unexpected end of file"@,
            ParseErrorKind::DuplicateKey => "duplicate key"@,
            ParseErrorKind::MaxDepthExceeded => "maximum nesting depth exceeded"@,
            ParseErrorKind::DocumentTooLarge => "document too large"@,
            ParseErrorKind::TooManyArrayItems => "too many array items"@,
            ParseErrorKind::TooManyObjectEntries => "too many object entries"@,
        }
    }

    /// The human-readable text of this kind (what its `Display` shows).
    pub fn message(&self) -> (s: &'static str)
        ensures
            s@ == self.spec_message(),
    {
        match self {
            ParseErrorKind::UnexpectedChar => "unexpected character",
            ParseErrorKind::UnexpectedToken => "unexpected token",
            ParseErrorKind::ExpectedColon => "expected colon",
            ParseErrorKind::ExpectedValue => "expected value",
            ParseErrorKind::ExpectedKey => "expected key",
            ParseErrorKind::InvalidNumber => "invalid number",
            ParseErrorKind::UnterminatedString => "unterminated string",
            ParseErrorKind::InvalidEscape => "invalid escape sequence",
            ParseErrorKind::InvalidIndent => "invalid indentation",
            ParseErrorKind::UnexpectedEof => "unexpected end of file",
            ParseErrorKind::DuplicateKey => "duplicate key",
            ParseErrorKind::MaxDepthExceeded => "maximum nesting depth exceeded",
            ParseErrorKind::DocumentTooLarge => "document too large",
            ParseErrorKind::TooManyArrayItems => "too many array items",
            ParseErrorKind::TooManyObjectEntries => "too many object entries",
        }
    }
}

/// Error that occurred during parsing: its kind, where, and optional context.
#[derive(Debug, Clone)]
pub struct ParseError {
    /// The kind of error
    pub kind: ParseErrorKind,
    /// Source span where the error occurred
    pub span: Span,
    /// Optional context message
    pub context: Option<String>,
}

/// The model of a parse error.
pub struct ErrView {
    pub kind: ParseErrorKind,
    pub span: Span,
    pub context: Option<Seq<char>>,
}

/// The text an error displays.
pub open spec fn display_of(e: ErrView) -> Seq<char> {
    match e.context {
        Some(c) => e.kind.spec_message() + " ("@ + c + ")"@,
        None => e.kind.spec_message(),
    }
}

impl View for ParseError {
    type V = ErrView;

    open spec fn view(&self) -> ErrView {
        ErrView {
            kind: self.kind,
            span: self.span,
            context: match self.context {
                Some(c) => Some(c@),
                None => None,
            },
        }
    }
}

impl ParseError {
    /// Create a new parse error without context.
    pub fn new(kind: ParseErrorKind, span: Span) -> (e: Self)
        ensures
            e@ == (ErrView { kind, span, context: None }),
    {
        ParseError { kind, span, context: None }
    }

    /// Add context to this error.
    pub fn with_context(self, context: &str) -> (e: Self)
        ensures
            e@ == (ErrView { context: Some(context@), ..self@ }),
    {
        ParseError { kind: self.kind, span: self.span, context: Some(String::from_str(context)) }
    }

    /// Whether this error is `other` (same kind, span and context).
    pub fn same_as(&self, other: &ParseError) -> (r: bool)
        ensures
            r == (self@ == other@),
    {
        let same_context = match (&self.context, &other.context) {
            (Some(x), Some(y)) => *x == *y,
            (None, None) => true,
            _ => false,
        };
        self.kind == other.kind && self.span == other.span && same_context
    }

    /// A copy of this error.
    pub fn duplicate(&self) -> (e: Self)
        ensures
            e@ == self@,
    {
        let context = match &self.context {
            Some(c) => Some(c.clone()),
            None => None,
        };
        ParseError { kind: self.kind, span: self.span, context }
    }

    /// The text this error displays: its kind's message, then the context in
    /// parentheses when there is one.
    pub fn display_text(&self) -> (s: String)
        ensures
            s@ == display_of(self@),
    {
        let mut s = String::from_str(self.kind.message());
        match &self.context {
            Some(c) => {
                s.append(" (");
                s.append(c.as_str());
                s.append(")");
            },
            None => {},
        }
        s
    }
}

} // verus!
