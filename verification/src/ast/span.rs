//! Source positions and spans.
use vstd::prelude::*;

verus! {

/// A position in a source file (0-indexed line and column, byte offset).
#[derive(Debug, Clone, Copy, PartialEq, Eq, Hash, Structural)]
pub struct Position {
    /// Line number (0-indexed)
    pub line: u32,
    /// Column number (0-indexed)
    pub column: u32,
    /// Byte offset from start of file
    pub offset: u32,
}

impl Position {
    /// Create a new position.
    pub fn new(line: u32, column: u32, offset: u32) -> (p: Self)
        ensures
            p.line == line,
            p.column == column,
            p.offset == offset,
    {
        Position { line, column, offset }
    }

    /// The position at the start of a file.
    pub fn zero() -> (p: Self)
        ensures
            p.line == 0,
            p.column == 0,
            p.offset == 0,
    {
        Position { line: 0, column: 0, offset: 0 }
    }
}

impl Default for Position {
    fn default() -> (p: Self)
        ensures
            p.line == 0 && p.column == 0 && p.offset == 0,
    {
        Position::zero()
    }
}

/// A range in a source file: `start` inclusive, `end` exclusive.
#[derive(Debug, Clone, Copy, PartialEq, Eq, Hash, Structural)]
pub struct Span {
    /// Start position (inclusive)
    pub start: Position,
    /// End position (exclusive)
    pub end: Position,
}

pub open spec fn min_u32(a: u32, b: u32) -> u32 {
    if a <= b { a } else { b }
}

pub open spec fn max_u32(a: u32, b: u32) -> u32 {
    if a >= b { a } else { b }
}

impl Span {
    /// The span that covers both `self` and `other`, taken componentwise.
    pub open spec fn spec_merge(self, other: Span) -> Span {
        Span {
            start: Position {
                line: min_u32(self.start.line, other.start.line),
                column: min_u32(self.start.column, other.start.column),
                offset: min_u32(self.start.offset, other.start.offset),
            },
            end: Position {
                line: max_u32(self.end.line, other.end.line),
                column: max_u32(self.end.column, other.end.column),
                offset: max_u32(self.end.offset, other.end.offset),
            },
        }
    }

    /// Whether the byte offset of `pos` lies in `[start.offset, end.offset)`.
    pub open spec fn spec_contains(self, pos: Position) -> bool {
        self.start.offset <= pos.offset && pos.offset < self.end.offset
    }

    /// Create a new span from start to end positions.
    pub fn new(start: Position, end: Position) -> (s: Self)
        ensures
            s.start == start,
            s.end == end,
    {
        Span { start, end }
    }

    /// Create a zero-width span at a position.
    pub fn point(pos: Position) -> (s: Self)
        ensures
            s.start == pos,
            s.end == pos,
    {
        Span { start: pos, end: pos }
    }

    /// Check whether this span contains a position (by byte offset).
    pub fn contains(&self, pos: Position) -> (b: bool)
        ensures
            b == self.spec_contains(pos),
    {
        self.start.offset <= pos.offset && pos.offset < self.end.offset
    }

    /// Merge two spans into one that covers both.
    pub fn merge(self, other: Span) -> (s: Span)
        ensures
            s == self.spec_merge(other),
    {
        Span {
            start: Position {
                line: if self.start.line <= other.start.line { self.start.line } else { other.start.line },
                column: if self.start.column <= other.start.column { self.start.column } else { other.start.column },
                offset: if self.start.offset <= other.start.offset { self.start.offset } else { other.start.offset },
            },
            end: Position {
                line: if self.end.line >= other.end.line { self.end.line } else { other.end.line },
                column: if self.end.column >= other.end.column { self.end.column } else { other.end.column },
                offset: if self.end.offset >= other.end.offset { self.end.offset } else { other.end.offset },
            },
        }
    }

    /// The length of this span in bytes (0 when `end` precedes `start`).
    pub fn len(&self) -> (n: u32)
        ensures
            n == if self.end.offset >= self.start.offset { self.end.offset - self.start.offset } else { 0 },
    {
        if self.end.offset >= self.start.offset {
            self.end.offset - self.start.offset
        } else {
            0
        }
    }

    /// Whether this span covers no byte.
    pub fn is_empty(&self) -> (b: bool)
        ensures
            b == (self.start.offset >= self.end.offset),
    {
        self.start.offset >= self.end.offset
    }
}

impl Default for Span {
    fn default() -> (s: Self)
        ensures
            s.start == Position::zero_spec() && s.end == Position::zero_spec(),
    {
        Span::point(Position::zero())
    }
}

impl Position {
    /// The position at the start of a file, as a value of the model.
    pub open spec fn zero_spec() -> Position {
        Position { line: 0, column: 0, offset: 0 }
    }
}

/// Merging is commutative.
pub proof fn lemma_merge_commutative(a: Span, b: Span)
    ensures
        a.spec_merge(b) == b.spec_merge(a),
{
}

/// Merging is associative.
pub proof fn lemma_merge_associative(a: Span, b: Span, c: Span)
    ensures
        a.spec_merge(b).spec_merge(c) == a.spec_merge(b.spec_merge(c)),
{
}

/// Merging a span with itself gives the span back.
pub proof fn lemma_merge_idempotent(a: Span)
    ensures
        a.spec_merge(a) == a,
{
}

/// The merged span contains every position that either operand contains.
pub proof fn lemma_merge_covers(a: Span, b: Span, pos: Position)
    requires
        a.spec_contains(pos) || b.spec_contains(pos),
    ensures
        a.spec_merge(b).spec_contains(pos),
{
}

/// An empty span contains no position.
pub proof fn lemma_empty_contains_nothing(a: Span, pos: Position)
    requires
        a.start.offset >= a.end.offset,
    ensures
        !a.spec_contains(pos),
{
}

} // verus!
