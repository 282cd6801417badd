//! The TOON grammar as the parser reads it: for each parsing routine, a spec
//! function from the token models and a parser state to the next state and
//! the result. The executable parser is proved to compute exactly these.
use super::error::{ErrView, ParseErrorKind};
use super::numbers::{number_value_spec, usize_of};
use super::scanner::{TokView, TokenView};
use crate::ast::node::{EntryView, NodeView};
use crate::ast::{ArrayForm, Position, Span};
use super::scanner::scanned_tokens;
use vstd::prelude::*;

verus! {

/// Deepest nesting of objects, expanded arrays and tabular rows.
pub const MAX_NESTING_DEPTH: usize = 128;

/// Largest document, in bytes.
pub const MAX_DOCUMENT_SIZE: usize = 10485760;

/// Most items one array may hold.
pub const MAX_ARRAY_ITEMS: usize = 100000;

/// Most entries one object may hold.
pub const MAX_OBJECT_ENTRIES: usize = 10000;

/// The parser's state: where it reads, the errors it recorded so far and how
/// deeply it is nested.
pub struct PState {
    pub pos: int,
    pub errors: Seq<ErrView>,
    pub depth: int,
}

/// A token sequence as the scanner produces it: never empty, ending with the
/// end-of-file token.
pub open spec fn tokens_wf(toks: Seq<TokView>) -> bool {
    toks.len() > 0 && toks.last().kind is Eof
}

/// A state the parser can be in on `toks`.
pub open spec fn state_ok(toks: Seq<TokView>, st: PState) -> bool {
    tokens_wf(toks) && 0 <= st.pos <= toks.len()
}

/// The token read at `pos`: past the end, the last token.
pub open spec fn tok_at(toks: Seq<TokView>, pos: int) -> TokView {
    if 0 <= pos < toks.len() {
        toks[pos]
    } else {
        toks.last()
    }
}

pub open spec fn kind_at(toks: Seq<TokView>, pos: int) -> TokenView {
    tok_at(toks, pos).kind
}

pub open spec fn span_at(toks: Seq<TokView>, pos: int) -> Span {
    tok_at(toks, pos).span
}

/// The position after consuming one token (none past the end).
pub open spec fn next_pos(toks: Seq<TokView>, pos: int) -> int {
    if pos < toks.len() {
        pos + 1
    } else {
        pos
    }
}

pub open spec fn moved(st: PState, pos: int) -> PState {
    PState { pos, ..st }
}

pub open spec fn advanced(toks: Seq<TokView>, st: PState) -> PState {
    moved(st, next_pos(toks, st.pos))
}

pub open spec fn recorded(st: PState, e: ErrView) -> PState {
    PState { errors: st.errors.push(e), ..st }
}

pub open spec fn deeper(st: PState) -> PState {
    PState { depth: st.depth + 1, ..st }
}

pub open spec fn shallower(st: PState) -> PState {
    PState { depth: st.depth - 1, ..st }
}

pub open spec fn error_at(kind: ParseErrorKind, span: Span) -> ErrView {
    ErrView { kind, span, context: None }
}

/// The error a failed object entry adds for itself once its own error is
/// recorded: the key at `key_span` is left without a complete value.
pub open spec fn incomplete_entry(key_span: Span) -> ErrView {
    ErrView { kind: ParseErrorKind::ExpectedValue, span: key_span, context: Some("incomplete value"@) }
}

/// The state after an object entry whose key is at `key_span` failed with
/// `e` in state `st`: `e` is recorded unless it already was, the entry is
/// reported incomplete, and the parser skips to the next statement.
pub open spec fn entry_failed(toks: Seq<TokView>, st: PState, e: ErrView, key_span: Span) -> PState {
    let st1 = if already_recorded(st, e) { st } else { recorded(st, e) };
    moved(recorded(st1, incomplete_entry(key_span)), sync_from(toks, st.pos))
}

/// Whether `e` is the error recorded last (an error is recorded where it
/// is found, or by the object whose entry it ends when it is not).
pub open spec fn already_recorded(st: PState, e: ErrView) -> bool {
    st.errors.len() > 0 && st.errors.last() == e
}

/// The empty span at the start of `s`.
pub open spec fn start_point(s: Span) -> Span {
    Span { start: s.start, end: s.start }
}

/// The span of a node model.
pub open spec fn view_span(n: NodeView) -> Span {
    match n {
        NodeView::Document { span, .. } => span,
        NodeView::Object { span, .. } => span,
        NodeView::Array { span, .. } => span,
        NodeView::Str { span, .. } => span,
        NodeView::Number { span, .. } => span,
        NodeView::Bool { span, .. } => span,
        NodeView::Null { span } => span,
        NodeView::Reference { span, .. } => span,
    }
}

/// `start` merged with the span of the last item, or `start` alone.
pub open spec fn items_span(start: Span, items: Seq<NodeView>) -> Span {
    if items.len() == 0 {
        start
    } else {
        start.spec_merge(view_span(items.last()))
    }
}

/// `start` merged with the span of the last entry's value, or `start` alone.
pub open spec fn entries_span(start: Span, entries: Seq<EntryView>) -> Span {
    if entries.len() == 0 {
        start
    } else {
        start.spec_merge(view_span(entries.last().value))
    }
}

/// Position after the newline tokens at `pos`.
pub open spec fn skip_newlines_from(toks: Seq<TokView>, pos: int) -> int
    decreases toks.len() - pos,
{
    if 0 <= pos < toks.len() && toks[pos].kind is Newline {
        skip_newlines_from(toks, pos + 1)
    } else {
        pos
    }
}

/// Position after recovering from an error: past the next newline, or at the
/// next dedent or end of input.
pub open spec fn sync_from(toks: Seq<TokView>, pos: int) -> int
    decreases toks.len() - pos,
{
    if !(0 <= pos < toks.len()) {
        pos
    } else {
        match toks[pos].kind {
            TokenView::Eof => pos,
            TokenView::Dedent => pos,
            TokenView::Newline => pos + 1,
            _ => sync_from(toks, pos + 1),
        }
    }
}

pub proof fn lemma_skip_newlines(toks: Seq<TokView>, pos: int)
    requires
        0 <= pos <= toks.len(),
    ensures
        pos <= skip_newlines_from(toks, pos) <= toks.len(),
    decreases toks.len() - pos,
{
    if 0 <= pos < toks.len() && toks[pos].kind is Newline {
        lemma_skip_newlines(toks, pos + 1);
    }
}

pub proof fn lemma_sync(toks: Seq<TokView>, pos: int)
    requires
        0 <= pos <= toks.len(),
    ensures
        pos <= sync_from(toks, pos) <= toks.len(),
    decreases toks.len() - pos,
{
    if 0 <= pos < toks.len() {
        match toks[pos].kind {
            TokenView::Eof => {},
            TokenView::Dedent => {},
            TokenView::Newline => {},
            _ => lemma_sync(toks, pos + 1),
        }
    }
}

// ---------------------------------------------------------------------------
// Unquoted strings
// ---------------------------------------------------------------------------

/// `parts` with `c` appended to its last word, or `[c]` when it is empty.
pub open spec fn append_to_last(parts: Seq<Seq<char>>, c: char) -> Seq<Seq<char>> {
    if parts.len() == 0 {
        seq![seq![c]]
    } else {
        parts.update(parts.len() - 1, parts.last().push(c))
    }
}

/// `parts` with `t` appended to its last word.
pub open spec fn append_text(parts: Seq<Seq<char>>, t: Seq<char>) -> Seq<Seq<char>> {
    parts.update(parts.len() - 1, parts.last() + t)
}

/// The character of a stray-character token (`Unexpected character: c`),
/// such as the `/` and `.` of a path or a URL.
pub open spec fn stray_char(m: Seq<char>) -> Option<char> {
    let p = "Unexpected character: "@;
    if m.len() == p.len() + 1 && m.take(p.len() as int) == p {
        Some(m.last())
    } else {
        None
    }
}

/// Whether the token at `pos` starts right where `end` ends.
pub open spec fn touches(toks: Seq<TokView>, pos: int, end: Span) -> bool {
    toks[pos].span.start.offset == end.end.offset
}

/// A word token's text added to an unquoted string: joined to the last word
/// when it touches a stray character just before it, else a new word.
pub open spec fn add_word(toks: Seq<TokView>, pos: int, parts: Seq<Seq<char>>, end: Span, glue: bool, s: Seq<char>)
    -> Seq<Seq<char>> {
    if glue && parts.len() > 0 && touches(toks, pos, end) {
        append_text(parts, s)
    } else {
        parts.push(s)
    }
}

/// The words of an unquoted string from `pos` on, the position after them and
/// the span of the last one read. A stray character joins the word it
/// touches, and so does a word right after one (`https://example.com`);
/// `glue` says the last token read was a stray character.
pub open spec fn unquoted_words(toks: Seq<TokView>, pos: int, parts: Seq<Seq<char>>, end: Span, glue: bool)
    -> (int, Seq<Seq<char>>, Span)
    decreases toks.len() - pos,
{
    if !(0 <= pos < toks.len()) {
        (pos, parts, end)
    } else {
        match toks[pos].kind {
            TokenView::Identifier(s) => unquoted_words(toks, pos + 1, add_word(toks, pos, parts, end, glue, s),
                toks[pos].span, false),
            TokenView::Number(s) => unquoted_words(toks, pos + 1, add_word(toks, pos, parts, end, glue, s),
                toks[pos].span, false),
            TokenView::Str(s) => unquoted_words(toks, pos + 1, add_word(toks, pos, parts, end, glue, s),
                toks[pos].span, false),
            TokenView::Colon => unquoted_words(toks, pos + 1, append_to_last(parts, ':'), toks[pos].span, false),
            TokenView::Comma => unquoted_words(toks, pos + 1, append_to_last(parts, ','), toks[pos].span, false),
            TokenView::Error(m) => match stray_char(m) {
                Some(c) => {
                    let parts2 = if parts.len() > 0 && touches(toks, pos, end) {
                        append_to_last(parts, c)
                    } else {
                        parts.push(seq![c])
                    };
                    unquoted_words(toks, pos + 1, parts2, toks[pos].span, true)
                },
                None => (pos, parts, end),
            },
            _ => (pos, parts, end),
        }
    }
}

/// The words joined with single spaces.
pub open spec fn join_words(parts: Seq<Seq<char>>) -> Seq<char>
    decreases parts.len(),
{
    if parts.len() == 0 {
        Seq::empty()
    } else if parts.len() == 1 {
        parts[0]
    } else {
        join_words(parts.drop_last()) + seq![' '] + parts.last()
    }
}

/// Unicode white space, as `char::is_whitespace` has it.
pub open spec fn is_white_space(c: char) -> bool {
    ('\u{9}' <= c && c <= '\u{d}') || c == ' ' || c == '\u{85}' || c == '\u{a0}' || c == '\u{1680}'
        || ('\u{2000}' <= c && c <= '\u{200a}') || c == '\u{2028}' || c == '\u{2029}'
        || c == '\u{202f}' || c == '\u{205f}' || c == '\u{3000}'
}

/// First index at or after `i` that is not white space.
pub open spec fn skip_white_from(s: Seq<char>, i: int) -> int
    decreases s.len() - i,
{
    if 0 <= i < s.len() && is_white_space(s[i]) {
        skip_white_from(s, i + 1)
    } else {
        i
    }
}

/// End of `s[lo..j]` once trailing white space is dropped.
pub open spec fn trim_end_from(s: Seq<char>, lo: int, j: int) -> int
    decreases j - lo,
{
    if lo < j && 0 < j <= s.len() && is_white_space(s[j - 1]) {
        trim_end_from(s, lo, j - 1)
    } else {
        j
    }
}

/// `s` without leading and trailing white space (`str::trim`).
pub open spec fn trim_white(s: Seq<char>) -> Seq<char> {
    let a = skip_white_from(s, 0);
    s.subrange(a, trim_end_from(s, a, s.len() as int))
}

/// The unquoted string that starts at `st.pos`.
pub open spec fn unquoted_spec(toks: Seq<TokView>, st: PState) -> (PState, Result<NodeView, ErrView>) {
    let start = span_at(toks, st.pos);
    let w = unquoted_words(toks, st.pos, Seq::empty(), start, false);
    (moved(st, w.0), Ok(NodeView::Str { value: trim_white(join_words(w.1)), span: start.spec_merge(w.2) }))
}

// ---------------------------------------------------------------------------
// The recursive part: values, nested objects, expanded arrays, objects
// ---------------------------------------------------------------------------

/// Whether a reference names an environment variable: `env:` starts it.
pub open spec fn env_prefixed(p: Seq<char>) -> bool {
    p.len() >= 4 && p.take(4) == "env:"@
}

/// A number token's node, or the error for it.
pub open spec fn number_node(text: Seq<char>, span: Span) -> Result<NodeView, ErrView> {
    match number_value_spec(text, span) {
        Ok(v) => Ok(NodeView::Number { value: v, span }),
        Err(e) => Err(e),
    }
}

/// Any value.
pub open spec fn value_spec(toks: Seq<TokView>, st: PState) -> (PState, Result<NodeView, ErrView>)
    decreases toks.len() - st.pos, 6int,
    when state_ok(toks, st)
{
    let t = tok_at(toks, st.pos);
    let span = t.span;
    match t.kind {
        TokenView::Error(m) => if stray_char(m) is Some {
            unquoted_spec(toks, st)
        } else {
            let e = ErrView { kind: ParseErrorKind::UnexpectedToken, span, context: Some(m) };
            (advanced(toks, recorded(st, e)), Err(e))
        },
        TokenView::Str(s) => (advanced(toks, st), Ok(NodeView::Str { value: s, span })),
        TokenView::Reference(p) => (advanced(toks, st), Ok(NodeView::Reference { path: p, is_env: env_prefixed(p), span })),
        TokenView::Number(n) => (advanced(toks, st), number_node(n, span)),
        TokenView::True => (advanced(toks, st), Ok(NodeView::Bool { value: true, span })),
        TokenView::False => (advanced(toks, st), Ok(NodeView::Bool { value: false, span })),
        TokenView::Null => (advanced(toks, st), Ok(NodeView::Null { span })),
        TokenView::Identifier(_) => {
            if st.pos + 1 < toks.len() && toks[st.pos + 1].kind is LeftBracket {
                let e = error_at(ParseErrorKind::UnexpectedToken, span);
                (recorded(st, e), Err(e))
            } else {
                unquoted_spec(toks, st)
            }
        },
        TokenView::Indent => nested_object_spec(toks, st),
        TokenView::Dash => expanded_array_spec(toks, st),
        TokenView::Newline => {
            let st1 = advanced(toks, st);
            match kind_at(toks, st1.pos) {
                TokenView::Indent => nested_object_spec(toks, st1),
                TokenView::Dash => expanded_array_spec(toks, st1),
                _ => (st1, Ok(NodeView::Null { span: start_point(span_at(toks, st1.pos)) })),
            }
        },
        TokenView::Eof => (st, Ok(NodeView::Null { span: start_point(span) })),
        _ => {
            let e = error_at(ParseErrorKind::ExpectedValue, span);
            (recorded(st, e), Err(e))
        },
    }
}

/// A nested object (or an expanded array) after an indent.
pub open spec fn nested_object_spec(toks: Seq<TokView>, st: PState) -> (PState, Result<NodeView, ErrView>)
    decreases toks.len() - st.pos, 5int,
    when state_ok(toks, st)
{
    let start = span_at(toks, st.pos);
    if st.depth >= MAX_NESTING_DEPTH {
        (st, Err(error_at(ParseErrorKind::MaxDepthExceeded, start)))
    } else {
        let st1 = deeper(st);
        let st2 = if kind_at(toks, st1.pos) is Indent { advanced(toks, st1) } else { st1 };
        if kind_at(toks, st2.pos) is Dash {
            let r = expanded_array_spec(toks, st2);
            (shallower(r.0), r.1)
        } else {
            let r = object_spec(toks, st2, start);
            let st3 = if kind_at(toks, r.0.pos) is Dedent { advanced(toks, r.0) } else { r.0 };
            (shallower(st3), r.1)
        }
    }
}

/// An expanded array: dash-prefixed items.
pub open spec fn expanded_array_spec(toks: Seq<TokView>, st: PState) -> (PState, Result<NodeView, ErrView>)
    decreases toks.len() - st.pos, 4int,
    when state_ok(toks, st)
{
    let start = span_at(toks, st.pos);
    if st.depth >= MAX_NESTING_DEPTH {
        (st, Err(error_at(ParseErrorKind::MaxDepthExceeded, start)))
    } else {
        expanded_items_spec(toks, deeper(st), start, Seq::empty())
    }
}

/// The end of an expanded array.
pub open spec fn expanded_done(st: PState, start: Span, items: Seq<NodeView>) -> (PState, Result<NodeView, ErrView>) {
    (shallower(st), Ok(NodeView::Array { items, form: ArrayForm::Expanded, span: items_span(start, items) }))
}

/// The item after a dash that has just been consumed.
pub open spec fn dash_item_spec(toks: Seq<TokView>, st: PState) -> (PState, Result<NodeView, ErrView>)
    decreases toks.len() - st.pos, 7int,
    when state_ok(toks, st)
{
    if kind_at(toks, st.pos) is Newline {
        let st1 = advanced(toks, st);
        if kind_at(toks, st1.pos) is Indent {
            nested_object_spec(toks, st1)
        } else {
            (st1, Ok(NodeView::Null { span: start_point(span_at(toks, st1.pos)) }))
        }
    } else if kind_at(toks, st.pos) is Eof || kind_at(toks, st.pos) is Dedent {
        (st, Ok(NodeView::Null { span: start_point(span_at(toks, st.pos)) }))
    } else {
        value_spec(toks, st)
    }
}

/// The items of an expanded array from `st.pos` on.
pub open spec fn expanded_items_spec(toks: Seq<TokView>, st: PState, start: Span, items: Seq<NodeView>)
    -> (PState, Result<NodeView, ErrView>)
    decreases toks.len() - st.pos, 3int,
    when state_ok(toks, st)
{
    if !(kind_at(toks, st.pos) is Dash) {
        expanded_done(st, start, items)
    } else if items.len() >= MAX_ARRAY_ITEMS {
        (shallower(st), Err(error_at(ParseErrorKind::TooManyArrayItems, span_at(toks, st.pos))))
    } else {
        let r = dash_item_spec(toks, advanced(toks, st));
        match r.1 {
            Err(e) => (r.0, Err(e)),
            Ok(item) => {
                let items2 = items.push(item);
                let st3 = if kind_at(toks, r.0.pos) is Newline { advanced(toks, r.0) } else { r.0 };
                if kind_at(toks, st3.pos) is Dedent {
                    expanded_done(st3, start, items2)
                } else if st.pos < st3.pos <= toks.len() {
                    expanded_items_spec(toks, st3, start, items2)
                } else {
                    expanded_done(st3, start, items2)
                }
            },
        }
    }
}

/// An object: the entries at the current level.
pub open spec fn object_spec(toks: Seq<TokView>, st: PState, start: Span) -> (PState, Result<NodeView, ErrView>)
    decreases toks.len() - st.pos, 3int,
    when state_ok(toks, st)
{
    object_entries_spec(toks, st, start, Seq::empty())
}

/// The end of an object.
pub open spec fn object_done(st: PState, start: Span, entries: Seq<EntryView>) -> (PState, Result<NodeView, ErrView>) {
    (st, Ok(NodeView::Object { entries, span: entries_span(start, entries) }))
}

/// The entries of an object from `st.pos` on.
pub open spec fn object_entries_spec(toks: Seq<TokView>, st: PState, start: Span, entries: Seq<EntryView>)
    -> (PState, Result<NodeView, ErrView>)
    decreases toks.len() - st.pos, 2int,
    when state_ok(toks, st)
{
    if kind_at(toks, st.pos) is Eof {
        object_done(st, start, entries)
    } else if entries.len() >= MAX_OBJECT_ENTRIES {
        (st, Err(error_at(ParseErrorKind::TooManyObjectEntries, span_at(toks, st.pos))))
    } else {
        let p1 = skip_newlines_from(toks, st.pos);
        proof {
            lemma_skip_newlines(toks, st.pos);
        }
        let st1 = moved(st, p1);
        let k = kind_at(toks, p1);
        if k is Dedent || k is Eof || !(k is Identifier || k is Str) {
            object_done(st1, start, entries)
        } else {
            let r = object_entry_spec(toks, st1);
            let (st2, entries2) = match r.1 {
                Ok(entry) => (r.0, entries.push(entry)),
                Err(e) => (entry_failed(toks, r.0, e, span_at(toks, p1)), entries),
            };
            let st3 = if kind_at(toks, st2.pos) is Newline { advanced(toks, st2) } else { st2 };
            if st.pos < st3.pos <= toks.len() {
                object_entries_spec(toks, st3, start, entries2)
            } else {
                object_done(st3, start, entries2)
            }
        }
    }
}

/// One `key: value` entry (or `key[N]...` array entry).
pub open spec fn object_entry_spec(toks: Seq<TokView>, st: PState) -> (PState, Result<EntryView, ErrView>)
    decreases toks.len() - st.pos, 1int,
    when state_ok(toks, st)
{
    let t = tok_at(toks, st.pos);
    match t.kind {
        TokenView::Identifier(name) => keyed_entry_spec(toks, advanced(toks, st), name, t.span),
        TokenView::Str(name) => keyed_entry_spec(toks, advanced(toks, st), name, t.span),
        _ => {
            let e = error_at(ParseErrorKind::ExpectedKey, t.span);
            (recorded(st, e), Err(e))
        },
    }
}

/// What follows a key that has just been consumed.
pub open spec fn keyed_entry_spec(toks: Seq<TokView>, st: PState, key: Seq<char>, key_span: Span)
    -> (PState, Result<EntryView, ErrView>)
    decreases toks.len() - st.pos, 8int,
    when state_ok(toks, st)
{
    if kind_at(toks, st.pos) is LeftBracket {
        let r = array_with_key_spec(toks, st, key_span);
        (r.0, match r.1 {
            Ok(v) => Ok(EntryView { key, key_span, value: v }),
            Err(e) => Err(e),
        })
    } else if kind_at(toks, st.pos) is Colon {
        let r = value_spec(toks, advanced(toks, st));
        (r.0, match r.1 {
            Ok(v) => Ok(EntryView { key, key_span, value: v }),
            Err(e) => Err(e),
        })
    } else {
        let e = error_at(ParseErrorKind::ExpectedColon, span_at(toks, st.pos));
        (recorded(st, e), Err(e))
    }
}

// ---------------------------------------------------------------------------
// Arrays with a header: `key[N]: ...` and `key[N]{fields}: ...`
// ---------------------------------------------------------------------------

/// The field names of a `{f1,f2}` header from `pos` on. A token that is
/// neither a name nor a comma ends the list.
pub open spec fn field_names_from(toks: Seq<TokView>, pos: int, acc: Seq<Seq<char>>) -> (int, Seq<Seq<char>>)
    decreases toks.len() - pos,
{
    if !(0 <= pos < toks.len()) || kind_at(toks, pos) is RightBrace || kind_at(toks, pos) is Eof {
        (pos, acc)
    } else {
        let (p1, acc1) = match kind_at(toks, pos) {
            TokenView::Identifier(name) => (pos + 1, acc.push(name)),
            _ => (pos, acc),
        };
        let p2 = if kind_at(toks, p1) is Comma { next_pos(toks, p1) } else { p1 };
        if pos < p2 <= toks.len() {
            field_names_from(toks, p2, acc1)
        } else {
            (p2, acc1)
        }
    }
}

/// The node of a scalar token in an inline array or a tabular row, and
/// whether the token is consumed.
pub open spec fn cell_value(t: TokView) -> Option<Result<NodeView, ErrView>> {
    match t.kind {
        TokenView::Str(s) => Some(Ok(NodeView::Str { value: s, span: t.span })),
        TokenView::Number(n) => Some(number_node(n, t.span)),
        TokenView::Identifier(s) => Some(Ok(NodeView::Str { value: s, span: t.span })),
        TokenView::True => Some(Ok(NodeView::Bool { value: true, span: t.span })),
        TokenView::False => Some(Ok(NodeView::Bool { value: false, span: t.span })),
        TokenView::Null => Some(Ok(NodeView::Null { span: t.span })),
        _ => None,
    }
}

/// The end of an inline array.
pub open spec fn inline_done(st: PState, start: Span, items: Seq<NodeView>) -> (PState, Result<NodeView, ErrView>) {
    (st, Ok(NodeView::Array { items, form: ArrayForm::Inline, span: items_span(start, items) }))
}

/// The items of an inline array from `st.pos` on.
pub open spec fn inline_items_spec(toks: Seq<TokView>, st: PState, start: Span, delimiter: char, items: Seq<NodeView>)
    -> (PState, Result<NodeView, ErrView>)
    decreases toks.len() - st.pos,
    when state_ok(toks, st)
{
    if items.len() >= MAX_ARRAY_ITEMS {
        (st, Err(error_at(ParseErrorKind::TooManyArrayItems, span_at(toks, st.pos))))
    } else {
        match cell_value(tok_at(toks, st.pos)) {
            None => inline_done(st, start, items),
            Some(Err(e)) => (st, Err(e)),
            Some(Ok(node)) => {
                let st1 = advanced(toks, st);
                let items2 = items.push(node);
                if kind_at(toks, st1.pos) is Comma && delimiter == ',' {
                    let st2 = advanced(toks, st1);
                    if st.pos < st2.pos <= toks.len() {
                        inline_items_spec(toks, st2, start, delimiter, items2)
                    } else {
                        inline_done(st2, start, items2)
                    }
                } else {
                    inline_done(st1, start, items2)
                }
            },
        }
    }
}

/// An inline array after its header.
pub open spec fn inline_array_spec(toks: Seq<TokView>, st: PState, start: Span, delimiter: char)
    -> (PState, Result<NodeView, ErrView>)
{
    let k = kind_at(toks, st.pos);
    if k is Newline || k is Eof || k is Dedent {
        (st, Ok(NodeView::Array { items: Seq::empty(), form: ArrayForm::Inline, span: start }))
    } else {
        inline_items_spec(toks, st, start, delimiter, Seq::empty())
    }
}

/// The end of a tabular row.
pub open spec fn row_done(st: PState, start: Span, entries: Seq<EntryView>) -> (PState, Result<NodeView, ErrView>) {
    (shallower(st), Ok(NodeView::Object { entries, span: entries_span(start, entries) }))
}

/// The cells of a tabular row from field `i` on.
pub open spec fn row_cells_spec(
    toks: Seq<TokView>,
    st: PState,
    start: Span,
    fields: Seq<Seq<char>>,
    delimiter: char,
    i: int,
    entries: Seq<EntryView>,
) -> (PState, Result<NodeView, ErrView>)
    decreases fields.len() - i,
{
    if !(0 <= i < fields.len()) {
        row_done(st, start, entries)
    } else {
        let t = tok_at(toks, st.pos);
        match cell_value(t) {
            Some(Err(e)) => (st, Err(e)),
            Some(Ok(v)) => {
                let st1 = advanced(toks, st);
                let st2 = if i < fields.len() - 1 && delimiter == ',' && kind_at(toks, st1.pos) is Comma {
                    advanced(toks, st1)
                } else {
                    st1
                };
                row_cells_spec(toks, st2, start, fields, delimiter, i + 1,
                    entries.push(EntryView { key: fields[i], key_span: start, value: v }))
            },
            None => {
                let v = NodeView::Null { span: t.span };
                let st2 = if i < fields.len() - 1 && delimiter == ',' && kind_at(toks, st.pos) is Comma {
                    advanced(toks, st)
                } else {
                    st
                };
                row_cells_spec(toks, st2, start, fields, delimiter, i + 1,
                    entries.push(EntryView { key: fields[i], key_span: start, value: v }))
            },
        }
    }
}

/// One row of a tabular array.
pub open spec fn tabular_row_spec(toks: Seq<TokView>, st: PState, fields: Seq<Seq<char>>, delimiter: char)
    -> (PState, Result<NodeView, ErrView>)
{
    let start = span_at(toks, st.pos);
    if st.depth >= MAX_NESTING_DEPTH {
        (st, Err(error_at(ParseErrorKind::MaxDepthExceeded, start)))
    } else {
        row_cells_spec(toks, deeper(st), start, fields, delimiter, 0, Seq::empty())
    }
}

/// The end of a tabular array: a closing dedent is consumed.
pub open spec fn tabular_done(toks: Seq<TokView>, st: PState, start: Span, items: Seq<NodeView>)
    -> (PState, Result<NodeView, ErrView>)
{
    let st1 = if kind_at(toks, st.pos) is Dedent { advanced(toks, st) } else { st };
    (st1, Ok(NodeView::Array { items, form: ArrayForm::Tabular, span: items_span(start, items) }))
}

/// At most `remaining` more rows of a tabular array.
pub open spec fn tabular_rows_spec(
    toks: Seq<TokView>,
    st: PState,
    start: Span,
    remaining: nat,
    fields: Seq<Seq<char>>,
    delimiter: char,
    items: Seq<NodeView>,
) -> (PState, Result<NodeView, ErrView>)
    decreases remaining,
{
    if remaining == 0 {
        tabular_done(toks, st, start, items)
    } else if items.len() >= MAX_ARRAY_ITEMS {
        (st, Err(error_at(ParseErrorKind::TooManyArrayItems, span_at(toks, st.pos))))
    } else if kind_at(toks, st.pos) is Eof || kind_at(toks, st.pos) is Dedent {
        tabular_done(toks, st, start, items)
    } else {
        let r = tabular_row_spec(toks, st, fields, delimiter);
        match r.1 {
            Err(e) => (r.0, Err(e)),
            Ok(row) => {
                let st2 = if kind_at(toks, r.0.pos) is Newline { advanced(toks, r.0) } else { r.0 };
                tabular_rows_spec(toks, st2, start, (remaining - 1) as nat, fields, delimiter, items.push(row))
            },
        }
    }
}

/// A tabular array after its header.
pub open spec fn tabular_array_spec(
    toks: Seq<TokView>,
    st: PState,
    start: Span,
    count: nat,
    fields: Seq<Seq<char>>,
    delimiter: char,
) -> (PState, Result<NodeView, ErrView>) {
    let st1 = if kind_at(toks, st.pos) is Newline { advanced(toks, st) } else { st };
    let st2 = if kind_at(toks, st1.pos) is Indent { advanced(toks, st1) } else { st1 };
    tabular_rows_spec(toks, st2, start, count, fields, delimiter, Seq::empty())
}

/// The count written in an array header at `pos`, and the position after it.
pub open spec fn header_count(toks: Seq<TokView>, pos: int) -> (nat, int) {
    match kind_at(toks, pos) {
        TokenView::Number(n) => (match usize_of(n) {
            Some(c) => c as nat,
            None => 0,
        }, next_pos(toks, pos)),
        _ => (0, pos),
    }
}

/// An array entry's header and content, from its `[` on.
pub open spec fn array_with_key_spec(toks: Seq<TokView>, st: PState, start: Span) -> (PState, Result<NodeView, ErrView>) {
    let p1 = next_pos(toks, st.pos);
    let (count, p2) = header_count(toks, p1);
    let (st3, fields) = if kind_at(toks, p2) is RightBracket {
        let p3 = next_pos(toks, p2);
        if kind_at(toks, p3) is LeftBrace {
            let f = field_names_from(toks, next_pos(toks, p3), Seq::empty());
            let p5 = if kind_at(toks, f.0) is RightBrace { next_pos(toks, f.0) } else { f.0 };
            (moved(st, p5), Some(f.1))
        } else {
            (moved(st, p3), None::<Seq<Seq<char>>>)
        }
    } else {
        (recorded(moved(st, p2), error_at(ParseErrorKind::UnexpectedToken, span_at(toks, p2))), None::<Seq<Seq<char>>>)
    };
    let pipe = kind_at(toks, st3.pos) == TokenView::Identifier(seq!['|']);
    let st4 = if pipe { advanced(toks, st3) } else { st3 };
    let delimiter = if pipe { '|' } else { ',' };
    if !(kind_at(toks, st4.pos) is Colon) {
        let e = error_at(ParseErrorKind::ExpectedColon, span_at(toks, st4.pos));
        (recorded(st4, e), Err(e))
    } else {
        let st5 = advanced(toks, st4);
        match fields {
            Some(fs) => tabular_array_spec(toks, st5, start, count, fs, delimiter),
            None => inline_array_spec(toks, st5, start, delimiter),
        }
    }
}

// ---------------------------------------------------------------------------
// Documents
// ---------------------------------------------------------------------------

/// The state the parser starts in.
pub open spec fn initial_state() -> PState {
    PState { pos: 0, errors: Seq::empty(), depth: 0 }
}

/// A whole document. An error that ends the root object (its size limit) is
/// recorded as well.
pub open spec fn document_spec(toks: Seq<TokView>) -> (PState, Result<NodeView, ErrView>) {
    let st0 = initial_state();
    let start = span_at(toks, 0);
    let p = skip_newlines_from(toks, 0);
    let st1 = moved(st0, p);
    if kind_at(toks, p) is Eof {
        (st1, Ok(NodeView::Document { children: Seq::empty(), span: start_point(start) }))
    } else {
        let r = object_spec(toks, st1, start);
        match r.1 {
            Ok(root) => (r.0, Ok(NodeView::Document { children: seq![root], span: start.spec_merge(view_span(root)) })),
            Err(e) => (recorded(r.0, e), Err(e)),
        }
    }
}

/// Strict parsing of a token sequence: the first error recorded, if any, else
/// the document's result.
pub open spec fn parse_tokens(toks: Seq<TokView>) -> Result<NodeView, ErrView> {
    let r = document_spec(toks);
    if r.0.errors.len() > 0 {
        Err(r.0.errors[0])
    } else {
        r.1
    }
}

/// Parsing with recovery: the document (when its parse succeeded) and every
/// error recorded.
pub open spec fn parse_tokens_recovering(toks: Seq<TokView>) -> (Option<NodeView>, Seq<ErrView>) {
    let r = document_spec(toks);
    (match r.1 {
        Ok(ast) => Some(ast),
        Err(_) => None,
    }, r.0.errors)
}

/// The span at the very start of a document.
pub open spec fn zero_span() -> Span {
    Span { start: Position::zero_spec(), end: Position::zero_spec() }
}

/// What `parse` returns for a source of `bytes` bytes and characters `text`.
pub open spec fn parse_result(bytes: nat, text: Seq<char>) -> Result<NodeView, ErrView> {
    if bytes > MAX_DOCUMENT_SIZE {
        Err(error_at(ParseErrorKind::DocumentTooLarge, zero_span()))
    } else {
        parse_tokens(scanned_tokens(text))
    }
}

/// What `parse_with_errors` returns for a source of `bytes` bytes and
/// characters `text`.
pub open spec fn parse_with_errors_result(bytes: nat, text: Seq<char>) -> (Option<NodeView>, Seq<ErrView>) {
    if bytes > MAX_DOCUMENT_SIZE {
        (None, seq![error_at(ParseErrorKind::DocumentTooLarge, zero_span())])
    } else {
        parse_tokens_recovering(scanned_tokens(text))
    }
}

/// Strict and recovering parsing agree: strict parsing succeeds with a tree
/// exactly when recovering parsing gives that tree and no error, and when
/// recovering parsing reports errors, strict parsing fails with the first.
pub proof fn lemma_strict_agrees_with_recovering(bytes: nat, text: Seq<char>)
    ensures
        ({
            let (tree, errors) = parse_with_errors_result(bytes, text);
            &&& (forall|n: NodeView| parse_result(bytes, text) == Ok::<NodeView, ErrView>(n)
                <==> (tree == Some(n) && errors.len() == 0))
            &&& (errors.len() > 0 ==> parse_result(bytes, text) == Err::<NodeView, ErrView>(errors[0]))
        }),
{
}

// ---------------------------------------------------------------------------
// The array limit holds of every parsed tree
// ---------------------------------------------------------------------------

/// Whether every array in a node holds at most `MAX_ARRAY_ITEMS` items.
pub open spec fn arrays_bounded(n: NodeView) -> bool
    decreases n,
{
    match n {
        NodeView::Document { children, .. } => all_arrays_bounded(children),
        NodeView::Object { entries, .. } => entry_arrays_bounded(entries),
        NodeView::Array { items, .. } => items.len() <= MAX_ARRAY_ITEMS && all_arrays_bounded(items),
        _ => true,
    }
}

pub open spec fn all_arrays_bounded(s: Seq<NodeView>) -> bool
    decreases s,
{
    if s.len() == 0 {
        true
    } else {
        all_arrays_bounded(s.drop_last()) && arrays_bounded(s.last())
    }
}

pub open spec fn entry_arrays_bounded(s: Seq<EntryView>) -> bool
    decreases s,
{
    if s.len() == 0 {
        true
    } else {
        entry_arrays_bounded(s.drop_last()) && arrays_bounded(s.last().value)
    }
}

proof fn lemma_push_bounded(s: Seq<NodeView>, x: NodeView)
    ensures
        all_arrays_bounded(s.push(x)) == (all_arrays_bounded(s) && arrays_bounded(x)),
{
    assert(s.push(x).drop_last() =~= s);
}

proof fn lemma_push_entry_bounded(s: Seq<EntryView>, x: EntryView)
    ensures
        entry_arrays_bounded(s.push(x)) == (entry_arrays_bounded(s) && arrays_bounded(x.value)),
{
    assert(s.push(x).drop_last() =~= s);
}

proof fn lemma_cell_bounded(t: TokView)
    ensures
        cell_value(t) matches Some(Ok(v)) ==> arrays_bounded(v),
{
    match t.kind {
        TokenView::Number(n) => {
            match number_value_spec(n, t.span) {
                Ok(_) => {},
                Err(_) => {},
            }
        },
        _ => {},
    }
}

proof fn lemma_field_names_bound(toks: Seq<TokView>, pos: int, acc: Seq<Seq<char>>)
    requires
        0 <= pos <= toks.len(),
    ensures
        0 <= field_names_from(toks, pos, acc).0 <= toks.len(),
    decreases toks.len() - pos,
{
    if !(!(0 <= pos < toks.len()) || kind_at(toks, pos) is RightBrace || kind_at(toks, pos) is Eof) {
        let (p1, acc1) = match kind_at(toks, pos) {
            TokenView::Identifier(name) => (pos + 1, acc.push(name)),
            _ => (pos, acc),
        };
        let p2 = if kind_at(toks, p1) is Comma { next_pos(toks, p1) } else { p1 };
        if pos < p2 <= toks.len() {
            lemma_field_names_bound(toks, p2, acc1);
        }
    }
}

proof fn lemma_value_bounded(toks: Seq<TokView>, st: PState)
    requires
        state_ok(toks, st),
    ensures
        value_spec(toks, st).1 matches Ok(n) ==> arrays_bounded(n),
    decreases toks.len() - st.pos, 6int,
{
    let t = tok_at(toks, st.pos);
    match t.kind {
        TokenView::Number(n) => {
            match number_value_spec(n, t.span) {
                Ok(_) => {},
                Err(_) => {},
            }
        },
        TokenView::Indent => lemma_nested_bounded(toks, st),
        TokenView::Dash => lemma_expanded_bounded(toks, st),
        TokenView::Newline => {
            let st1 = advanced(toks, st);
            match kind_at(toks, st1.pos) {
                TokenView::Indent => lemma_nested_bounded(toks, st1),
                TokenView::Dash => lemma_expanded_bounded(toks, st1),
                _ => {},
            }
        },
        _ => {},
    }
}

proof fn lemma_nested_bounded(toks: Seq<TokView>, st: PState)
    requires
        state_ok(toks, st),
    ensures
        nested_object_spec(toks, st).1 matches Ok(n) ==> arrays_bounded(n),
    decreases toks.len() - st.pos, 5int,
{
    let start = span_at(toks, st.pos);
    if st.depth < MAX_NESTING_DEPTH {
        let st1 = deeper(st);
        let st2 = if kind_at(toks, st1.pos) is Indent { advanced(toks, st1) } else { st1 };
        if kind_at(toks, st2.pos) is Dash {
            lemma_expanded_bounded(toks, st2);
        } else {
            lemma_object_bounded(toks, st2, start);
        }
    }
}

proof fn lemma_expanded_bounded(toks: Seq<TokView>, st: PState)
    requires
        state_ok(toks, st),
    ensures
        expanded_array_spec(toks, st).1 matches Ok(n) ==> arrays_bounded(n),
    decreases toks.len() - st.pos, 4int,
{
    if st.depth < MAX_NESTING_DEPTH {
        lemma_items_bounded(toks, deeper(st), span_at(toks, st.pos), Seq::empty());
    }
}

proof fn lemma_dash_item_bounded(toks: Seq<TokView>, st: PState)
    requires
        state_ok(toks, st),
    ensures
        dash_item_spec(toks, st).1 matches Ok(n) ==> arrays_bounded(n),
    decreases toks.len() - st.pos, 7int,
{
    if kind_at(toks, st.pos) is Newline {
        let st1 = advanced(toks, st);
        if kind_at(toks, st1.pos) is Indent {
            lemma_nested_bounded(toks, st1);
        }
    } else if !(kind_at(toks, st.pos) is Eof || kind_at(toks, st.pos) is Dedent) {
        lemma_value_bounded(toks, st);
    }
}

proof fn lemma_items_bounded(toks: Seq<TokView>, st: PState, start: Span, items: Seq<NodeView>)
    requires
        state_ok(toks, st),
        all_arrays_bounded(items),
        items.len() <= MAX_ARRAY_ITEMS,
    ensures
        expanded_items_spec(toks, st, start, items).1 matches Ok(n) ==> arrays_bounded(n),
    decreases toks.len() - st.pos, 3int,
{
    if kind_at(toks, st.pos) is Dash && items.len() < MAX_ARRAY_ITEMS {
        let r = dash_item_spec(toks, advanced(toks, st));
        lemma_dash_item_bounded(toks, advanced(toks, st));
        match r.1 {
            Err(_) => {},
            Ok(item) => {
                let items2 = items.push(item);
                lemma_push_bounded(items, item);
                let st3 = if kind_at(toks, r.0.pos) is Newline { advanced(toks, r.0) } else { r.0 };
                if !(kind_at(toks, st3.pos) is Dedent) && st.pos < st3.pos <= toks.len() {
                    lemma_items_bounded(toks, st3, start, items2);
                }
            },
        }
    }
}

proof fn lemma_object_bounded(toks: Seq<TokView>, st: PState, start: Span)
    requires
        state_ok(toks, st),
    ensures
        object_spec(toks, st, start).1 matches Ok(n) ==> arrays_bounded(n),
    decreases toks.len() - st.pos, 3int,
{
    lemma_entries_bounded(toks, st, start, Seq::empty());
}

proof fn lemma_entries_bounded(toks: Seq<TokView>, st: PState, start: Span, entries: Seq<EntryView>)
    requires
        state_ok(toks, st),
        entry_arrays_bounded(entries),
    ensures
        object_entries_spec(toks, st, start, entries).1 matches Ok(n) ==> arrays_bounded(n),
    decreases toks.len() - st.pos, 2int,
{
    if !(kind_at(toks, st.pos) is Eof) && entries.len() < MAX_OBJECT_ENTRIES {
        let p1 = skip_newlines_from(toks, st.pos);
        lemma_skip_newlines(toks, st.pos);
        let st1 = moved(st, p1);
        let k = kind_at(toks, p1);
        if !(k is Dedent || k is Eof || !(k is Identifier || k is Str)) {
            let r = object_entry_spec(toks, st1);
            lemma_entry_bounded(toks, st1);
            let (st2, entries2) = match r.1 {
                Ok(entry) => (r.0, entries.push(entry)),
                Err(e) => (entry_failed(toks, r.0, e, span_at(toks, p1)), entries),
            };
            if let Ok(entry) = r.1 {
                lemma_push_entry_bounded(entries, entry);
            }
            let st3 = if kind_at(toks, st2.pos) is Newline { advanced(toks, st2) } else { st2 };
            if st.pos < st3.pos <= toks.len() {
                lemma_entries_bounded(toks, st3, start, entries2);
            }
        }
    }
}

proof fn lemma_entry_bounded(toks: Seq<TokView>, st: PState)
    requires
        state_ok(toks, st),
    ensures
        object_entry_spec(toks, st).1 matches Ok(e) ==> arrays_bounded(e.value),
    decreases toks.len() - st.pos, 1int,
{
    let t = tok_at(toks, st.pos);
    match t.kind {
        TokenView::Identifier(name) => lemma_keyed_bounded(toks, advanced(toks, st), name, t.span),
        TokenView::Str(name) => lemma_keyed_bounded(toks, advanced(toks, st), name, t.span),
        _ => {},
    }
}

proof fn lemma_keyed_bounded(toks: Seq<TokView>, st: PState, key: Seq<char>, key_span: Span)
    requires
        state_ok(toks, st),
    ensures
        keyed_entry_spec(toks, st, key, key_span).1 matches Ok(e) ==> arrays_bounded(e.value),
    decreases toks.len() - st.pos, 8int,
{
    if kind_at(toks, st.pos) is LeftBracket {
        lemma_array_with_key_bounded(toks, st, key_span);
    } else if kind_at(toks, st.pos) is Colon {
        lemma_value_bounded(toks, advanced(toks, st));
    }
}

proof fn lemma_array_with_key_bounded(toks: Seq<TokView>, st: PState, start: Span)
    requires
        state_ok(toks, st),
    ensures
        array_with_key_spec(toks, st, start).1 matches Ok(n) ==> arrays_bounded(n),
{
    let p1 = next_pos(toks, st.pos);
    let (count, p2) = header_count(toks, p1);
    let (st3, fields) = if kind_at(toks, p2) is RightBracket {
        let p3 = next_pos(toks, p2);
        if kind_at(toks, p3) is LeftBrace {
            let f = field_names_from(toks, next_pos(toks, p3), Seq::empty());
            lemma_field_names_bound(toks, next_pos(toks, p3), Seq::empty());
            let p5 = if kind_at(toks, f.0) is RightBrace { next_pos(toks, f.0) } else { f.0 };
            (moved(st, p5), Some(f.1))
        } else {
            (moved(st, p3), None::<Seq<Seq<char>>>)
        }
    } else {
        (recorded(moved(st, p2), error_at(ParseErrorKind::UnexpectedToken, span_at(toks, p2))), None::<Seq<Seq<char>>>)
    };
    let pipe = kind_at(toks, st3.pos) == TokenView::Identifier(seq!['|']);
    let st4 = if pipe { advanced(toks, st3) } else { st3 };
    let delimiter = if pipe { '|' } else { ',' };
    if kind_at(toks, st4.pos) is Colon {
        let st5 = advanced(toks, st4);
        match fields {
            Some(fs) => {
                let sa = if kind_at(toks, st5.pos) is Newline { advanced(toks, st5) } else { st5 };
                let sb = if kind_at(toks, sa.pos) is Indent { advanced(toks, sa) } else { sa };
                lemma_rows_bounded(toks, sb, start, count, fs, delimiter, Seq::empty());
            },
            None => {
                let k = kind_at(toks, st5.pos);
                if !(k is Newline || k is Eof || k is Dedent) {
                    lemma_inline_bounded(toks, st5, start, delimiter, Seq::empty());
                }
            },
        }
    }
}

proof fn lemma_inline_bounded(toks: Seq<TokView>, st: PState, start: Span, delimiter: char, items: Seq<NodeView>)
    requires
        state_ok(toks, st),
        all_arrays_bounded(items),
        items.len() <= MAX_ARRAY_ITEMS,
    ensures
        inline_items_spec(toks, st, start, delimiter, items).1 matches Ok(n) ==> arrays_bounded(n),
    decreases toks.len() - st.pos,
{
    if items.len() < MAX_ARRAY_ITEMS {
        lemma_cell_bounded(tok_at(toks, st.pos));
        match cell_value(tok_at(toks, st.pos)) {
            Some(Ok(node)) => {
                let st1 = advanced(toks, st);
                let items2 = items.push(node);
                lemma_push_bounded(items, node);
                if kind_at(toks, st1.pos) is Comma && delimiter == ',' {
                    let st2 = advanced(toks, st1);
                    if st.pos < st2.pos <= toks.len() {
                        lemma_inline_bounded(toks, st2, start, delimiter, items2);
                    }
                }
            },
            _ => {},
        }
    }
}

proof fn lemma_row_bounded(
    toks: Seq<TokView>,
    st: PState,
    start: Span,
    fields: Seq<Seq<char>>,
    delimiter: char,
    i: int,
    entries: Seq<EntryView>,
)
    requires
        entry_arrays_bounded(entries),
    ensures
        row_cells_spec(toks, st, start, fields, delimiter, i, entries).1 matches Ok(n) ==> arrays_bounded(n),
    decreases fields.len() - i,
{
    if 0 <= i < fields.len() {
        let t = tok_at(toks, st.pos);
        lemma_cell_bounded(t);
        match cell_value(t) {
            Some(Err(_)) => {},
            Some(Ok(v)) => {
                let st1 = advanced(toks, st);
                let st2 = if i < fields.len() - 1 && delimiter == ',' && kind_at(toks, st1.pos) is Comma {
                    advanced(toks, st1)
                } else {
                    st1
                };
                let e = EntryView { key: fields[i], key_span: start, value: v };
                lemma_push_entry_bounded(entries, e);
                lemma_row_bounded(toks, st2, start, fields, delimiter, i + 1, entries.push(e));
            },
            None => {
                let v = NodeView::Null { span: t.span };
                let st2 = if i < fields.len() - 1 && delimiter == ',' && kind_at(toks, st.pos) is Comma {
                    advanced(toks, st)
                } else {
                    st
                };
                let e = EntryView { key: fields[i], key_span: start, value: v };
                lemma_push_entry_bounded(entries, e);
                lemma_row_bounded(toks, st2, start, fields, delimiter, i + 1, entries.push(e));
            },
        }
    }
}

proof fn lemma_rows_bounded(
    toks: Seq<TokView>,
    st: PState,
    start: Span,
    remaining: nat,
    fields: Seq<Seq<char>>,
    delimiter: char,
    items: Seq<NodeView>,
)
    requires
        all_arrays_bounded(items),
        items.len() <= MAX_ARRAY_ITEMS,
    ensures
        tabular_rows_spec(toks, st, start, remaining, fields, delimiter, items).1 matches Ok(n) ==> arrays_bounded(n),
    decreases remaining,
{
    if remaining > 0 && items.len() < MAX_ARRAY_ITEMS && !(kind_at(toks, st.pos) is Eof || kind_at(toks, st.pos) is Dedent) {
        let r = tabular_row_spec(toks, st, fields, delimiter);
        if st.depth < MAX_NESTING_DEPTH {
            lemma_row_bounded(toks, deeper(st), span_at(toks, st.pos), fields, delimiter, 0, Seq::empty());
        }
        match r.1 {
            Err(_) => {},
            Ok(row) => {
                lemma_push_bounded(items, row);
                let st2 = if kind_at(toks, r.0.pos) is Newline { advanced(toks, r.0) } else { r.0 };
                lemma_rows_bounded(toks, st2, start, (remaining - 1) as nat, fields, delimiter, items.push(row));
            },
        }
    }
}

/// No array of a parsed document holds more than `MAX_ARRAY_ITEMS` items.
pub proof fn lemma_document_arrays_bounded(toks: Seq<TokView>)
    requires
        tokens_wf(toks),
    ensures
        document_spec(toks).1 matches Ok(n) ==> arrays_bounded(n),
{
    let p = skip_newlines_from(toks, 0);
    lemma_skip_newlines(toks, 0);
    if kind_at(toks, p) is Eof {
        assert(all_arrays_bounded(Seq::<NodeView>::empty()));
    } else {
        lemma_object_bounded(toks, moved(initial_state(), p), span_at(toks, 0));
        let r = object_spec(toks, moved(initial_state(), p), span_at(toks, 0));
        if let Ok(root) = r.1 {
            assert(seq![root].drop_last() =~= Seq::<NodeView>::empty());
            assert(seq![root].last() == root);
            assert(all_arrays_bounded(Seq::<NodeView>::empty()));
            assert(all_arrays_bounded(seq![root]));
            let d = NodeView::Document { children: seq![root], span: span_at(toks, 0).spec_merge(view_span(root)) };
            assert(arrays_bounded(d));
            assert(document_spec(toks).1 == Ok::<NodeView, ErrView>(d));
        }
    }
}

} // verus!
