//! The TOON decoder: a line-oriented reader that turns TOON text into a
//! JSON value.
use super::decode::{remove_block_comments, strip_from, unquoted_colon_from, LineScan};
use super::error::DecodeError;
use super::scalars::{
    all_scalars, columns_from, comment_cut, items_from, read_array_header, read_columns, read_items, read_key,
    read_scalar_line, scalar_line, scan_start, strings_view, trim_range, cut_comment, trim_bounds, Header,
};
use super::value::{
    add_key, entries_view, is_scalar, items_view, json_view, keys_of, lemma_items_view, object_insert, JsonValue, JsonView,
};
use crate::text::{chars_of, is_white_space_char, newline_from, lemma_newline_from, white_space};
use super::grammar::{
    after_line, array_read, block_read, brace_close, colon_at, dash_at, delim_char, digits_end, document_read,
    empty_array_at, empty_array_end, entry_read, expanded_read, field_indent, indent_end, inline_read,
    is_trivia, item_entries_read, item_read, lemma_all_scalars, lemma_scalar_json, lemma_trivia_end, newlines_end,
    next_indent, object_read, rest_empty, row_entries, rows_read, scalar_read, spaces_in, tab_in, table_read, trivia_end,
    unterminated_inline, value_read, Reading,
};
use vstd::prelude::*;

verus! {

/// The keys an object built from `cols` has: each column once, in the
/// order of first appearance.
pub open spec fn distinct_keys(cols: Seq<Seq<char>>) -> Seq<Seq<char>>
    decreases cols.len(),
{
    if cols.len() == 0 {
        Seq::empty()
    } else {
        add_key(distinct_keys(cols.drop_last()), cols.last())
    }
}

/// Whether every row is an object whose keys are the distinct columns.
pub open spec fn rows_have_columns(rows: Seq<JsonValue>, cols: Seq<Seq<char>>) -> bool {
    forall|r: int| 0 <= r < rows.len() ==> (#[trigger] rows[r] matches JsonValue::Object(entries) && keys_of(entries@)
        == distinct_keys(cols))
}

/// The state of a decoding: the text, the index reached, and the stack of
/// active delimiters.
pub struct Decoder {
    input: Vec<char>,
    offset: usize,
    delims: Vec<char>,
}

/// Whether the text from `i` on holds only trivia, line feeds and `#`
/// comments.
pub open spec fn blank_from(s: Seq<char>, i: int, active: char) -> bool
    decreases s.len() - i,
{
    if !(0 <= i < s.len()) {
        true
    } else if is_trivia(s[i], active) || s[i] == '\n' {
        blank_from(s, i + 1, active)
    } else if s[i] == '#' {
        proof {
            lemma_newline_from(s, i + 1);
        }
        blank_from(s, newline_from(s, i + 1), active)
    } else {
        false
    }
}

impl Decoder {
    pub closed spec fn inv(&self) -> bool {
        &&& self.offset <= self.input.len()
        &&& self.delims.len() >= 1
    }

    /// `self` is a later state of the decoding `before`: the same text and
    /// delimiters, an index no earlier.
    pub closed spec fn follows(&self, before: Decoder) -> bool {
        &&& self.inv()
        &&& self.input@ == before.input@
        &&& self.delims@ == before.delims@
        &&& self.offset >= before.offset
    }

    pub closed spec fn pos(&self) -> int {
        self.offset as int
    }

    pub closed spec fn text(&self) -> Seq<char> {
        self.input@
    }

    fn peek_is(&self, c: char) -> (b: bool)
        requires
            self.inv(),
        ensures
            b == (self.offset < self.input.len() && self.input@[self.offset as int] == c),
    {
        self.offset < self.input.len() && self.input[self.offset] == c
    }

    fn peek_next_is(&self, c: char) -> (b: bool)
        requires
            self.inv(),
        ensures
            b == (self.offset + 1 < self.input.len() && self.input@[self.offset + 1] == c),
    {
        self.input.len() - self.offset > 1 && self.input[self.offset + 1] == c
    }

    fn at_end(&self) -> (b: bool)
        requires
            self.inv(),
        ensures
            b == (self.offset >= self.input.len()),
    {
        self.offset >= self.input.len()
    }

    fn advance(&mut self)
        requires
            old(self).inv(),
        ensures
            final(self).follows(*old(self)),
            old(self).offset < old(self).input.len() ==> final(self).offset == old(self).offset + 1,
            old(self).offset >= old(self).input.len() ==> final(self).offset == old(self).offset,
    {
        if self.offset < self.input.len() {
            self.offset = self.offset + 1;
        }
    }

    /// Skips spaces, carriage returns, tabs (unless tabs delimit) and a
    /// `#` comment up to its line feed.
    fn skip_trivia(&mut self)
        requires
            old(self).inv(),
        ensures
            final(self).follows(*old(self)),
            ({
                let s = old(self).input@;
                let active = old(self).delims@.last();
                &&& final(self).offset == trivia_end(s, old(self).offset as int, active)
                &&& blank_from(s, old(self).offset as int, active) == blank_from(s, final(self).offset as int, active)
                &&& final(self).offset < s.len() ==> !is_trivia(s[final(self).offset as int], active)
                    && s[final(self).offset as int] != '#'
            }),
    {
        let active = self.delims[self.delims.len() - 1];
        let ghost s = self.input@;
        while self.offset < self.input.len()
            invariant
                self.follows(*old(self)),
                s == self.input@,
                active == old(self).delims@.last(),
                blank_from(s, old(self).offset as int, active) == blank_from(s, self.offset as int, active),
                trivia_end(s, old(self).offset as int, active) == trivia_end(s, self.offset as int, active),
            ensures
                self.follows(*old(self)),
                self.offset == trivia_end(s, old(self).offset as int, active),
                blank_from(s, old(self).offset as int, active) == blank_from(s, self.offset as int, active),
                self.offset < s.len() ==> !is_trivia(s[self.offset as int], active) && s[self.offset as int] != '#',
            decreases self.input.len() - self.offset,
        {
            let ch = self.input[self.offset];
            if ch == ' ' || ch == '\r' || (ch == '\t' && active != '\t') {
                self.offset = self.offset + 1;
            } else if ch == '#' {
                let ghost h = self.offset as int;
                self.offset = self.offset + 1;
                while self.offset < self.input.len() && self.input[self.offset] != '\n'
                    invariant
                        self.follows(*old(self)),
                        s == self.input@,
                        h < self.offset,
                        newline_from(s, self.offset as int) == newline_from(s, h + 1),
                    decreases self.input.len() - self.offset,
                {
                    self.offset = self.offset + 1;
                }
                proof {
                    lemma_newline_from(s, h + 1);
                }
                break;
            } else {
                break;
            }
        }
    }

    fn skip_newlines(&mut self)
        requires
            old(self).inv(),
            old(self).offset < old(self).input.len() ==> !is_trivia(old(self).input@[old(self).offset as int], old(self).delims@.last())
                && old(self).input@[old(self).offset as int] != '#',
        ensures
            final(self).follows(*old(self)),
            blank_from(old(self).input@, old(self).offset as int, old(self).delims@.last()) ==> final(self).offset
                == final(self).input.len(),
            final(self).offset == newlines_end(old(self).input@, old(self).offset as int, old(self).delims@.last()),
    {
        let ghost s = self.input@;
        let ghost active = self.delims@.last();
        while self.peek_is('\n')
            invariant
                self.follows(*old(self)),
                s == self.input@,
                active == self.delims@.last(),
                self.offset < s.len() ==> !is_trivia(s[self.offset as int], active) && s[self.offset as int] != '#',
                blank_from(s, old(self).offset as int, active) ==> blank_from(s, self.offset as int, active),
                newlines_end(s, old(self).offset as int, active) == newlines_end(s, self.offset as int, active),
            decreases self.input.len() - self.offset,
        {
            self.advance();
            self.skip_trivia();
        }
    }

    /// The indentation of the next line that is not blank or a comment,
    /// and where its text starts; an error when that indentation holds a
    /// tab.
    fn next_line_indent(&self) -> (r: Result<Option<(usize, usize)>, String>)
        requires
            self.inv(),
        ensures
            r matches Ok(Some((_, t))) ==> self.offset <= t < self.input.len(),
            match r {
                Ok(None) => next_indent(self.input@, self.offset as int) == Ok::<Option<(int, int)>, Seq<char>>(None),
                Ok(Some((n, t))) => next_indent(self.input@, self.offset as int) == Ok::<Option<(int, int)>, Seq<char>>(
                    Some((n as int, t as int)),
                ),
                Err(m) => next_indent(self.input@, self.offset as int) == Err::<Option<(int, int)>, Seq<char>>(m@),
            },
    {
        let n = self.input.len();
        let mut t = self.offset;
        let ghost s = self.input@;
        loop
            invariant
                self.inv(),
                n == self.input.len(),
                s == self.input@,
                self.offset <= t <= n,
                next_indent(s, t as int) == next_indent(s, self.offset as int),
            decreases n - t,
        {
            if t >= n {
                return Ok(None);
            }
            let mut spaces: usize = 0;
            let mut has_tab = false;
            let mut u = t;
            while u < n && (self.input[u] == ' ' || self.input[u] == '\t')
                invariant
                    t <= u <= n,
                    n == self.input.len(),
                    s == self.input@,
                    spaces <= u - t,
                    spaces == spaces_in(s, t as int, u as int),
                    has_tab == tab_in(s, t as int, u as int),
                    indent_end(s, u as int) == indent_end(s, t as int),
                decreases n - u,
            {
                proof {
                    if tab_in(s, t as int, u + 1) && !tab_in(s, t as int, u as int) {
                        let k = choose|k: int| t <= k < u + 1 && s[k] == '\t';
                        assert(k == u);
                    }
                }
                if self.input[u] == ' ' {
                    spaces = spaces + 1;
                } else {
                    has_tab = true;
                }
                u += 1;
            }
            if u >= n || self.input[u] == '\n' || self.input[u] == '\r' || self.input[u] == '#' {
                // A blank or comment line: skip it with its line feed.
                let mut w = u;
                if w < n {
                    let first = self.input[w];
                    w += 1;
                    if first != '\n' {
                        while w < n
                            invariant_except_break
                                newline_from(s, w as int) == newline_from(s, u + 1),
                            invariant
                                u < w <= n,
                                n == self.input.len(),
                                s == self.input@,
                            ensures
                                u < w <= n,
                                w as int == after_line(s, u + 1),
                            decreases n - w,
                        {
                            let c = self.input[w];
                            w += 1;
                            if c == '\n' {
                                break;
                            }
                        }
                    }
                }
                t = w;
            } else {
                if has_tab {
                    return Err(String::from_str("Tabs not allowed in indentation"));
                }
                return Ok(Some((spaces, u)));
            }
        }
    }

    /// The index of the first colon on the line from `start` on, outside
    /// strings, references and comments.
    fn colon_from(&self, start: usize) -> (r: Option<usize>)
        requires
            start <= self.input.len(),
        ensures
            r matches Some(k) ==> start <= k < self.input.len(),
            match r {
                Some(k) => colon_at(self.input@, start as int) == Some(k as int),
                None => colon_at(self.input@, start as int) is None,
            },
    {
        let mut in_quote = false;
        let mut escaped = false;
        let mut in_ref = false;
        let mut i = start;
        while i < self.input.len()
            invariant
                start <= i <= self.input.len(),
                unquoted_colon_from(self.input@, i as int, LineScan { in_quote, escaped, in_ref }) == colon_at(
                    self.input@,
                    start as int,
                ),
            decreases self.input.len() - i,
        {
            let ch = self.input[i];
            if ch == '\n' {
                return None;
            }
            if in_quote {
                if escaped {
                    escaped = false;
                } else if ch == '\\' {
                    escaped = true;
                } else if ch == '"' {
                    in_quote = false;
                }
            } else if in_ref {
                if ch == '}' {
                    in_ref = false;
                }
            } else {
                if ch == '"' {
                    in_quote = true;
                } else if ch == '$' {
                    if i + 1 < self.input.len() && self.input[i + 1] == '{' {
                        in_ref = true;
                    }
                } else if ch == '#' {
                    return None;
                } else if ch == ':' {
                    return Some(i);
                }
            }
            i += 1;
        }
        None
    }

    /// The end of the current line (its line feed, or the end of the text).
    fn line_end(&self) -> (e: usize)
        requires
            self.inv(),
        ensures
            self.offset <= e <= self.input.len(),
            e as int == newline_from(self.input@, self.offset as int),
    {
        let mut e = self.offset;
        while e < self.input.len() && self.input[e] != '\n'
            invariant
                self.inv(),
                self.offset <= e <= self.input.len(),
                newline_from(self.input@, e as int) == newline_from(self.input@, self.offset as int),
            decreases self.input.len() - e,
        {
            e += 1;
        }
        e
    }

    /// Moves past the current line and its line feed.
    fn finish_line(&mut self)
        requires
            old(self).inv(),
        ensures
            final(self).follows(*old(self)),
            old(self).offset < old(self).input.len() ==> final(self).offset > old(self).offset,
            final(self).offset == after_line(old(self).input@, old(self).offset as int),
    {
        let e = self.line_end();
        self.offset = if e < self.input.len() { e + 1 } else { e };
    }

    /// Whether the rest of the line is empty once its comment is cut off.
    fn rest_of_line_is_empty(&self) -> (b: bool)
        requires
            self.inv(),
        ensures
            b == rest_empty(self.input@, self.offset as int),
    {
        let e = self.line_end();
        let c = cut_comment(&self.input, self.offset, e);
        let (a, b) = trim_bounds(&self.input, self.offset, c);
        a == b
    }

    /// Whether the line that starts at `t` begins with a `-` item marker.
    fn dash_item_at(&self, t: usize) -> (b: bool)
        requires
            self.inv(),
            t <= self.input.len(),
        ensures
            b == dash_at(self.input@, t as int),
    {
        let n = self.input.len();
        t < n && self.input[t] == '-' && (t + 1 >= n || self.input[t + 1] == ' ' || self.input[t + 1] == '\n')
    }

}

/// The model of what a reading routine returns: its value, or the message
/// of its error (none for an error the decoder never makes).
pub open spec fn read_view(r: Result<JsonValue, DecodeError>) -> Option<Reading<JsonView>> {
    match r {
        Ok(v) => Some(Ok(json_view(v))),
        Err(DecodeError::Structure(m)) => Some(Err(m@)),
        Err(DecodeError::Syntax { .. }) => None,
    }
}

/// The model of optional column names.
pub open spec fn opt_strings(cols: Option<Vec<String>>) -> Option<Seq<Seq<char>>> {
    match cols {
        Some(c) => Some(strings_view(c@)),
        None => None,
    }
}

proof fn lemma_items_push(s: Seq<JsonValue>, x: JsonValue)
    ensures
        items_view(s.push(x)) == items_view(s).push(json_view(x)),
{
    assert(s.push(x).drop_last() =~= s);
}

impl Decoder {
    /// The scalars of the rest of the line, separated by `delim`; the line
    /// and its line feed are consumed.
    fn parse_inline_items(&mut self, delim: char) -> (r: Result<Vec<JsonValue>, DecodeError>)
        requires
            old(self).inv(),
        ensures
            final(self).follows(*old(self)),
            final(self).offset == after_line(old(self).input@, old(self).offset as int),
            match inline_read(old(self).input@, old(self).offset as int, delim) {
                Ok(vs) => r matches Ok(vals) && items_view(vals@) == vs && vals.len() == vs.len(),
                Err(m) => r matches Err(DecodeError::Structure(m2)) && m2@ == m,
            },
    {
        let lo = self.offset;
        let e = self.line_end();
        proof {
            lemma_newline_from(self.input@, lo as int);
        }
        self.offset = if e < self.input.len() { e + 1 } else { e };
        let (a, _) = trim_bounds(&self.input, lo, e);
        proof {
            assert(a as int == super::scalars::skip_ws(self.input@, lo as int, e as int));
        }
        if a < e && self.input[a] == '[' {
            let mut k = lo;
            while k < e && self.input[k] != ']'
                invariant
                    lo <= k <= e <= self.input.len(),
                    forall|j: int| lo <= j < k ==> self.input@[j] != ']',
                decreases e - k,
            {
                k += 1;
            }
            if k >= e {
                proof {
                    assert(!self.input@.subrange(lo as int, e as int).contains(']')) by {
                        assert forall|j: int| 0 <= j < e - lo implies self.input@.subrange(lo as int, e as int)[j] != ']' by {
                            assert(self.input@.subrange(lo as int, e as int)[j] == self.input@[lo + j]);
                        }
                    }
                }
                return Err(DecodeError::new("Unterminated inline array"));
            }
            proof {
                assert(self.input@.subrange(lo as int, e as int)[k - lo] == ']');
            }
        }
        let c = cut_comment(&self.input, lo, e);
        match read_items(&self.input, lo, c, delim) {
            Ok(vals) => {
                proof {
                    let ws = items_from(self.input@, lo as int, c as int, delim)->Ok_0;
                    lemma_all_scalars(vals@, ws);
                }
                Ok(vals)
            },
            Err(m) => Err(DecodeError::Structure(m)),
        }
    }

    /// The scalar of the rest of the line; the line and its line feed are
    /// consumed.
    fn parse_scalar_line(&mut self) -> (r: Result<JsonValue, DecodeError>)
        requires
            old(self).inv(),
        ensures
            final(self).follows(*old(self)),
            final(self).offset == after_line(old(self).input@, old(self).offset as int),
            read_view(r) == Some(scalar_read(old(self).input@, old(self).offset as int)),
    {
        let lo = self.offset;
        let e = self.line_end();
        self.offset = if e < self.input.len() { e + 1 } else { e };
        match read_scalar_line(&self.input, lo, e) {
            Ok(v) => {
                proof {
                    lemma_scalar_json(v, scalar_line(self.input@, lo as int, e as int)->Ok_0);
                }
                Ok(v)
            },
            Err(m) => Err(DecodeError::Structure(m)),
        }
    }

    /// `[]`, then trivia and a line feed.
    fn read_empty_array(&mut self) -> (r: Result<JsonValue, DecodeError>)
        requires
            old(self).inv(),
            empty_array_at(old(self).input@, old(self).offset as int),
        ensures
            final(self).follows(*old(self)),
            final(self).offset == empty_array_end(old(self).input@, old(self).offset as int, old(self).delims@.last()),
            read_view(r) == Some(Ok::<JsonView, Seq<char>>(JsonView::Array(Seq::empty()))),
    {
        self.advance();
        self.advance();
        self.skip_trivia();
        if self.peek_is('\n') {
            self.advance();
        }
        proof {
            assert(items_view(Seq::<JsonValue>::empty()) =~= Seq::<JsonView>::empty());
        }
        Ok(JsonValue::Array(Vec::new()))
    }

    /// A block at indentation `indent`: an expanded array, a root array
    /// header, an object, `[]`, or (at the top) a scalar line.
    fn parse_block(&mut self, indent: usize) -> (r: Result<JsonValue, DecodeError>)
        requires
            old(self).inv(),
        ensures
            final(self).follows(*old(self)),
            ({
                let b = block_read(old(self).input@, old(self).offset as int, old(self).delims@.last(), indent as int);
                &&& r is Ok ==> final(self).offset == b.0
                &&& read_view(r) == Some(b.1)
            }),
        decreases old(self).input@.len() - old(self).offset, 5int,
    {
        let ghost s = self.input@;
        let ghost a = self.delims@.last();
        proof {
            lemma_trivia_end(s, self.offset as int, a);
        }
        self.skip_trivia();
        if self.peek_is('-') && (self.peek_next_is(' ') || self.peek_next_is('\n') || self.input.len() - self.offset
            == 1) {
            return self.parse_expanded_array(indent);
        }
        match self.colon_from(self.offset) {
            Some(colon) => {
                match read_array_header(&self.input, self.offset, colon) {
                    Some(h) => {
                        if h.is_root {
                            self.offset = colon + 1;
                            return self.parse_array_or_table(h.count, h.delim, h.cols, indent, true);
                        }
                    },
                    None => {},
                }
                return self.parse_object(indent);
            },
            None => {},
        }
        if self.peek_is('[') && self.peek_next_is(']') {
            return self.read_empty_array();
        }
        if indent == 0 {
            return self.parse_scalar_line();
        }
        Err(DecodeError::new("missing colon in key-value context"))
    }

    /// Items marked with `-` at indentation `indent`.
    fn parse_expanded_array(&mut self, indent: usize) -> (r: Result<JsonValue, DecodeError>)
        requires
            old(self).inv(),
        ensures
            final(self).follows(*old(self)),
            r matches Ok(v) ==> v is Array,
            ({
                let b = expanded_read(old(self).input@, old(self).offset as int, old(self).delims@.last(), indent as int,
                    Seq::empty());
                &&& r is Ok ==> final(self).offset == b.0
                &&& read_view(r) == Some(b.1)
            }),
        decreases old(self).input@.len() - old(self).offset, 4int,
    {
        let ghost s = self.input@;
        let ghost a = self.delims@.last();
        let ghost whole = expanded_read(s, self.offset as int, a, indent as int, Seq::empty());
        let mut items: Vec<JsonValue> = Vec::new();
        proof {
            assert(items_view(items@) =~= Seq::<JsonView>::empty());
        }
        loop
            invariant
                self.follows(*old(self)),
                s == self.input@,
                a == self.delims@.last(),
                whole == expanded_read(s, self.offset as int, a, indent as int, items_view(items@)),
                whole == expanded_read(old(self).input@, old(self).offset as int, old(self).delims@.last(), indent as int,
                    Seq::empty()),
            decreases self.input.len() - self.offset,
        {
            let ghost cur = self.offset as int;
            proof {
                lemma_trivia_end(s, cur, a);
            }
            self.skip_trivia();
            if !self.peek_is('-') {
                return Err(DecodeError::new("expected '-'"));
            }
            self.advance();
            let item = match self.parse_expanded_item(indent) {
                Ok(v) => v,
                Err(e) => {
                    return Err(e);
                },
            };
            proof {
                lemma_items_push(items@, item);
            }
            items.push(item);
            match self.next_line_indent() {
                Err(m) => {
                    return Err(DecodeError::Structure(m));
                },
                Ok(Some((next_i, t))) => {
                    if next_i == indent && self.dash_item_at(t) {
                        self.offset = t;
                        continue;
                    }
                },
                Ok(None) => {},
            }
            return Ok(JsonValue::Array(items));
        }
    }

    /// The rest of an expanded item after its `-`.
    fn parse_expanded_item(&mut self, parent: usize) -> (r: Result<JsonValue, DecodeError>)
        requires
            old(self).inv(),
        ensures
            final(self).follows(*old(self)),
            ({
                let b = item_read(old(self).input@, old(self).offset as int, old(self).delims@.last(), parent as int);
                &&& r is Ok ==> final(self).offset == b.0
                &&& read_view(r) == Some(b.1)
            }),
        decreases old(self).input@.len() - old(self).offset, 3int,
    {
        let ghost s = self.input@;
        let ghost a = self.delims@.last();
        let ghost o = self.offset as int;
        proof {
            lemma_trivia_end(s, o, a);
        }
        self.skip_trivia();
        if self.peek_is('[') {
            return self.parse_array_value(parent);
        }
        if self.rest_of_line_is_empty() {
            self.finish_line();
            match self.next_line_indent() {
                Err(m) => {
                    return Err(DecodeError::Structure(m));
                },
                Ok(Some((next_i, t))) => {
                    if next_i > parent {
                        self.offset = t;
                        return self.parse_block(next_i);
                    }
                },
                Ok(None) => {},
            }
            proof {
                assert(entries_view(Seq::<(String, JsonValue)>::empty()) =~= Seq::<(Seq<char>, JsonView)>::empty());
            }
            return Ok(JsonValue::Object(Vec::new()));
        }
        if self.colon_from(self.offset).is_some() {
            let mut map: Vec<(String, JsonValue)> = Vec::new();
            let fi = parent.saturating_add(2);
            proof {
                assert(fi as int == field_indent(parent as int));
                assert(entries_view(map@) =~= Seq::<(Seq<char>, JsonView)>::empty());
            }
            let ghost i1 = self.offset as int;
            match self.parse_object_entry(&mut map, fi) {
                Err(e) => {
                    return Err(e);
                },
                Ok(()) => {},
            }
            let ghost whole = item_read(s, o, a, parent as int);
            loop
                invariant
                    self.follows(*old(self)),
                    s == self.input@,
                    a == self.delims@.last(),
                    whole == item_entries_read(s, self.offset as int, a, fi as int, entries_view(map@)),
                    whole == item_read(old(self).input@, old(self).offset as int, old(self).delims@.last(), parent as int),
                decreases self.input.len() - self.offset,
            {
                let ghost p = self.offset as int;
                match self.next_line_indent() {
                    Err(m) => {
                        return Err(DecodeError::Structure(m));
                    },
                    Ok(Some((next_i, t))) => {
                        if next_i == fi && self.colon_from(t).is_some() {
                            self.offset = t;
                            match self.parse_object_entry(&mut map, fi) {
                                Err(e) => {
                                    return Err(e);
                                },
                                Ok(()) => {},
                            }
                            continue;
                        }
                    },
                    Ok(None) => {},
                }
                return Ok(JsonValue::Object(map));
            }
        }
        self.parse_scalar_line()
    }

    /// The entries of an object at indentation `indent`.
    fn parse_object(&mut self, indent: usize) -> (r: Result<JsonValue, DecodeError>)
        requires
            old(self).inv(),
        ensures
            final(self).follows(*old(self)),
            ({
                let b = object_read(old(self).input@, old(self).offset as int, old(self).delims@.last(), indent as int,
                    Seq::empty());
                &&& r is Ok ==> final(self).offset == b.0
                &&& read_view(r) == Some(b.1)
            }),
        decreases old(self).input@.len() - old(self).offset, 4int,
    {
        let ghost s = self.input@;
        let ghost a = self.delims@.last();
        let ghost whole = object_read(s, self.offset as int, a, indent as int, Seq::empty());
        let mut map: Vec<(String, JsonValue)> = Vec::new();
        proof {
            assert(entries_view(map@) =~= Seq::<(Seq<char>, JsonView)>::empty());
        }
        loop
            invariant
                self.follows(*old(self)),
                s == self.input@,
                a == self.delims@.last(),
                whole == object_read(s, self.offset as int, a, indent as int, entries_view(map@)),
                whole == object_read(old(self).input@, old(self).offset as int, old(self).delims@.last(), indent as int,
                    Seq::empty()),
            decreases self.input.len() - self.offset,
        {
            let ghost cur = self.offset as int;
            if self.colon_from(self.offset).is_none() {
                return Err(DecodeError::new("expected key-value entry in object"));
            }
            match self.parse_object_entry(&mut map, indent) {
                Err(e) => {
                    return Err(e);
                },
                Ok(()) => {},
            }
            match self.next_line_indent() {
                Err(m) => {
                    return Err(DecodeError::Structure(m));
                },
                Ok(Some((next_i, t))) => {
                    if next_i == indent && self.colon_from(t).is_some() {
                        self.offset = t;
                        continue;
                    }
                },
                Ok(None) => {},
            }
            return Ok(JsonValue::Object(map));
        }
    }

    /// One `key: value` entry, inserted into `map`.
    fn parse_object_entry(&mut self, map: &mut Vec<(String, JsonValue)>, parent: usize) -> (r: Result<(), DecodeError>)
        requires
            old(self).inv(),
        ensures
            final(self).follows(*old(self)),
            r is Ok ==> final(self).offset > old(self).offset,
            ({
                let b = entry_read(old(self).input@, old(self).offset as int, old(self).delims@.last(), parent as int,
                    entries_view(old(map)@));
                &&& r is Ok ==> final(self).offset == b.0 && b.1 == Ok::<Seq<(Seq<char>, JsonView)>, Seq<char>>(
                    entries_view(final(map)@),
                )
                &&& r matches Err(e) ==> (e matches DecodeError::Structure(m) && b.1 == Err::<
                    Seq<(Seq<char>, JsonView)>,
                    Seq<char>,
                >(m@))
            }),
        decreases old(self).input@.len() - old(self).offset, 1int,
    {
        let colon = match self.colon_from(self.offset) {
            None => {
                return Err(DecodeError::new("missing colon in object entry"));
            },
            Some(k) => k,
        };
        let start = self.offset;
        self.offset = colon + 1;
        match read_array_header(&self.input, start, colon) {
            Some(h) => {
                let value = match self.parse_array_or_table(h.count, h.delim, h.cols, parent, true) {
                    Ok(v) => v,
                    Err(e) => {
                        return Err(e);
                    },
                };
                object_insert(map, h.name, value);
            },
            None => {
                let name = match read_key(&self.input, start, colon) {
                    Err(m) => {
                        return Err(DecodeError::Structure(m));
                    },
                    Ok(n) => n,
                };
                let value = match self.parse_value_after_colon(parent) {
                    Ok(v) => v,
                    Err(e) => {
                        return Err(e);
                    },
                };
                object_insert(map, name, value);
            },
        }
        Ok(())
    }

    /// The value after a key's colon: `[]`, a nested block on the lines
    /// below, an empty object, or a scalar line.
    fn parse_value_after_colon(&mut self, parent: usize) -> (r: Result<JsonValue, DecodeError>)
        requires
            old(self).inv(),
        ensures
            final(self).follows(*old(self)),
            ({
                let b = value_read(old(self).input@, old(self).offset as int, old(self).delims@.last(), parent as int);
                &&& r is Ok ==> final(self).offset == b.0
                &&& read_view(r) == Some(b.1)
            }),
        decreases old(self).input@.len() - old(self).offset, 0int,
    {
        let ghost s = self.input@;
        let ghost a = self.delims@.last();
        let ghost o = self.offset as int;
        proof {
            lemma_trivia_end(s, o, a);
        }
        self.skip_trivia();
        if self.peek_is('[') {
            let e = self.line_end();
            let mut k = self.offset;
            while k < e && self.input[k] != ']'
                invariant
                    self.offset <= k <= e <= self.input.len(),
                    forall|j: int| self.offset <= j < k ==> self.input@[j] != ']',
                decreases e - k,
            {
                k += 1;
            }
            if k >= e {
                proof {
                    let lo = self.offset as int;
                    assert(!s.subrange(lo, e as int).contains(']')) by {
                        assert forall|j: int| 0 <= j < e - lo implies s.subrange(lo, e as int)[j] != ']' by {
                            assert(s.subrange(lo, e as int)[j] == s[lo + j]);
                        }
                    }
                }
                return Err(DecodeError::new("Unterminated inline array"));
            }
            proof {
                assert(s.subrange(self.offset as int, e as int)[k - self.offset] == ']');
            }
        }
        if self.peek_is('[') && self.peek_next_is(']') {
            return self.read_empty_array();
        }
        if self.rest_of_line_is_empty() {
            self.finish_line();
            match self.next_line_indent() {
                Err(m) => {
                    return Err(DecodeError::Structure(m));
                },
                Ok(Some((next_i, t))) => {
                    if next_i > parent {
                        self.offset = t;
                        return self.parse_block(next_i);
                    }
                },
                Ok(None) => {},
            }
            proof {
                assert(entries_view(Seq::<(String, JsonValue)>::empty()) =~= Seq::<(Seq<char>, JsonView)>::empty());
            }
            return Ok(JsonValue::Object(Vec::new()));
        }
        self.parse_scalar_line()
    }

    /// An array written `[N...]` in an expanded item: the count, a
    /// delimiter, the column names of a tabular array, then its content.
    fn parse_array_value(&mut self, parent: usize) -> (r: Result<JsonValue, DecodeError>)
        requires
            old(self).inv(),
        ensures
            final(self).follows(*old(self)),
            ({
                let b = array_read(old(self).input@, old(self).offset as int, old(self).delims@.last(), parent as int);
                &&& r is Ok ==> final(self).offset == b.0
                &&& read_view(r) == Some(b.1)
            }),
        decreases old(self).input@.len() - old(self).offset, 2int,
    {
        let ghost s = self.input@;
        let ghost a = self.delims@.last();
        if !self.peek_is('[') {
            return Err(DecodeError::new("expected '['"));
        }
        self.advance();
        let ds = self.offset;
        while self.offset < self.input.len() && '0' <= self.input[self.offset] && self.input[self.offset] <= '9'
            invariant
                self.follows(*old(self)),
                s == self.input@,
                old(self).offset < ds <= self.offset,
                digits_end(s, self.offset as int) == digits_end(s, ds as int),
            decreases self.input.len() - self.offset,
        {
            self.offset = self.offset + 1;
        }
        if self.offset == ds {
            return Err(DecodeError::new("expected count"));
        }
        let digits = super::scalars::slice_of(&self.input, ds, self.offset);
        let count = match crate::parser::numbers::parse_usize(&digits) {
            None => {
                return Err(DecodeError::new("number too large to fit in target type"));
            },
            Some(c) => c,
        };
        let mut delim: Option<char> = None;
        if self.offset < self.input.len() && self.input[self.offset] != ']' {
            delim = Some(self.input[self.offset]);
            self.advance();
        }
        if !self.peek_is(']') {
            return Err(DecodeError::new("expected ']'"));
        }
        self.advance();
        proof {
            lemma_trivia_end(s, self.offset as int, a);
        }
        self.skip_trivia();
        let mut cols: Option<Vec<String>> = None;
        if self.peek_is('{') {
            let cs = self.offset + 1;
            let q = match self.brace_from(cs) {
                None => {
                    return Err(DecodeError::new("expected '}'"));
                },
                Some(q) => q,
            };
            self.offset = q + 1;
            let d = match delim {
                Some(c) => c,
                None => ',',
            };
            match read_columns(&self.input, cs, q, d) {
                Ok(c) => {
                    cols = Some(c);
                },
                Err(m) => {
                    return Err(DecodeError::Structure(m));
                },
            }
        }
        self.parse_array_or_table(count, delim, cols, parent, false)
    }

    /// The first `}` from `from` on.
    fn brace_from(&self, from: usize) -> (r: Option<usize>)
        requires
            self.inv(),
            from <= self.input.len(),
        ensures
            match r {
                Some(q) => brace_close(self.input@, from as int) == Some(q as int) && from <= q < self.input.len(),
                None => brace_close(self.input@, from as int) is None,
            },
    {
        let mut k = from;
        while k < self.input.len()
            invariant
                from <= k <= self.input.len(),
                brace_close(self.input@, k as int) == brace_close(self.input@, from as int),
            decreases self.input.len() - k,
        {
            if self.input[k] == '}' {
                return Some(k);
            }
            k += 1;
        }
        None
    }

    /// The rows of a tabular array, each at indentation `row_indent`, as
    /// objects keyed by `columns`.
    fn parse_rows(&mut self, active: char, columns: &Vec<String>, row_indent: usize) -> (r: Result<
        Vec<JsonValue>,
        DecodeError,
    >)
        requires
            old(self).inv(),
            old(self).delims@.last() == active,
            old(self).offset < old(self).input.len(),
        ensures
            final(self).follows(*old(self)),
            ({
                let b = rows_read(old(self).input@, old(self).offset as int, active, strings_view(columns@),
                    row_indent as int, Seq::empty());
                &&& r matches Ok(rows) ==> final(self).offset == b.0 && b.1 == Ok::<Seq<JsonView>, Seq<char>>(
                    items_view(rows@),
                ) && rows_have_columns(rows@, strings_view(columns@))
                &&& r matches Err(e) ==> (e matches DecodeError::Structure(m) && b.1 == Err::<Seq<JsonView>, Seq<char>>(
                    m@,
                ))
            }),
    {
        let ghost s = self.input@;
        let ghost names = strings_view(columns@);
        let ghost whole = rows_read(s, self.offset as int, active, names, row_indent as int, Seq::empty());
        let mut rows: Vec<JsonValue> = Vec::new();
        proof {
            assert(items_view(rows@) =~= Seq::<JsonView>::empty());
        }
        loop
            invariant
                self.follows(*old(self)),
                s == self.input@,
                active == self.delims@.last(),
                names == strings_view(columns@),
                whole == rows_read(s, old(self).offset as int, active, names, row_indent as int, Seq::empty()),
                whole == rows_read(s, self.offset as int, active, names, row_indent as int, items_view(rows@)),
                self.offset < self.input.len(),
                rows_have_columns(rows@, names),
            decreases self.input.len() - self.offset,
        {
            let at = self.offset;
            let vals = match self.parse_inline_items(active) {
                Ok(v) => v,
                Err(e) => {
                    return Err(e);
                },
            };
            proof {
                lemma_newline_from(self.input@, at as int);
            }
            if vals.len() != columns.len() {
                let mut m = String::from_str("tabular row has ");
                crate::text::push_decimal(&mut m, vals.len() as u64);
                m.append(" values but ");
                crate::text::push_decimal(&mut m, columns.len() as u64);
                m.append(" columns");
                return Err(DecodeError::Structure(m));
            }
            let row = row_object(columns, vals);
            proof {
                lemma_items_push(rows@, row);
            }
            rows.push(row);
            proof {
                assert forall|k: int| 0 <= k < rows@.len() implies (#[trigger] rows@[k] matches JsonValue::Object(
                    entries,
                ) && keys_of(entries@) == distinct_keys(names)) by {
                    if k < rows@.len() - 1 {
                        assert(rows@[k] == rows@.drop_last()[k]);
                    }
                }
            }
            match self.next_line_indent() {
                Err(m) => {
                    return Err(DecodeError::Structure(m));
                },
                Ok(Some((ni, t2))) => {
                    if ni == row_indent {
                        self.offset = t2;
                        continue;
                    }
                },
                Ok(None) => {},
            }
            return Ok(rows);
        }
    }

    /// An array after its header, with the header's delimiter active.
    fn parse_array_or_table(
        &mut self,
        count: usize,
        delim: Option<char>,
        cols: Option<Vec<String>>,
        parent: usize,
        colon_consumed: bool,
    ) -> (r: Result<JsonValue, DecodeError>)
        requires
            old(self).inv(),
        ensures
            final(self).follows(*old(self)),
            r matches Ok(JsonValue::Array(items)) ==> items.len() == count,
            r matches Ok(v) ==> v is Array,
            cols matches Some(c) ==> (r matches Ok(JsonValue::Array(items)) ==> rows_have_columns(items@, strings_view(c@))),
            ({
                let b = table_read(old(self).input@, old(self).offset as int, count as nat, delim_char(delim),
                    opt_strings(cols), parent as int, colon_consumed);
                &&& r is Ok ==> final(self).offset == b.0
                &&& read_view(r) == Some(b.1)
            }),
        decreases old(self).input@.len() - old(self).offset, 1int,
    {
        let active = match delim {
            Some(c) => c,
            None => ',',
        };
        self.delims.push(active);
        let res = match cols {
            Some(columns) => self.parse_tabular(count, active, columns, parent, colon_consumed),
            None => self.parse_list(count, active, parent, colon_consumed),
        };
        let _ = self.delims.pop();
        proof {
            assert(self.delims@ =~= old(self).delims@);
        }
        res
    }

    /// The rows of a tabular array after its header.
    fn parse_tabular(
        &mut self,
        count: usize,
        active: char,
        columns: Vec<String>,
        parent: usize,
        colon_consumed: bool,
    ) -> (r: Result<JsonValue, DecodeError>)
        requires
            old(self).inv(),
            old(self).delims@.last() == active,
        ensures
            final(self).follows(*old(self)),
            r matches Ok(JsonValue::Array(items)) ==> items.len() == count && rows_have_columns(
                items@,
                strings_view(columns@),
            ),
            r matches Ok(v) ==> v is Array,
            ({
                let b = table_read(old(self).input@, old(self).offset as int, count as nat, active, Some(
                    strings_view(columns@),
                ), parent as int, colon_consumed);
                &&& r is Ok ==> final(self).offset == b.0
                &&& read_view(r) == Some(b.1)
            }),
    {
        let ghost s = self.input@;
        let ghost o = self.offset as int;
        proof {
            lemma_trivia_end(s, o, active);
        }
        self.skip_trivia();
        if !colon_consumed {
            if !self.peek_is(':') {
                return Err(DecodeError::new("expected ':' after tabular header"));
            }
            self.advance();
        }
        self.skip_trivia();
        if self.peek_is('\n') {
            self.advance();
        }
        let rows: Vec<JsonValue> = match self.next_line_indent() {
            Err(m) => {
                return Err(DecodeError::Structure(m));
            },
            Ok(Some((next_i, t))) => {
                if next_i > parent {
                    self.offset = t;
                    match self.parse_rows(active, &columns, next_i) {
                        Err(e) => {
                            return Err(e);
                        },
                        Ok(rs) => rs,
                    }
                } else {
                    Vec::new()
                }
            },
            Ok(None) => Vec::new(),
        };
        proof {
            lemma_items_view(rows@);
            assert(items_view(Seq::<JsonValue>::empty()) =~= Seq::<JsonView>::empty());
        }
        if rows.len() != count {
            return Err(DecodeError::new("tabular row count mismatch with header length"));
        }
        Ok(JsonValue::Array(rows))
    }

    /// An expanded or inline array after its header.
    #[verifier::rlimit(40)]
    fn parse_list(&mut self, count: usize, active: char, parent: usize, colon_consumed: bool) -> (r: Result<
        JsonValue,
        DecodeError,
    >)
        requires
            old(self).inv(),
            old(self).delims@.last() == active,
        ensures
            final(self).follows(*old(self)),
            r matches Ok(JsonValue::Array(items)) ==> items.len() == count,
            r matches Ok(v) ==> v is Array,
            ({
                let b = table_read(old(self).input@, old(self).offset as int, count as nat, active, None, parent as int,
                    colon_consumed);
                &&& r is Ok ==> final(self).offset == b.0
                &&& read_view(r) == Some(b.1)
            }),
        decreases old(self).input@.len() - old(self).offset, 0int,
    {
        let ghost s = self.input@;
        let ghost o = self.offset as int;
        proof {
            lemma_trivia_end(s, o, active);
        }
        self.skip_trivia();
        if !colon_consumed {
            if !self.peek_is(':') {
                return Err(DecodeError::new("expected ':' after array header"));
            }
            self.advance();
        }
        self.skip_trivia();
        if self.peek_is('\n') || self.at_end() {
            if self.peek_is('\n') {
                self.advance();
            }
            match self.next_line_indent() {
                Err(m) => {
                    return Err(DecodeError::Structure(m));
                },
                Ok(Some((next_i, t))) => {
                    if next_i > parent && self.dash_item_at(t) {
                        self.offset = t;
                        let val = match self.parse_expanded_array(next_i) {
                            Ok(v) => v,
                            Err(e) => {
                                return Err(e);
                            },
                        };
                        match &val {
                            JsonValue::Array(arr) => {
                                proof {
                                    lemma_items_view(arr@);
                                }
                                if arr.len() != count {
                                    return Err(DecodeError::new("array length mismatch"));
                                }
                            },
                            _ => {},
                        }
                        return Ok(val);
                    }
                },
                Ok(None) => {},
            }
            proof {
                assert(items_view(Seq::<JsonValue>::empty()) =~= Seq::<JsonView>::empty());
            }
            if count == 0 {
                return Ok(JsonValue::Array(Vec::new()));
            }
            return Err(DecodeError::new("array length mismatch"));
        }
        let items = match self.parse_inline_items(active) {
            Ok(v) => v,
            Err(e) => {
                return Err(e);
            },
        };
        if items.len() != count {
            return Err(DecodeError::new("array length mismatch"));
        }
        Ok(JsonValue::Array(items))
    }

    /// Decodes a whole document.
    fn parse_document(&mut self) -> (r: Result<JsonValue, DecodeError>)
        requires
            old(self).inv(),
            old(self).offset == 0,
            old(self).delims@ == seq![','],
        ensures
            final(self).follows(*old(self)),
            blank_from(old(self).input@, old(self).offset as int, old(self).delims@.last()) ==> (r matches Ok(
                JsonValue::Object(e),
            ) && e.len() == 0),
            read_view(r) == Some(document_read(old(self).input@)),
    {
        let ghost s = self.input@;
        proof {
            assert(self.delims@.last() == ',');
            lemma_trivia_end(s, 0, ',');
        }
        self.skip_trivia();
        self.skip_newlines();
        if self.at_end() {
            proof {
                assert(entries_view(Seq::<(String, JsonValue)>::empty()) =~= Seq::<(Seq<char>, JsonView)>::empty());
            }
            return Ok(JsonValue::Object(Vec::new()));
        }
        let first_indent = match self.next_line_indent() {
            Err(m) => {
                return Err(DecodeError::Structure(m));
            },
            Ok(Some((indent, t))) => {
                self.offset = t;
                indent
            },
            Ok(None) => 0,
        };
        let val = match self.parse_block(first_indent) {
            Ok(v) => v,
            Err(e) => {
                return Err(e);
            },
        };
        self.skip_trivia();
        self.skip_newlines();
        if !self.at_end() {
            return Err(DecodeError::new("trailing tokens after document"));
        }
        Ok(val)
    }
}

/// A tabular row: each column with its value, in column order (a repeated
/// column keeps its first place and takes the later value).
fn row_object(columns: &Vec<String>, vals: Vec<JsonValue>) -> (row: JsonValue)
    requires
        vals.len() == columns.len(),
    ensures
        row matches JsonValue::Object(entries) && keys_of(entries@) == distinct_keys(strings_view(columns@)),
        json_view(row) == JsonView::Object(row_entries(strings_view(columns@), items_view(vals@))),
{
    let ghost vals0 = vals@;
    let ghost n = vals@.len();
    proof {
        lemma_items_view(vals0);
    }
    let mut vals = vals;
    let mut rev: Vec<JsonValue> = Vec::new();
    while vals.len() > 0
        invariant
            vals.len() + rev.len() == columns.len(),
            n == columns.len(),
            vals0.len() == n,
            vals.len() <= n,
            vals@ == vals0.take(vals.len() as int),
            forall|j: int| 0 <= j < rev.len() ==> #[trigger] rev@[j] == vals0[n - 1 - j],
        decreases vals.len(),
    {
        let ghost before = vals@;
        let popped = vals.pop();
        proof {
            assert(popped == Some(before.last()));
            assert(before.last() == before[before.len() - 1]);
            assert(before[before.len() - 1] == vals0[before.len() - 1]);
            assert(vals@ =~= vals0.take(vals.len() as int)) by {
                assert forall|k: int| 0 <= k < vals@.len() implies vals@[k] == vals0.take(vals.len() as int)[k] by {
                    assert(vals@[k] == before[k]);
                }
            }
        }
        let x = popped.unwrap();
        rev.push(x);
    }
    let mut entries: Vec<(String, JsonValue)> = Vec::new();
    let mut k: usize = 0;
    let ghost names = strings_view(columns@);
    let ghost vv = items_view(vals0);
    proof {
        assert(keys_of(entries@) =~= Seq::<Seq<char>>::empty());
        assert(names.take(0) =~= Seq::<Seq<char>>::empty());
        assert(entries_view(entries@) =~= Seq::<(Seq<char>, JsonView)>::empty());
    }
    while k < columns.len()
        invariant
            0 <= k <= columns.len(),
            n == columns.len(),
            names == strings_view(columns@),
            names.len() == n,
            vals0.len() == n,
            vv == items_view(vals0),
            vv.len() == n,
            forall|j: int| 0 <= j < n ==> #[trigger] vv[j] == json_view(vals0[j]),
            rev.len() == columns.len() - k,
            forall|j: int| 0 <= j < rev.len() ==> #[trigger] rev@[j] == vals0[n - 1 - j],
            keys_of(entries@) == distinct_keys(names.take(k as int)),
            entries_view(entries@) == row_entries(names.take(k as int), vv),
        decreases columns.len() - k,
    {
        let v = match rev.pop() {
            Some(x) => x,
            None => JsonValue::Null,
        };
        proof {
            assert(v == vals0[k as int]);
        }
        object_insert(&mut entries, columns[k].clone(), v);
        proof {
            assert(names.take(k + 1).drop_last() =~= names.take(k as int));
            assert(names.take(k + 1).last() == columns@[k as int]@);
            assert(names.take(k + 1).len() == k + 1);
        }
        k += 1;
    }
    proof {
        assert(names.take(columns.len() as int) =~= names);
    }
    JsonValue::Object(entries)
}

/// Decodes TOON text into a JSON value. Block comments are blanked out
/// first (an unterminated one is an error); then the document is read
/// line by line. A blank document is an empty object. Array headers are
/// held to their counts: an array comes back with exactly the declared
/// number of items, and a tabular array's rows are objects keyed by its
/// columns.
pub fn decode(input: &str) -> (r: Result<JsonValue, DecodeError>)
    ensures
        strip_from(input@, 0) is None ==> (r matches Err(DecodeError::Structure(m)) && m@
            == "Unterminated block comment"@),
        strip_from(input@, 0) matches Some(t) && blank_from(t, 0, ',') ==> (r matches Ok(JsonValue::Object(e))
            && e.len() == 0),
        strip_from(input@, 0) matches Some(t) ==> read_view(r) == Some(document_read(t)),
{
    let normalized = match remove_block_comments(input) {
        Ok(t) => t,
        Err(e) => {
            return Err(e);
        },
    };
    let mut decoder = Decoder { input: chars_of(normalized.as_str()), offset: 0, delims: vec![','] };
    proof {
        assert(decoder.delims@.last() == ',');
        assert(decoder.delims@ =~= seq![',']);
    }
    decoder.parse_document()
}

} // verus!
