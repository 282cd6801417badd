//! Hover information: what the editor shows for the key or value under the
//! cursor.
use super::ast_utils::{descent, find_node_at_position, steps_view, NodePathEntry, StepView};
use super::formatting::{number_text, push_number, table_view};
use crate::ast::{AstNode, NumberValue, ObjectEntry, Position, Span};
use crate::text::{char_utf8_width, chars_of, decimal_digits, lemma_newline_from, newline_from, push_chars, push_decimal, utf8_len, utf8_width};
use vstd::prelude::*;

verus! {

/// Hover contents and the range of the hovered element.
#[derive(Debug, Clone)]
pub struct HoverInfo {
    /// The hover contents as markdown text
    pub contents: String,
    /// Start line of the hovered element
    pub start_line: u32,
    /// Start column of the hovered element
    pub start_col: u32,
    /// End line of the hovered element
    pub end_line: u32,
    /// End column of the hovered element
    pub end_col: u32,
}

/// The character index where line `n` of `s` starts, if `s` has that line.
pub open spec fn line_start_index(s: Seq<char>, n: nat) -> Option<int>
    decreases n,
{
    if n == 0 {
        Some(0)
    } else {
        match line_start_index(s, (n - 1) as nat) {
            Some(a) => {
                let e = newline_from(s, a);
                if e < s.len() {
                    Some(e + 1)
                } else {
                    None
                }
            },
            None => None,
        }
    }
}

/// The first character index from `k` up to `e` whose byte offset lies at
/// least `column` bytes past `base` (or `e`, or the end).
pub open spec fn first_reaching(s: Seq<char>, base: nat, column: nat, k: int, e: int) -> int
    decreases e - k,
{
    if k < e && 0 <= k < s.len() && utf8_len(s.take(k)) - base < column {
        first_reaching(s, base, column, k + 1, e)
    } else {
        k
    }
}

/// The byte offset of (0-based) line `line` and byte column `column`: the
/// first character boundary of that line at least `column` bytes into it;
/// on the last line a column past its end gives the end of the text. `None`
/// when the text has no such line, or when the column lies past the end of
/// a line that a line feed ends.
pub open spec fn position_offset(s: Seq<char>, line: nat, column: nat) -> Option<nat> {
    match line_start_index(s, line) {
        None => None,
        Some(a) => {
            let base = utf8_len(s.take(a));
            let e = newline_from(s, a);
            let k = first_reaching(s, base, column, a, e);
            if utf8_len(s.take(k)) - base >= column || k == s.len() {
                Some(utf8_len(s.take(k)))
            } else {
                None
            }
        },
    }
}

proof fn lemma_take_step(s: Seq<char>, i: int)
    requires
        0 <= i < s.len(),
    ensures
        utf8_len(s.take(i + 1)) == utf8_len(s.take(i)) + utf8_width(s[i]),
{
    assert(s.take(i + 1).drop_last() =~= s.take(i));
}

proof fn lemma_prefix_le(s: Seq<char>, i: int, j: int)
    requires
        0 <= i <= j <= s.len(),
    ensures
        utf8_len(s.take(i)) <= utf8_len(s.take(j)),
    decreases j - i,
{
    if i < j {
        lemma_prefix_le(s, i, j - 1);
        lemma_take_step(s, j - 1);
    }
}

proof fn lemma_line_start_bound(s: Seq<char>, n: nat)
    ensures
        line_start_index(s, n) matches Some(a) ==> 0 <= a <= s.len(),
    decreases n,
{
    if n > 0 {
        lemma_line_start_bound(s, (n - 1) as nat);
        if let Some(a) = line_start_index(s, (n - 1) as nat) {
            lemma_newline_from(s, a);
        }
    }
}

/// The byte offset of a line and byte column in `source`.
pub fn calculate_offset(source: &str, line: u32, column: u32) -> (r: Option<u32>)
    requires
        utf8_len(source@) <= u32::MAX,
    ensures
        match r {
            Some(o) => position_offset(source@, line as nat, column as nat) == Some(o as nat),
            None => position_offset(source@, line as nat, column as nat) is None,
        },
{
    let v = chars_of(source);
    let ghost s = v@;
    // Find where the line starts.
    let mut a: usize = 0;
    let mut a_bytes: u32 = 0;
    let mut current_line: u32 = 0;
    proof {
        assert(s.take(0) =~= Seq::<char>::empty());
        assert(s.take(s.len() as int) =~= s);
    }
    while current_line < line
        invariant
            s == v@,
            s == source@,
            0 <= current_line <= line,
            utf8_len(s) <= u32::MAX,
            s.take(s.len() as int) == s,
            line_start_index(s, current_line as nat) == Some(a as int),
            0 <= a <= v.len(),
            a_bytes == utf8_len(s.take(a as int)),
        decreases line - current_line,
    {
        let mut j = a;
        let mut j_bytes = a_bytes;
        while j < v.len() && v[j] != '\n'
            invariant
                s == v@,
                a <= j <= v.len(),
                newline_from(s, j as int) == newline_from(s, a as int),
                j_bytes == utf8_len(s.take(j as int)),
                utf8_len(s) <= u32::MAX,
                s.take(s.len() as int) == s,
            decreases v.len() - j,
        {
            proof {
                lemma_take_step(s, j as int);
                lemma_prefix_le(s, j + 1, s.len() as int);
            }
            j_bytes = j_bytes + char_utf8_width(v[j]);
            j += 1;
        }
        proof {
            lemma_newline_from(s, a as int);
        }
        if j >= v.len() {
            proof {
                lemma_no_later_line(s, current_line as nat, line as nat);
            }
            return None;
        }
        proof {
            lemma_take_step(s, j as int);
            lemma_prefix_le(s, j + 1, s.len() as int);
        }
        a = j + 1;
        a_bytes = j_bytes + 1;
        current_line += 1;
    }
    // Walk the line to the column.
    let mut k = a;
    let mut k_bytes = a_bytes;
    proof {
        lemma_newline_from(s, a as int);
    }
    while k < v.len() && v[k] != '\n' && k_bytes - a_bytes < column
        invariant
            s == v@,
            a <= k <= v.len(),
            k as int <= newline_from(s, a as int),
            newline_from(s, a as int) <= s.len(),
            forall|m: int| a <= m < newline_from(s, a as int) ==> s[m] != '\n',
            newline_from(s, a as int) < s.len() ==> s[newline_from(s, a as int)] == '\n',
            first_reaching(s, a_bytes as nat, column as nat, k as int, newline_from(s, a as int))
                == first_reaching(s, a_bytes as nat, column as nat, a as int, newline_from(s, a as int)),
            k_bytes == utf8_len(s.take(k as int)),
            a_bytes == utf8_len(s.take(a as int)),
            a_bytes <= k_bytes,
            utf8_len(s) <= u32::MAX,
            s.take(s.len() as int) == s,
        decreases v.len() - k,
    {
        proof {
            lemma_take_step(s, k as int);
            lemma_prefix_le(s, k + 1, s.len() as int);
        }
        k_bytes = k_bytes + char_utf8_width(v[k]);
        k += 1;
    }
    if k_bytes - a_bytes >= column || k == v.len() {
        Some(k_bytes)
    } else {
        None
    }
}

proof fn lemma_no_later_line(s: Seq<char>, n: nat, m: nat)
    requires
        n < m,
        line_start_index(s, n) matches Some(a) && newline_from(s, a) >= s.len(),
    ensures
        line_start_index(s, m) is None,
    decreases m - n,
{
    if m == n + 1 {
    } else {
        lemma_no_later_line(s, n, (m - 1) as nat);
    }
}

/// Names joined with dots.
pub open spec fn dotted(names: Seq<Seq<char>>) -> Seq<char>
    decreases names.len(),
{
    if names.len() == 0 {
        Seq::empty()
    } else if names.len() == 1 {
        names[0]
    } else {
        dotted(names.drop_last()) + seq!['.'] + names.last()
    }
}

pub open spec fn names_view(v: Seq<String>) -> Seq<Seq<char>> {
    v.map_values(|s: String| s@)
}

/// The character index where the first `n` bytes of `s` end, or where the
/// first character that crosses byte `n` starts... the first character
/// boundary at or past byte `n`.
pub open spec fn cut_point(s: Seq<char>, n: nat) -> int {
    first_reaching(s, 0, n, 0, s.len() as int)
}

/// Whether a text longer than `limit` bytes has a character boundary at
/// byte `n`, so that its first `n` bytes can be cut off.
pub open spec fn cuts_cleanly(s: Seq<char>, limit: nat, n: nat) -> bool {
    utf8_len(s) > limit ==> utf8_len(s.take(cut_point(s, n))) == n
}

/// A text of at most `limit` bytes as it is; a longer one cut to its first
/// `n` bytes, followed by `...`.
pub open spec fn preview(s: Seq<char>, limit: nat, n: nat) -> Seq<char> {
    if utf8_len(s) > limit {
        s.take(cut_point(s, n)) + "..."@
    } else {
        s
    }
}

pub open spec fn bool_text(b: bool) -> Seq<char> {
    if b {
        "true"@
    } else {
        "false"@
    }
}

/// The short description of a value shown beside a hovered key.
pub open spec fn describe(n: AstNode, table: Seq<(Seq<char>, Seq<char>)>) -> Seq<char> {
    match n {
        AstNode::Object { entries, .. } => "Object ("@ + decimal_digits(entries@.len()) + " entries)"@,
        AstNode::Array { items, .. } => "Array ("@ + decimal_digits(items@.len()) + " items)"@,
        AstNode::String { value, .. } => "String \""@ + preview(value@, 30, 27) + "\""@,
        AstNode::Number { value, .. } => "Number "@ + number_text(value@, table),
        AstNode::Bool { value, .. } => "Boolean "@ + bool_text(value),
        AstNode::Null { .. } => "Null"@,
        AstNode::Reference { path, .. } => "Reference ${"@ + path@ + "}"@,
        AstNode::Document { .. } => "Document"@,
    }
}

/// The hover text of a node reached along the key path `kp` (empty at the
/// top level).
pub open spec fn hover_text(n: AstNode, kp: Seq<char>, table: Seq<(Seq<char>, Seq<char>)>) -> Seq<char> {
    let top = kp.len() == 0;
    match n {
        AstNode::Object { entries, .. } => if top {
            "**Object** ("@ + decimal_digits(entries@.len()) + " entries)"@
        } else {
            "**"@ + kp + "** : Object ("@ + decimal_digits(entries@.len()) + " entries)"@
        },
        AstNode::Array { items, .. } => if top {
            "**Array** ("@ + decimal_digits(items@.len()) + " items)"@
        } else {
            "**"@ + kp + "** : Array ("@ + decimal_digits(items@.len()) + " items)"@
        },
        AstNode::String { value, .. } => {
            let pv = "\""@ + preview(value@, 50, 47) + "\""@;
            if top {
                "**String**: "@ + pv
            } else {
                "**"@ + kp + "** : String\n\n"@ + pv
            }
        },
        AstNode::Number { value, .. } => {
            let t = if value is Float { "Float"@ } else { "Integer"@ };
            let num = number_text(value@, table);
            if top {
                "**Number** ("@ + t + "): "@ + num
            } else {
                "**"@ + kp + "** : Number ("@ + t + ")\n\n"@ + num
            }
        },
        AstNode::Bool { value, .. } => if top {
            "**Boolean**: "@ + bool_text(value)
        } else {
            "**"@ + kp + "** : Boolean\n\n"@ + bool_text(value)
        },
        AstNode::Null { .. } => if top {
            "**Null**"@
        } else {
            "**"@ + kp + "** : Null"@
        },
        AstNode::Reference { path, .. } => if top {
            "**Reference**: ${"@ + path@ + "}"@
        } else {
            "**"@ + kp + "** : Reference\n\n${"@ + path@ + "}"@
        },
        AstNode::Document { children, .. } => "**Document** ("@ + decimal_digits(children@.len()) + " top-level entries)"@,
    }
}

/// The entry whose key holds `pos`, searched depth first in document order
/// through documents, objects, object values and array items, with the
/// keys leading to it (`path` first).
pub open spec fn key_hover(n: AstNode, pos: Position, path: Seq<Seq<char>>) -> Option<(ObjectEntry, Seq<Seq<char>>)>
    decreases n, 0int,
{
    match n {
        AstNode::Document { children, .. } => first_key_hover(children@, pos, path, 0),
        AstNode::Object { entries, .. } => first_entry_hover(entries@, pos, path, 0),
        _ => None,
    }
}

pub open spec fn first_key_hover(s: Seq<AstNode>, pos: Position, path: Seq<Seq<char>>, i: int) -> Option<(ObjectEntry, Seq<Seq<char>>)>
    decreases s, s.len() - i,
{
    if i < 0 || i >= s.len() {
        None
    } else if key_hover(s[i], pos, path) is Some {
        key_hover(s[i], pos, path)
    } else {
        first_key_hover(s, pos, path, i + 1)
    }
}

pub open spec fn first_entry_hover(s: Seq<ObjectEntry>, pos: Position, path: Seq<Seq<char>>, i: int) -> Option<(ObjectEntry, Seq<Seq<char>>)>
    decreases s, s.len() - i,
{
    if i < 0 || i >= s.len() {
        None
    } else if entry_hover(s[i], pos, path) is Some {
        entry_hover(s[i], pos, path)
    } else {
        first_entry_hover(s, pos, path, i + 1)
    }
}

pub open spec fn entry_hover(e: ObjectEntry, pos: Position, path: Seq<Seq<char>>) -> Option<(ObjectEntry, Seq<Seq<char>>)>
    decreases e, 0int,
{
    if e.key_span.spec_contains(pos) {
        Some((e, path))
    } else {
        match e.value {
            AstNode::Object { entries, .. } => first_entry_hover(entries@, pos, path.push(e.key@), 0),
            AstNode::Array { items, .. } => first_key_hover(items@, pos, path.push(e.key@), 0),
            _ => None,
        }
    }
}

/// The keys along a descent, in order.
pub open spec fn step_names(steps: Seq<StepView>) -> Seq<Seq<char>>
    decreases steps.len(),
{
    if steps.len() == 0 {
        Seq::empty()
    } else {
        step_names(steps.drop_last()) + match steps.last().1 {
            Some(k) => seq![k],
            None => Seq::empty(),
        }
    }
}

/// Whether a string value, if it is one, can be cut as its preview needs.
pub open spec fn cut_safe(n: AstNode, limit: nat, cut: nat) -> bool {
    match n {
        AstNode::String { value, .. } => cuts_cleanly(value@, limit, cut),
        _ => true,
    }
}

/// What the editor shows at a cursor (0-based line, UTF-8 column): on a
/// key, the key's dotted path and a description of its value, over the
/// key's span; elsewhere in the document, a description of the node under
/// the cursor over that node's span.
pub open spec fn hover_at(ast: AstNode, text: Seq<char>, line: u32, col: u32, table: Seq<(Seq<char>, Seq<char>)>) -> Option<(Seq<char>, Span)> {
    match position_offset(text, line as nat, col as nat) {
        None => None,
        Some(o) => {
            let pos = Position { line, column: col, offset: o as u32 };
            match key_hover(ast, pos, Seq::empty()) {
                Some((e, p)) => Some(("**"@ + dotted(p.push(e.key@)) + "** : "@ + describe(e.value, table), e.key_span)),
                None => if !ast.spec_span().spec_contains(pos) {
                    None
                } else {
                    let d = descent(ast, pos);
                    Some((hover_text(d.1, dotted(step_names(d.0)), table), d.1.spec_span()))
                },
            }
        },
    }
}

/// Whether hovering at the cursor cuts only string values that can be cut.
pub open spec fn hover_safe(ast: AstNode, text: Seq<char>, line: u32, col: u32) -> bool {
    match position_offset(text, line as nat, col as nat) {
        None => true,
        Some(o) => {
            let pos = Position { line, column: col, offset: o as u32 };
            match key_hover(ast, pos, Seq::empty()) {
                Some((e, _)) => cut_safe(e.value, 30, 27),
                None => ast.spec_span().spec_contains(pos) ==> cut_safe(descent(ast, pos).1, 50, 47),
            }
        },
    }
}

/// Hover information at a position (0-based line, UTF-8 column). Float
/// literals are shown by their rendering in `float_renderings` (the first
/// pair whose literal matches), or as written when it has none.
pub fn get_hover_at_position(
    ast: &AstNode,
    source: &str,
    line: u32,
    column: u32,
    float_renderings: &Vec<(String, String)>,
) -> (r: Option<HoverInfo>)
    requires
        utf8_len(source@) <= u32::MAX,
        hover_safe(*ast, source@, line, column),
    ensures
        match hover_at(*ast, source@, line, column, table_view(float_renderings@)) {
            None => r is None,
            Some((text, span)) => r matches Some(h) && h.contents@ == text && h.start_line == span.start.line
                && h.start_col == span.start.column && h.end_line == span.end.line && h.end_col == span.end.column,
        },
{
    let offset = calculate_offset(source, line, column)?;
    let pos = Position::new(line, column, offset);
    let no_path: Vec<String> = Vec::new();
    proof {
        assert(names_view(no_path@) =~= Seq::<Seq<char>>::empty());
    }
    if let Some((entry, path)) = key_hover_node(ast, pos, &no_path) {
        let mut contents = String::new();
        contents.append("**");
        let mut full: Vec<String> = copy_names(&path);
        full.push(entry.key.clone());
        proof {
            assert(names_view(full@) =~= names_view(path@).push(entry.key@));
        }
        push_dotted(&mut contents, &full);
        contents.append("** : ");
        push_description(&mut contents, &entry.value, float_renderings);
        let span = entry.key_span;
        return Some(HoverInfo {
            contents,
            start_line: span.start.line,
            start_col: span.start.column,
            end_line: span.end.line,
            end_col: span.end.column,
        });
    }
    let found = find_node_at_position(ast, line, column, offset)?;
    let names = path_names(&found.path);
    proof {
        lemma_step_names_prepend((*ast, None::<Seq<char>>, None::<usize>), descent(*ast, pos).0);
    }
    let mut key_path = String::new();
    push_dotted(&mut key_path, &names);
    let contents = format_hover_content(found.node, &key_path, float_renderings);
    let span = found.node.span();
    Some(HoverInfo {
        contents,
        start_line: span.start.line,
        start_col: span.start.column,
        end_line: span.end.line,
        end_col: span.end.column,
    })
}

/// A step without a key adds no name in front.
pub proof fn lemma_step_names_prepend(x: StepView, rest: Seq<StepView>)
    requires
        x.1 is None,
    ensures
        step_names(seq![x] + rest) == step_names(rest),
    decreases rest.len(),
{
    if rest.len() == 0 {
        assert((seq![x] + rest).drop_last() =~= Seq::<StepView>::empty());
        assert((seq![x] + rest).last() == x);
        assert(step_names(Seq::<StepView>::empty()) =~= Seq::<Seq<char>>::empty());
        assert(step_names(seq![x] + rest) =~= Seq::<Seq<char>>::empty());
    } else {
        assert((seq![x] + rest).drop_last() =~= seq![x] + rest.drop_last());
        assert((seq![x] + rest).last() == rest.last());
        lemma_step_names_prepend(x, rest.drop_last());
    }
}

/// The keys along a path, in order.
fn path_names(path: &Vec<NodePathEntry>) -> (r: Vec<String>)
    ensures
        names_view(r@) == step_names(steps_view(path@)),
{
    let mut names: Vec<String> = Vec::new();
    let mut i: usize = 0;
    while i < path.len()
        invariant
            0 <= i <= path.len(),
            names_view(names@) == step_names(steps_view(path@.take(i as int))),
        decreases path.len() - i,
    {
        proof {
            assert(steps_view(path@.take(i + 1)).drop_last() =~= steps_view(path@.take(i as int)));
        }
        let ghost before = names@;
        match path[i].key {
            Some(k) => {
                names.push(k.to_owned());
                proof {
                    assert(names_view(names@) =~= names_view(before) + seq![k@]);
                }
            },
            None => {
                proof {
                    assert(names_view(names@) =~= names_view(before) + Seq::<Seq<char>>::empty());
                }
            },
        }
        i += 1;
    }
    proof {
        assert(path@.take(path.len() as int) =~= path@);
    }
    names
}

fn copy_names(v: &Vec<String>) -> (r: Vec<String>)
    ensures
        names_view(r@) == names_view(v@),
{
    let mut out: Vec<String> = Vec::new();
    let mut i: usize = 0;
    while i < v.len()
        invariant
            0 <= i <= v.len(),
            names_view(out@) == names_view(v@.take(i as int)),
        decreases v.len() - i,
    {
        let ghost before = out@;
        out.push(v[i].clone());
        proof {
            assert(out@ =~= before.push(v@[i as int]));
            assert(v@.take(i + 1) =~= v@.take(i as int).push(v@[i as int]));
            assert(names_view(out@) =~= names_view(before).push(v@[i as int]@));
            assert(names_view(v@.take(i + 1)) =~= names_view(v@.take(i as int)).push(v@[i as int]@));
        }
        i += 1;
    }
    proof {
        assert(v@.take(v.len() as int) =~= v@);
    }
    out
}

/// Appends the names joined with dots.
fn push_dotted(out: &mut String, names: &Vec<String>)
    ensures
        final(out)@ == old(out)@ + dotted(names_view(names@)),
{
    let mut i: usize = 0;
    while i < names.len()
        invariant
            0 <= i <= names.len(),
            out@ == old(out)@ + dotted(names_view(names@.take(i as int))),
        decreases names.len() - i,
    {
        proof {
            assert(names_view(names@.take(i + 1)).drop_last() =~= names_view(names@.take(i as int)));
            assert(names_view(names@.take(i + 1)).last() == names@[i as int]@);
        }
        if i > 0 {
            out.push('.');
        }
        out.append(names[i].as_str());
        i += 1;
    }
    proof {
        assert(names@.take(names.len() as int) =~= names@);
    }
}

/// Appends the preview of a text (see `preview`).
pub(crate) fn push_preview(out: &mut String, v: &String, limit: u32, cut: u32)
    requires
        cuts_cleanly(v@, limit as nat, cut as nat),
    ensures
        final(out)@ == old(out)@ + preview(v@, limit as nat, cut as nat),
{
    let cs = chars_of(v.as_str());
    let ghost s = cs@;
    let mut k: usize = 0;
    let mut bytes: u64 = 0;
    proof {
        assert(s.take(0) =~= Seq::<char>::empty());
        assert(s.take(s.len() as int) =~= s);
    }
    while k < cs.len() && bytes <= limit as u64
        invariant
            s == cs@,
            0 <= k <= cs.len(),
            bytes == utf8_len(s.take(k as int)),
            bytes <= limit + 4,
        decreases cs.len() - k,
    {
        proof {
            lemma_take_step(s, k as int);
        }
        bytes = bytes + char_utf8_width(cs[k]) as u64;
        k += 1;
    }
    proof {
        lemma_prefix_le(s, k as int, s.len() as int);
    }
    if bytes > limit as u64 {
        let mut j: usize = 0;
        let mut jb: u64 = 0;
        while j < cs.len() && jb < cut as u64
            invariant
                s == cs@,
                0 <= j <= cs.len(),
                jb == utf8_len(s.take(j as int)),
                jb <= cut + 4,
                first_reaching(s, 0, cut as nat, j as int, s.len() as int) == first_reaching(s, 0, cut as nat, 0, s.len() as int),
            decreases cs.len() - j,
        {
            proof {
                lemma_take_step(s, j as int);
            }
            jb = jb + char_utf8_width(cs[j]) as u64;
            j += 1;
        }
        push_chars(out, &cs, 0, j);
        proof {
            assert(s.subrange(0, j as int) =~= s.take(j as int));
        }
        out.append("...");
    } else {
        out.append(v.as_str());
    }
}

/// Appends the description of a value (see `describe`).
fn push_description(out: &mut String, value: &AstNode, table: &Vec<(String, String)>)
    requires
        cut_safe(*value, 30, 27),
    ensures
        final(out)@ == old(out)@ + describe(*value, table_view(table@)),
{
    match value {
        AstNode::Object { entries, .. } => {
            out.append("Object (");
            push_decimal(out, entries.len() as u64);
            out.append(" entries)");
        },
        AstNode::Array { items, .. } => {
            out.append("Array (");
            push_decimal(out, items.len() as u64);
            out.append(" items)");
        },
        AstNode::String { value, .. } => {
            out.append("String \"");
            push_preview(out, value, 30, 27);
            out.append("\"");
        },
        AstNode::Number { value, .. } => {
            out.append("Number ");
            push_number(out, value, table);
        },
        AstNode::Bool { value, .. } => {
            out.append("Boolean ");
            push_bool(out, *value);
        },
        AstNode::Null { .. } => out.append("Null"),
        AstNode::Reference { path, .. } => {
            out.append("Reference ${");
            out.append(path.as_str());
            out.append("}");
        },
        AstNode::Document { .. } => out.append("Document"),
    }
}

pub(crate) fn push_bool(out: &mut String, b: bool)
    ensures
        final(out)@ == old(out)@ + bool_text(b),
{
    if b {
        out.append("true");
    } else {
        out.append("false");
    }
}

/// The hover text of a node reached along the key path `key_path`.
fn format_hover_content(node: &AstNode, key_path: &String, table: &Vec<(String, String)>) -> (r: String)
    requires
        cut_safe(*node, 50, 47),
    ensures
        r@ == hover_text(*node, key_path@, table_view(table@)),
{
    let top = key_path.as_str().is_empty();
    let mut out = String::new();
    match node {
        AstNode::Object { entries, .. } => {
            if top {
                out.append("**Object** (");
            } else {
                out.append("**");
                out.append(key_path.as_str());
                out.append("** : Object (");
            }
            push_decimal(&mut out, entries.len() as u64);
            out.append(" entries)");
        },
        AstNode::Array { items, .. } => {
            if top {
                out.append("**Array** (");
            } else {
                out.append("**");
                out.append(key_path.as_str());
                out.append("** : Array (");
            }
            push_decimal(&mut out, items.len() as u64);
            out.append(" items)");
        },
        AstNode::String { value, .. } => {
            if top {
                out.append("**String**: ");
            } else {
                out.append("**");
                out.append(key_path.as_str());
                out.append("** : String\n\n");
            }
            out.append("\"");
            push_preview(&mut out, value, 50, 47);
            out.append("\"");
        },
        AstNode::Number { value, .. } => {
            let is_float = match value {
                NumberValue::Float(_) => true,
                _ => false,
            };
            if top {
                out.append("**Number** (");
            } else {
                out.append("**");
                out.append(key_path.as_str());
                out.append("** : Number (");
            }
            if is_float {
                out.append("Float");
            } else {
                out.append("Integer");
            }
            if top {
                out.append("): ");
            } else {
                out.append(")\n\n");
            }
            push_number(&mut out, value, table);
        },
        AstNode::Bool { value, .. } => {
            if top {
                out.append("**Boolean**: ");
            } else {
                out.append("**");
                out.append(key_path.as_str());
                out.append("** : Boolean\n\n");
            }
            push_bool(&mut out, *value);
        },
        AstNode::Null { .. } => {
            if top {
                out.append("**Null**");
            } else {
                out.append("**");
                out.append(key_path.as_str());
                out.append("** : Null");
            }
        },
        AstNode::Reference { path, .. } => {
            if top {
                out.append("**Reference**: ${");
            } else {
                out.append("**");
                out.append(key_path.as_str());
                out.append("** : Reference\n\n${");
            }
            out.append(path.as_str());
            out.append("}");
        },
        AstNode::Document { children, .. } => {
            out.append("**Document** (");
            push_decimal(&mut out, children.len() as u64);
            out.append(" top-level entries)");
        },
    }
    out
}

fn key_hover_node<'a>(node: &'a AstNode, pos: Position, path: &Vec<String>) -> (r: Option<(&'a ObjectEntry, Vec<String>)>)
    ensures
        match r {
            None => key_hover(*node, pos, names_view(path@)) is None,
            Some((e, p)) => key_hover(*node, pos, names_view(path@)) == Some((*e, names_view(p@))),
        },
    decreases node,
{
    match node {
        AstNode::Document { children, .. } => key_hover_nodes(children, pos, path),
        AstNode::Object { entries, .. } => key_hover_entries(entries, pos, path),
        _ => None,
    }
}

fn key_hover_nodes<'a>(nodes: &'a Vec<AstNode>, pos: Position, path: &Vec<String>) -> (r: Option<(&'a ObjectEntry, Vec<String>)>)
    ensures
        match r {
            None => first_key_hover(nodes@, pos, names_view(path@), 0) is None,
            Some((e, p)) => first_key_hover(nodes@, pos, names_view(path@), 0) == Some((*e, names_view(p@))),
        },
    decreases nodes,
{
    let mut i: usize = 0;
    while i < nodes.len()
        invariant
            0 <= i <= nodes.len(),
            first_key_hover(nodes@, pos, names_view(path@), i as int) == first_key_hover(nodes@, pos, names_view(path@), 0),
        decreases nodes.len() - i,
    {
        let r = key_hover_node(&nodes[i], pos, path);
        if r.is_some() {
            return r;
        }
        i += 1;
    }
    None
}

fn key_hover_entries<'a>(entries: &'a Vec<ObjectEntry>, pos: Position, path: &Vec<String>) -> (r: Option<(&'a ObjectEntry, Vec<String>)>)
    ensures
        match r {
            None => first_entry_hover(entries@, pos, names_view(path@), 0) is None,
            Some((e, p)) => first_entry_hover(entries@, pos, names_view(path@), 0) == Some((*e, names_view(p@))),
        },
    decreases entries,
{
    let mut i: usize = 0;
    while i < entries.len()
        invariant
            0 <= i <= entries.len(),
            first_entry_hover(entries@, pos, names_view(path@), i as int) == first_entry_hover(entries@, pos, names_view(path@), 0),
        decreases entries.len() - i,
    {
        let r = key_hover_entry(&entries[i], pos, path);
        if r.is_some() {
            return r;
        }
        i += 1;
    }
    None
}

fn key_hover_entry<'a>(entry: &'a ObjectEntry, pos: Position, path: &Vec<String>) -> (r: Option<(&'a ObjectEntry, Vec<String>)>)
    ensures
        match r {
            None => entry_hover(*entry, pos, names_view(path@)) is None,
            Some((e, p)) => entry_hover(*entry, pos, names_view(path@)) == Some((*e, names_view(p@))),
        },
    decreases entry,
{
    if entry.key_span.contains(pos) {
        return Some((entry, copy_names(path)));
    }
    let mut inner = copy_names(path);
    inner.push(entry.key.clone());
    proof {
        assert(names_view(inner@) =~= names_view(path@).push(entry.key@));
    }
    match &entry.value {
        AstNode::Object { entries, .. } => key_hover_entries(entries, pos, &inner),
        AstNode::Array { items, .. } => key_hover_nodes(items, pos, &inner),
        _ => None,
    }
}

/// Whether a text cuts cleanly (see `cuts_cleanly`).
fn cuts_cleanly_exec(v: &String, limit: u32, cut: u32) -> (b: bool)
    ensures
        b == cuts_cleanly(v@, limit as nat, cut as nat),
{
    let cs = chars_of(v.as_str());
    let ghost s = cs@;
    let mut k: usize = 0;
    let mut bytes: u64 = 0;
    proof {
        assert(s.take(0) =~= Seq::<char>::empty());
        assert(s.take(s.len() as int) =~= s);
    }
    while k < cs.len() && bytes <= limit as u64
        invariant
            s == cs@,
            0 <= k <= cs.len(),
            bytes == utf8_len(s.take(k as int)),
            bytes <= limit + 4,
        decreases cs.len() - k,
    {
        proof {
            lemma_take_step(s, k as int);
        }
        bytes = bytes + char_utf8_width(cs[k]) as u64;
        k += 1;
    }
    proof {
        lemma_prefix_le(s, k as int, s.len() as int);
    }
    if bytes <= limit as u64 {
        return true;
    }
    let mut j: usize = 0;
    let mut jb: u64 = 0;
    while j < cs.len() && jb < cut as u64
        invariant
            s == cs@,
            0 <= j <= cs.len(),
            jb == utf8_len(s.take(j as int)),
            jb <= cut + 4,
            first_reaching(s, 0, cut as nat, j as int, s.len() as int) == first_reaching(s, 0, cut as nat, 0, s.len() as int),
        decreases cs.len() - j,
    {
        proof {
            lemma_take_step(s, j as int);
        }
        jb = jb + char_utf8_width(cs[j]) as u64;
        j += 1;
    }
    jb == cut as u64
}

pub(crate) fn cut_ok(n: &AstNode, limit: u32, cut: u32) -> (b: bool)
    ensures
        b == cut_safe(*n, limit as nat, cut as nat),
{
    match n {
        AstNode::String { value, .. } => cuts_cleanly_exec(value, limit, cut),
        _ => true,
    }
}

/// Whether hovering at a position cuts only values that can be cut (the
/// condition `get_hover_at_position` needs).
pub fn hover_is_safe(ast: &AstNode, source: &str, line: u32, column: u32) -> (b: bool)
    requires
        utf8_len(source@) <= u32::MAX,
    ensures
        b == hover_safe(*ast, source@, line, column),
{
    let offset = match calculate_offset(source, line, column) {
        Some(o) => o,
        None => return true,
    };
    let pos = Position::new(line, column, offset);
    let no_path: Vec<String> = Vec::new();
    proof {
        assert(names_view(no_path@) =~= Seq::<Seq<char>>::empty());
    }
    match key_hover_node(ast, pos, &no_path) {
        Some((entry, _)) => cut_ok(&entry.value, 30, 27),
        None => match find_node_at_position(ast, line, column, offset) {
            Some(found) => cut_ok(found.node, 50, 47),
            None => true,
        },
    }
}

} // verus!
