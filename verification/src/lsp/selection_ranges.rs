//! Selection ranges: the nested spans around a cursor, from the narrowest
//! (the key or value under it) out to the whole document.
use super::ast_utils::{descent, find_node_at_position, steps_view, NodePathEntry, StepView};
use super::hover::{calculate_offset, position_offset};
use crate::ast::{AstNode, Position, Span};
use crate::text::utf8_len;
use vstd::prelude::*;

verus! {

/// The spans of the nodes of a path, last step first.
pub open spec fn reversed_spans(steps: Seq<StepView>) -> Seq<Span>
    decreases steps.len(),
{
    if steps.len() == 0 {
        Seq::empty()
    } else {
        reversed_spans(steps.drop_first()) + seq![steps[0].0.spec_span()]
    }
}

/// `s` without adjacent repeats.
pub open spec fn dedup_spans(s: Seq<Span>) -> Seq<Span>
    decreases s.len(),
{
    if s.len() == 0 {
        s
    } else {
        let d = dedup_spans(s.drop_last());
        if d.len() > 0 && d.last() == s.last() {
            d
        } else {
            d.push(s.last())
        }
    }
}

/// The selection spans at a cursor (0-based line, UTF-8 column), narrowest
/// first: on a key, the key's span and the span from the key to the end of
/// its value; elsewhere, the span of the node under the cursor; then the
/// spans of the nodes on the path up to the root, the root's span added
/// when it is not last yet; adjacent repeats dropped. `None` when the
/// cursor is outside the text or the document.
pub open spec fn selection_at(ast: AstNode, text: Seq<char>, line: u32, col: u32) -> Option<Seq<Span>> {
    match position_offset(text, line as nat, col as nat) {
        None => None,
        Some(o) => {
            let pos = Position { line, column: col, offset: o as u32 };
            if !ast.spec_span().spec_contains(pos) {
                None
            } else {
                let d = descent(ast, pos);
                let base = match d.2 {
                    Some(e) => seq![e.key_span, Span { start: e.key_span.start, end: e.value.spec_span().end }],
                    None => seq![d.1.spec_span()],
                };
                let all = base + reversed_spans(seq![(ast, None::<Seq<char>>, None::<usize>)] + d.0);
                let full = if all.last() != ast.spec_span() { all.push(ast.spec_span()) } else { all };
                Some(dedup_spans(full))
            }
        },
    }
}

/// The selection spans at a cursor (see `selection_at`).
pub fn get_selection_range(ast: &AstNode, source: &str, line: u32, column: u32) -> (r: Option<Vec<Span>>)
    requires
        utf8_len(source@) <= u32::MAX,
    ensures
        match r {
            None => selection_at(*ast, source@, line, column) is None,
            Some(v) => selection_at(*ast, source@, line, column) == Some(v@),
        },
{
    let offset = match calculate_offset(source, line, column) {
        Some(o) => o,
        None => return None,
    };
    let found = match find_node_at_position(ast, line, column, offset) {
        Some(f) => f,
        None => return None,
    };
    let mut spans: Vec<Span> = Vec::new();
    match found.on_key {
        Some(entry) => {
            spans.push(entry.key_span);
            spans.push(Span::new(entry.key_span.start, entry.value.span().end));
        },
        None => {
            spans.push(found.node.span());
        },
    }
    let ghost base = spans@;
    let ghost steps = steps_view(found.path@);
    let mut i: usize = found.path.len();
    proof {
        assert(steps.skip(i as int) =~= Seq::<StepView>::empty());
        assert(spans@ =~= base + reversed_spans(steps.skip(i as int)));
    }
    while i > 0
        invariant
            0 <= i <= found.path.len(),
            steps == steps_view(found.path@),
            spans@ == base + reversed_spans(steps.skip(i as int)),
        decreases i,
    {
        proof {
            assert(steps.skip(i - 1).drop_first() =~= steps.skip(i as int));
            assert(steps.skip(i - 1)[0] == steps[i - 1]);
        }
        spans.push(found.path[i - 1].node.span());
        i -= 1;
    }
    proof {
        assert(steps.skip(0) =~= steps);
        let pos = Position { line, column, offset };
        let d = descent(*ast, pos);
        assert(steps == seq![(*ast, None::<Seq<char>>, None::<usize>)] + d.0);
        match d.2 {
            Some(e) => {
                assert(base == seq![e.key_span, Span { start: e.key_span.start, end: e.value.spec_span().end }]);
            },
            None => {
                assert(base == seq![d.1.spec_span()]);
            },
        }
    }
    let root_span = ast.span();
    let last = spans[spans.len() - 1];
    if !(last.start == root_span.start && last.end == root_span.end) {
        spans.push(root_span);
    }
    Some(dedup(&spans))
}

fn dedup(v: &Vec<Span>) -> (r: Vec<Span>)
    ensures
        r@ == dedup_spans(v@),
{
    let mut out: Vec<Span> = Vec::new();
    let mut i: usize = 0;
    while i < v.len()
        invariant
            0 <= i <= v.len(),
            out@ == dedup_spans(v@.take(i as int)),
        decreases v.len() - i,
    {
        proof {
            assert(v@.take(i + 1).drop_last() =~= v@.take(i as int));
            assert(v@.take(i + 1).last() == v@[i as int]);
        }
        let s = v[i];
        if out.len() > 0 && out[out.len() - 1].start == s.start && out[out.len() - 1].end == s.end {
        } else {
            out.push(s);
        }
        i += 1;
    }
    proof {
        assert(v@.take(v.len() as int) =~= v@);
    }
    out
}

/// The selection spans at each of several cursors.
pub fn get_selection_ranges(ast: &AstNode, source: &str, positions: &Vec<(u32, u32)>) -> (r: Vec<Option<Vec<Span>>>)
    requires
        utf8_len(source@) <= u32::MAX,
    ensures
        r@.len() == positions@.len(),
        forall|i: int| 0 <= i < positions@.len() ==> match #[trigger] r@[i] {
            None => selection_at(*ast, source@, positions@[i].0, positions@[i].1) is None,
            Some(v) => selection_at(*ast, source@, positions@[i].0, positions@[i].1) == Some(v@),
        },
{
    let mut out: Vec<Option<Vec<Span>>> = Vec::new();
    let mut i: usize = 0;
    while i < positions.len()
        invariant
            0 <= i <= positions@.len(),
            utf8_len(source@) <= u32::MAX,
            out@.len() == i,
            forall|k: int| 0 <= k < i ==> match #[trigger] out@[k] {
                None => selection_at(*ast, source@, positions@[k].0, positions@[k].1) is None,
                Some(v) => selection_at(*ast, source@, positions@[k].0, positions@[k].1) == Some(v@),
            },
        decreases positions@.len() - i,
    {
        let (line, column) = positions[i];
        out.push(get_selection_range(ast, source, line, column));
        i += 1;
    }
    out
}

} // verus!
