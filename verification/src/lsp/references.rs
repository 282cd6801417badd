//! Find references: every occurrence in the document of the key under the
//! cursor, in position order.
use super::ast_utils::{collect_all_keys, descent, entry_of, find_node_at_position, node_keys, pairs_view};
use super::hover::{calculate_offset, position_offset};
use crate::ast::{AstNode, Position, Span};
use crate::text::utf8_len;
use vstd::prelude::*;

verus! {

/// A reference to a key in the document.
#[derive(Debug, Clone, PartialEq, Eq)]
pub struct KeyReference {
    /// The key name being referenced
    pub key_name: String,
    /// Location span (line, start_col, end_col)
    pub span: Span,
    /// True if this is considered a "definition" (first occurrence at nesting level)
    pub is_definition: bool,
}

pub type KeyedSpan = (Seq<char>, Span);

/// Whether `a` starts no later than `b` (by line, then column).
pub open spec fn position_le(a: Span, b: Span) -> bool {
    a.start.line < b.start.line || (a.start.line == b.start.line && a.start.column <= b.start.column)
}

/// Where a stable insertion puts an element starting at `x`: before the
/// first element from `j` on that starts after it.
pub open spec fn insertion_point(t: Seq<KeyedSpan>, x: Span, j: int) -> int
    decreases t.len() - j,
{
    if j < 0 || j >= t.len() {
        t.len() as int
    } else if !position_le(t[j].1, x) {
        j
    } else {
        insertion_point(t, x, j + 1)
    }
}

/// `s` stably sorted by start position (line, then column): elements that
/// start at the same place keep their order.
pub open spec fn sort_by_position(s: Seq<KeyedSpan>) -> Seq<KeyedSpan>
    decreases s.len(),
{
    if s.len() == 0 {
        s
    } else {
        let t = sort_by_position(s.drop_last());
        t.insert(insertion_point(t, s.last().1, 0), s.last())
    }
}

/// Whether a sequence is ordered by start position.
pub open spec fn position_sorted(s: Seq<KeyedSpan>) -> bool {
    forall|i: int, j: int| 0 <= i < j < s.len() ==> position_le(#[trigger] s[i].1, #[trigger] s[j].1)
}

proof fn lemma_insertion_point(t: Seq<KeyedSpan>, x: Span, j: int)
    requires
        0 <= j <= t.len(),
    ensures
        j <= insertion_point(t, x, j) <= t.len(),
        forall|k: int| j <= k < insertion_point(t, x, j) ==> position_le(#[trigger] t[k].1, x),
        insertion_point(t, x, j) < t.len() ==> !position_le(t[insertion_point(t, x, j)].1, x),
    decreases t.len() - j,
{
    if j < t.len() && position_le(t[j].1, x) {
        lemma_insertion_point(t, x, j + 1);
    }
}

/// Sorting by position gives a sequence ordered by position, with the
/// same elements.
pub proof fn lemma_sort_by_position(s: Seq<KeyedSpan>)
    ensures
        position_sorted(sort_by_position(s)),
        sort_by_position(s).to_multiset() == s.to_multiset(),
    decreases s.len(),
{
    broadcast use vstd::seq_lib::group_seq_properties;
    broadcast use vstd::multiset::group_multiset_axioms;
    if s.len() > 0 {
        let t = sort_by_position(s.drop_last());
        let x = s.last();
        lemma_sort_by_position(s.drop_last());
        lemma_insertion_point(t, x.1, 0);
        let p = insertion_point(t, x.1, 0);
        let r = t.insert(p, x);
        assert forall|i: int, j: int| 0 <= i < j < r.len() implies position_le(#[trigger] r[i].1, #[trigger] r[j].1) by {
            if i < p && j < p {
                assert(r[i] == t[i] && r[j] == t[j]);
            } else if i < p && j == p {
                assert(r[i] == t[i]);
            } else if i < p {
                assert(r[i] == t[i] && r[j] == t[j - 1]);
            } else if i == p {
                assert(r[j] == t[j - 1]);
                assert(!position_le(t[p].1, x.1));
                if j - 1 > p {
                    assert(position_le(t[p].1, t[j - 1].1));
                }
            } else {
                assert(r[i] == t[i - 1] && r[j] == t[j - 1]);
            }
        }
        assert(s =~= s.drop_last().push(x));
        assert(r.to_multiset() =~= t.to_multiset().insert(x));
    }
}

/// Stable insertion sort of keyed spans by start position.
fn sort_spans_by_position(v: &Vec<(String, Span)>) -> (r: Vec<(String, Span)>)
    ensures
        pairs_view(r@) == sort_by_position(pairs_view(v@)),
{
    let mut out: Vec<(String, Span)> = Vec::new();
    let mut i: usize = 0;
    while i < v.len()
        invariant
            0 <= i <= v.len(),
            pairs_view(out@) == sort_by_position(pairs_view(v@.take(i as int))),
        decreases v.len() - i,
    {
        let ghost t = pairs_view(out@);
        let x = v[i].1;
        let mut j: usize = 0;
        while j < out.len() && (out[j].1.start.line < x.start.line || (out[j].1.start.line == x.start.line
            && out[j].1.start.column <= x.start.column))
            invariant
                0 <= j <= out.len(),
                t == pairs_view(out@),
                insertion_point(t, x, j as int) == insertion_point(t, x, 0),
            decreases out.len() - j,
        {
            j += 1;
        }
        proof {
            assert(insertion_point(t, x, j as int) == j);
        }
        out.insert(j, (v[i].0.clone(), x));
        proof {
            let e: KeyedSpan = (v@[i as int].0@, x);
            assert(pairs_view(v@.take(i + 1)).drop_last() =~= pairs_view(v@.take(i as int)));
            assert(pairs_view(v@.take(i + 1)).last() == e);
            assert(pairs_view(out@) =~= t.insert(j as int, e));
        }
        i += 1;
    }
    proof {
        assert(v@.take(v.len() as int) =~= v@);
    }
    out
}

/// The keyed spans of `s` whose key is `k`, in order.
pub open spec fn with_key(s: Seq<KeyedSpan>, k: Seq<char>) -> Seq<KeyedSpan>
    decreases s.len(),
{
    if s.len() == 0 {
        s
    } else {
        with_key(s.drop_last(), k) + if s.last().0 == k { seq![s.last()] } else { Seq::empty() }
    }
}

/// The keyed spans of `s` that do not contain `pos`, in order.
pub open spec fn away_from(s: Seq<KeyedSpan>, pos: Position) -> Seq<KeyedSpan>
    decreases s.len(),
{
    if s.len() == 0 {
        s
    } else {
        away_from(s.drop_last(), pos) + if s.last().1.spec_contains(pos) { Seq::empty() } else { seq![s.last()] }
    }
}

/// The keys at a cursor position and the occurrences of the key under it:
/// `None` when the position lies outside the text, outside the document or
/// not on a key; otherwise the cursor position and every occurrence of
/// that key in the document, sorted by position.
pub open spec fn key_occurrences(ast: AstNode, text: Seq<char>, line: u32, col: u32) -> Option<(Position, Seq<KeyedSpan>)> {
    match position_offset(text, line as nat, col as nat) {
        None => None,
        Some(o) => {
            let pos = Position { line, column: col, offset: o as u32 };
            if !ast.spec_span().spec_contains(pos) {
                None
            } else {
                match descent(ast, pos).2 {
                    None => None,
                    Some(e) => Some((pos, sort_by_position(with_key(node_keys(ast), e.key@)))),
                }
            }
        },
    }
}

pub open spec fn reference_view(r: KeyReference) -> (Seq<char>, Span, bool) {
    (r.key_name@, r.span, r.is_definition)
}

/// Keyed spans as references, each marked as a definition.
pub open spec fn as_references(s: Seq<KeyedSpan>) -> Seq<(Seq<char>, Span, bool)> {
    s.map_values(|p: KeyedSpan| (p.0, p.1, true))
}

/// The key name under the cursor, if the position is on a key.
fn key_name_at(ast: &AstNode, line: u32, col: u32, offset: u32) -> (r: Option<String>)
    ensures
        ({
            let pos = Position { line, column: col, offset };
            match r {
                None => !ast.spec_span().spec_contains(pos) || descent(*ast, pos).2 is None,
                Some(k) => ast.spec_span().spec_contains(pos) && (descent(*ast, pos).2 matches Some(e) && e.key@ == k@),
            }
        }),
{
    match find_node_at_position(ast, line, col, offset) {
        Some(found) => match found.on_key {
            Some(entry) => Some(entry.key.clone()),
            None => None,
        },
        None => None,
    }
}

/// The keyed spans of the document whose key is `key`, sorted by position.
pub(crate) fn sorted_occurrences(ast: &AstNode, key: &String) -> (r: Vec<(String, Span)>)
    ensures
        pairs_view(r@) == sort_by_position(with_key(node_keys(*ast), key@)),
{
    let all_keys = collect_all_keys(ast);
    let mut matching: Vec<(String, Span)> = Vec::new();
    let mut i: usize = 0;
    while i < all_keys.len()
        invariant
            0 <= i <= all_keys.len(),
            pairs_view(all_keys@) == node_keys(*ast),
            pairs_view(matching@) == with_key(pairs_view(all_keys@.take(i as int)), key@),
        decreases all_keys.len() - i,
    {
        let ghost before = pairs_view(matching@);
        if all_keys[i].0 == *key {
            matching.push((all_keys[i].0.clone(), all_keys[i].1));
            proof {
                assert(pairs_view(matching@) =~= before + seq![(all_keys@[i as int].0@, all_keys@[i as int].1)]);
            }
        } else {
            proof {
                assert(pairs_view(matching@) =~= before + Seq::<KeyedSpan>::empty());
            }
        }
        proof {
            assert(pairs_view(all_keys@.take(i + 1)).drop_last() =~= pairs_view(all_keys@.take(i as int)));
        }
        i += 1;
    }
    proof {
        assert(all_keys@.take(all_keys.len() as int) =~= all_keys@);
    }
    sort_spans_by_position(&matching)
}

/// Every occurrence of the key under the cursor (0-based line, UTF-8
/// column), sorted by position; each is marked as a definition. Empty when
/// the cursor is not on a key. Without `include_declaration`, the
/// occurrence under the cursor is left out.
pub fn find_references_at_position(ast: &AstNode, text: &str, line: u32, col: u32, include_declaration: bool) -> (r: Vec<KeyReference>)
    requires
        utf8_len(text@) <= u32::MAX,
    ensures
        r@.map_values(|x: KeyReference| reference_view(x)) == match key_occurrences(*ast, text@, line, col) {
            None => Seq::empty(),
            Some((pos, occ)) => as_references(if include_declaration { occ } else { away_from(occ, pos) }),
        },
{
    let offset = match calculate_offset(text, line, col) {
        Some(o) => o,
        None => {
            proof {
                assert(Seq::<KeyReference>::empty().map_values(|x: KeyReference| reference_view(x)) =~= Seq::empty());
            }
            return Vec::new();
        },
    };
    let key_name = match key_name_at(ast, line, col, offset) {
        Some(k) => k,
        None => {
            proof {
                assert(Seq::<KeyReference>::empty().map_values(|x: KeyReference| reference_view(x)) =~= Seq::empty());
            }
            return Vec::new();
        },
    };
    let cursor_pos = Position::new(line, col, offset);
    let occurrences = sorted_occurrences(ast, &key_name);
    let ghost occ = pairs_view(occurrences@);
    let mut references: Vec<KeyReference> = Vec::new();
    let mut i: usize = 0;
    while i < occurrences.len()
        invariant
            0 <= i <= occurrences.len(),
            occ == pairs_view(occurrences@),
            references@.map_values(|x: KeyReference| reference_view(x)) == as_references(
                if include_declaration { occ.take(i as int) } else { away_from(occ.take(i as int), cursor_pos) },
            ),
        decreases occurrences.len() - i,
    {
        let ghost before = references@;
        let span = occurrences[i].1;
        let keep = include_declaration || !span.contains(cursor_pos);
        if keep {
            references.push(KeyReference { key_name: occurrences[i].0.clone(), span, is_definition: true });
        }
        proof {
            let e = occ[i as int];
            assert(occ.take(i + 1).drop_last() =~= occ.take(i as int));
            assert(occ.take(i + 1) =~= occ.take(i as int).push(e));
            let prev = if include_declaration { occ.take(i as int) } else { away_from(occ.take(i as int), cursor_pos) };
            let next = if include_declaration { occ.take(i + 1) } else { away_from(occ.take(i + 1), cursor_pos) };
            assert(occ.take(i + 1).last() == e);
            if keep {
                assert(next =~= prev.push(e));
                assert(references@ =~= before.push(references@.last()));
                assert(reference_view(references@.last()) == (e.0, e.1, true));
                assert(references@.map_values(|x: KeyReference| reference_view(x)) =~= before.map_values(
                    |x: KeyReference| reference_view(x),
                ).push((e.0, e.1, true)));
                assert(as_references(next) =~= as_references(prev).push((e.0, e.1, true)));
            } else {
                assert(next =~= prev);
                assert(references@ == before);
            }
            assert(references@.map_values(|x: KeyReference| reference_view(x)) =~= as_references(
                if include_declaration { occ.take(i + 1) } else { away_from(occ.take(i + 1), cursor_pos) },
            ));
        }
        i += 1;
    }
    proof {
        assert(occ.take(occurrences.len() as int) =~= occ);
    }
    references
}

} // verus!
