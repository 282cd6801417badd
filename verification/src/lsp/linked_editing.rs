//! Linked editing: every occurrence of the key under the cursor, edited
//! together.
use super::ast_utils::{collect_all_keys, descent, find_node_at_position, node_keys, pairs_view};
use super::hover::{calculate_offset, position_offset};
use super::references::{with_key, KeyedSpan};
use crate::ast::{AstNode, Position, Span};
use crate::text::{chars_of, utf8_len};
use vstd::prelude::*;

verus! {

/// The occurrences to edit together, and the pattern of a word there.
#[derive(Debug)]
pub struct LinkedRanges {
    /// The spans of the occurrences, in document order
    pub ranges: Vec<Span>,
    /// A regular expression matching the key as a whole word
    pub word_pattern: Option<String>,
}

/// Whether a character is special in a regular expression.
pub open spec fn regex_special(c: char) -> bool {
    c == '\\' || c == '^' || c == '$' || c == '.' || c == '|' || c == '?' || c == '*' || c == '+' || c == '('
        || c == ')' || c == '[' || c == ']' || c == '{' || c == '}'
}

/// `s` with a backslash before each special character.
pub open spec fn regex_escaped(s: Seq<char>) -> Seq<char>
    decreases s.len(),
{
    if s.len() == 0 {
        s
    } else {
        regex_escaped(s.drop_last()) + if regex_special(s.last()) { seq!['\\', s.last()] } else { seq![s.last()] }
    }
}

/// The word pattern of a key: the escaped key between word boundaries.
pub open spec fn word_pattern(k: Seq<char>) -> Seq<char> {
    "\\b"@ + regex_escaped(k) + "\\b"@
}

/// The linked ranges at a cursor (0-based line, UTF-8 column): `None`
/// unless the cursor is on a key that occurs more than once; otherwise
/// the spans of every occurrence, in document order.
pub open spec fn linked_at(ast: AstNode, text: Seq<char>, line: u32, col: u32) -> Option<(Seq<Span>, Seq<char>)> {
    match position_offset(text, line as nat, col as nat) {
        None => None,
        Some(o) => {
            let pos = Position { line, column: col, offset: o as u32 };
            if !ast.spec_span().spec_contains(pos) {
                None
            } else {
                match descent(ast, pos).2 {
                    None => None,
                    Some(e) => {
                        let occ = with_key(node_keys(ast), e.key@);
                        if occ.len() <= 1 {
                            None
                        } else {
                            Some((occ.map_values(|p: KeyedSpan| p.1), word_pattern(e.key@)))
                        }
                    },
                }
            }
        },
    }
}

fn is_regex_special(c: char) -> (b: bool)
    ensures
        b == regex_special(c),
{
    c == '\\' || c == '^' || c == '$' || c == '.' || c == '|' || c == '?' || c == '*' || c == '+' || c == '(' || c
        == ')' || c == '[' || c == ']' || c == '{' || c == '}'
}

/// The key with a backslash before each character special in a regular
/// expression.
pub fn regex_escape(s: &str) -> (r: String)
    ensures
        r@ == regex_escaped(s@),
{
    let v = chars_of(s);
    let mut out = String::new();
    let mut i: usize = 0;
    while i < v.len()
        invariant
            0 <= i <= v.len(),
            v@ == s@,
            out@ == regex_escaped(v@.take(i as int)),
        decreases v.len() - i,
    {
        proof {
            assert(v@.take(i + 1).drop_last() =~= v@.take(i as int));
            assert(v@.take(i + 1).last() == v@[i as int]);
        }
        if is_regex_special(v[i]) {
            out.push('\\');
        }
        out.push(v[i]);
        proof {
            if regex_special(v@[i as int]) {
                assert(out@ =~= regex_escaped(v@.take(i as int)) + seq!['\\', v@[i as int]]);
            } else {
                assert(out@ =~= regex_escaped(v@.take(i as int)) + seq![v@[i as int]]);
            }
        }
        i += 1;
    }
    proof {
        assert(v@.take(v.len() as int) =~= v@);
    }
    out
}

/// The linked ranges at a cursor (see `linked_at`).
pub fn collect_linked_editing_ranges(ast: &AstNode, source: &str, line: u32, column: u32) -> (r: Option<LinkedRanges>)
    requires
        utf8_len(source@) <= u32::MAX,
    ensures
        match linked_at(*ast, source@, line, column) {
            None => r is None,
            Some((spans, pattern)) => r matches Some(l) && l.ranges@ == spans && (l.word_pattern matches Some(w)
                && w@ == pattern),
        },
{
    let offset = match calculate_offset(source, line, column) {
        Some(o) => o,
        None => return None,
    };
    let found = match find_node_at_position(ast, line, column, offset) {
        Some(f) => f,
        None => return None,
    };
    let entry = match found.on_key {
        Some(e) => e,
        None => return None,
    };
    let all_keys = collect_all_keys(ast);
    let mut spans: Vec<Span> = Vec::new();
    let ghost target = entry.key@;
    let mut i: usize = 0;
    while i < all_keys.len()
        invariant
            0 <= i <= all_keys.len(),
            target == entry.key@,
            pairs_view(all_keys@) == node_keys(*ast),
            spans@ == with_key(pairs_view(all_keys@.take(i as int)), target).map_values(|p: KeyedSpan| p.1),
        decreases all_keys.len() - i,
    {
        proof {
            assert(pairs_view(all_keys@.take(i + 1)).drop_last() =~= pairs_view(all_keys@.take(i as int)));
            assert(pairs_view(all_keys@.take(i + 1)).last() == (all_keys@[i as int].0@, all_keys@[i as int].1));
        }
        let ghost before = spans@;
        if all_keys[i].0 == entry.key {
            spans.push(all_keys[i].1);
            proof {
                assert(with_key(pairs_view(all_keys@.take(i + 1)), target).map_values(|p: KeyedSpan| p.1) =~= before.push(
                    all_keys@[i as int].1,
                ));
            }
        } else {
            proof {
                assert(with_key(pairs_view(all_keys@.take(i + 1)), target).map_values(|p: KeyedSpan| p.1) =~= before);
            }
        }
        i += 1;
    }
    proof {
        assert(all_keys@.take(all_keys.len() as int) =~= all_keys@);
        assert(with_key(node_keys(*ast), target).map_values(|p: KeyedSpan| p.1).len() == with_key(
            node_keys(*ast),
            target,
        ).len());
    }
    if spans.len() <= 1 {
        return None;
    }
    let mut pattern = String::from_str("\\b");
    pattern.append(regex_escape(entry.key.as_str()).as_str());
    pattern.append("\\b");
    Some(LinkedRanges { ranges: spans, word_pattern: Some(pattern) })
}

} // verus!
