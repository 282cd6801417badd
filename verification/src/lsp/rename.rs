//! Renaming a key: where a rename may start, and the edits that rename
//! every occurrence of the key.
use super::ast_utils::{descent, find_node_at_position, node_keys, pairs_view};
use super::hover::{calculate_offset, position_offset};
use super::references::{sort_by_position, with_key, KeyedSpan};
use crate::ast::{AstNode, ObjectEntry, Position, Span};
use crate::text::utf8_len;
use vstd::prelude::*;

verus! {

/// Result of prepare-rename validation.
#[derive(Debug, Clone, PartialEq, Eq)]
pub struct PrepareRenameResult {
    /// Range of the key to rename
    pub range: Span,
    /// Current key name as placeholder/default
    pub placeholder: String,
}

/// A single text replacement for rename.
#[derive(Debug, Clone, PartialEq, Eq)]
pub struct RenameEdit {
    /// Range to replace
    pub span: Span,
    /// New key name
    pub new_text: String,
}

/// The entry whose key lies under the cursor (0-based line, UTF-8 column),
/// if any.
pub open spec fn entry_under_cursor(ast: AstNode, text: Seq<char>, line: u32, col: u32) -> Option<ObjectEntry> {
    match position_offset(text, line as nat, col as nat) {
        None => None,
        Some(o) => {
            let pos = Position { line, column: col, offset: o as u32 };
            if !ast.spec_span().spec_contains(pos) {
                None
            } else {
                descent(ast, pos).2
            }
        },
    }
}

/// Whether a rename may start at the cursor: `Some` exactly when it is on a
/// key, with that key's span and name.
pub fn prepare_rename(ast: &AstNode, text: &str, line: u32, col: u32) -> (r: Option<PrepareRenameResult>)
    requires
        utf8_len(text@) <= u32::MAX,
    ensures
        match entry_under_cursor(*ast, text@, line, col) {
            None => r is None,
            Some(e) => r matches Some(p) && p.range == e.key_span && p.placeholder@ == e.key@,
        },
{
    let offset = calculate_offset(text, line, col)?;
    let found = find_node_at_position(ast, line, col, offset)?;
    let entry = found.on_key?;
    Some(PrepareRenameResult { range: entry.key_span, placeholder: entry.key.clone() })
}

pub open spec fn edit_view(e: RenameEdit) -> (Span, Seq<char>) {
    (e.span, e.new_text@)
}

/// The edits renaming every occurrence of the key under the cursor to
/// `new_name`, sorted by position; empty when the cursor is not on a key.
pub fn rename_key(ast: &AstNode, text: &str, line: u32, col: u32, new_name: &str) -> (r: Vec<RenameEdit>)
    requires
        utf8_len(text@) <= u32::MAX,
    ensures
        r@.map_values(|e: RenameEdit| edit_view(e)) == match entry_under_cursor(*ast, text@, line, col) {
            None => Seq::empty(),
            Some(e) => sort_by_position(with_key(node_keys(*ast), e.key@)).map_values(
                |p: KeyedSpan| (p.1, new_name@),
            ),
        },
{
    let prepared = match prepare_rename(ast, text, line, col) {
        Some(p) => p,
        None => {
            proof {
                assert(Seq::<RenameEdit>::empty().map_values(|e: RenameEdit| edit_view(e)) =~= Seq::empty());
            }
            return Vec::new();
        },
    };
    let occurrences = super::references::sorted_occurrences(ast, &prepared.placeholder);
    let ghost occ = pairs_view(occurrences@);
    let mut edits: Vec<RenameEdit> = Vec::new();
    let mut i: usize = 0;
    while i < occurrences.len()
        invariant
            0 <= i <= occurrences.len(),
            occ == pairs_view(occurrences@),
            edits@.map_values(|e: RenameEdit| edit_view(e)) == occ.take(i as int).map_values(
                |p: KeyedSpan| (p.1, new_name@),
            ),
        decreases occurrences.len() - i,
    {
        let ghost before = edits@;
        edits.push(RenameEdit { span: occurrences[i].1, new_text: new_name.to_owned() });
        proof {
            assert(occ.take(i + 1) =~= occ.take(i as int).push(occ[i as int]));
            assert(edits@ =~= before.push(edits@.last()));
            assert(occ[i as int].1 == occurrences@[i as int].1);
            assert(edit_view(edits@.last()) == (occ[i as int].1, new_name@));
            assert(edits@.map_values(|e: RenameEdit| edit_view(e)) =~= before.map_values(|e: RenameEdit| edit_view(e)).push(
                (occ[i as int].1, new_name@),
            ));
            assert(edits@.map_values(|e: RenameEdit| edit_view(e)) =~= occ.take(i + 1).map_values(
                |p: KeyedSpan| (p.1, new_name@),
            ));
        }
        i += 1;
    }
    proof {
        assert(occ.take(occurrences.len() as int) =~= occ);
    }
    edits
}

} // verus!
