//! Go to definition: every place where the key under the cursor is defined
//! in its object, so that duplicate keys can be visited in turn.
use super::ast_utils::key_spans;
use super::hover::{calculate_offset, position_offset};
use crate::ast::{AstNode, ObjectEntry, Position, Span};
use crate::text::utf8_len;
use vstd::prelude::*;

verus! {

/// A location result for go-to-definition.
#[derive(Debug, Clone, Copy)]
pub struct DefinitionLocation {
    /// Line number (0-based)
    pub line: u32,
    /// Start column (0-based, UTF-8)
    pub start_col: u32,
    /// End column (0-based, UTF-8)
    pub end_col: u32,
}

/// The location a span stands for: its start line and its columns.
pub open spec fn location_of(span: Span) -> DefinitionLocation {
    DefinitionLocation { line: span.start.line, start_col: span.start.column, end_col: span.end.column }
}

impl DefinitionLocation {
    /// Create a new definition location from a span.
    pub fn from_span(span: &Span) -> (l: Self)
        ensures
            l == location_of(*span),
    {
        DefinitionLocation { line: span.start.line, start_col: span.start.column, end_col: span.end.column }
    }
}

/// The key of the first entry from `i` on whose key span contains `pos`.
pub open spec fn key_at(es: Seq<ObjectEntry>, pos: Position, i: int) -> Option<Seq<char>>
    decreases es.len() - i,
{
    if i < 0 || i >= es.len() {
        None
    } else if es[i].key_span.spec_contains(pos) {
        Some(es[i].key@)
    } else {
        key_at(es, pos, i + 1)
    }
}

/// The definitions of the key at `pos` below `n`: in the first object
/// (searched depth first, in document order) that has a key whose span
/// contains `pos`, the key spans of every entry with that key.
pub open spec fn definitions_at(n: AstNode, pos: Position) -> Seq<Span>
    decreases n, 0int,
{
    match n {
        AstNode::Document { children, .. } => first_definitions(children@, pos, 0),
        AstNode::Object { entries, .. } => match key_at(entries@, pos, 0) {
            Some(k) => key_spans(entries@, k),
            None => first_entry_definitions(entries@, pos, 0),
        },
        AstNode::Array { items, .. } => first_definitions(items@, pos, 0),
        _ => Seq::empty(),
    }
}

/// The first non-empty `definitions_at` among `s[i..]`.
pub open spec fn first_definitions(s: Seq<AstNode>, pos: Position, i: int) -> Seq<Span>
    decreases s, s.len() - i,
{
    if i < 0 || i >= s.len() {
        Seq::empty()
    } else if definitions_at(s[i], pos).len() > 0 {
        definitions_at(s[i], pos)
    } else {
        first_definitions(s, pos, i + 1)
    }
}

/// The first non-empty `definitions_at` among the values of `s[i..]`.
pub open spec fn first_entry_definitions(s: Seq<ObjectEntry>, pos: Position, i: int) -> Seq<Span>
    decreases s, s.len() - i,
{
    if i < 0 || i >= s.len() {
        Seq::empty()
    } else if definitions_at(s[i].value, pos).len() > 0 {
        definitions_at(s[i].value, pos)
    } else {
        first_entry_definitions(s, pos, i + 1)
    }
}

pub open spec fn locations_of(s: Seq<Span>) -> Seq<DefinitionLocation> {
    s.map_values(|sp: Span| location_of(sp))
}

/// Every definition of the key at a position (0-based line, UTF-8 column):
/// empty when the position is outside the text or not on a key.
pub fn get_definition_at_position(ast: &AstNode, source: &str, line: u32, column: u32) -> (r: Vec<DefinitionLocation>)
    requires
        utf8_len(source@) <= u32::MAX,
    ensures
        r@ == match position_offset(source@, line as nat, column as nat) {
            Some(o) => locations_of(definitions_at(*ast, Position { line, column, offset: o as u32 })),
            None => Seq::empty(),
        },
{
    let offset = match calculate_offset(source, line, column) {
        Some(o) => o,
        None => return Vec::new(),
    };
    let pos = Position::new(line, column, offset);
    find_key_and_definitions(ast, pos)
}

fn find_key_and_definitions(ast: &AstNode, pos: Position) -> (r: Vec<DefinitionLocation>)
    ensures
        r@ == locations_of(definitions_at(*ast, pos)),
    decreases ast,
{
    match ast {
        AstNode::Document { children, .. } => definitions_in_nodes(children, pos),
        AstNode::Object { entries, .. } => {
            match find_key_at_position(entries, pos) {
                Some(key_name) => find_all_key_definitions(entries, &key_name),
                None => definitions_in_entries(entries, pos),
            }
        },
        AstNode::Array { items, .. } => definitions_in_nodes(items, pos),
        _ => {
            proof {
                assert(locations_of(Seq::<Span>::empty()) =~= Seq::<DefinitionLocation>::empty());
            }
            Vec::new()
        },
    }
}

fn definitions_in_nodes(nodes: &Vec<AstNode>, pos: Position) -> (r: Vec<DefinitionLocation>)
    ensures
        r@ == locations_of(first_definitions(nodes@, pos, 0)),
    decreases nodes,
{
    let mut i: usize = 0;
    while i < nodes.len()
        invariant
            0 <= i <= nodes.len(),
            first_definitions(nodes@, pos, i as int) == first_definitions(nodes@, pos, 0),
        decreases nodes.len() - i,
    {
        let results = find_key_and_definitions(&nodes[i], pos);
        if results.len() > 0 {
            return results;
        }
        i += 1;
    }
    proof {
        assert(locations_of(Seq::<Span>::empty()) =~= Seq::<DefinitionLocation>::empty());
    }
    Vec::new()
}

fn definitions_in_entries(entries: &Vec<ObjectEntry>, pos: Position) -> (r: Vec<DefinitionLocation>)
    ensures
        r@ == locations_of(first_entry_definitions(entries@, pos, 0)),
    decreases entries,
{
    let mut i: usize = 0;
    while i < entries.len()
        invariant
            0 <= i <= entries.len(),
            first_entry_definitions(entries@, pos, i as int) == first_entry_definitions(entries@, pos, 0),
        decreases entries.len() - i,
    {
        let results = find_key_and_definitions(&entries[i].value, pos);
        if results.len() > 0 {
            return results;
        }
        i += 1;
    }
    proof {
        assert(locations_of(Seq::<Span>::empty()) =~= Seq::<DefinitionLocation>::empty());
    }
    Vec::new()
}

/// The key (if any) whose span contains the position.
fn find_key_at_position(entries: &Vec<ObjectEntry>, pos: Position) -> (r: Option<String>)
    ensures
        match r {
            Some(k) => key_at(entries@, pos, 0) == Some(k@),
            None => key_at(entries@, pos, 0) is None,
        },
{
    let mut i: usize = 0;
    while i < entries.len()
        invariant
            0 <= i <= entries.len(),
            key_at(entries@, pos, i as int) == key_at(entries@, pos, 0),
        decreases entries.len() - i,
    {
        if entries[i].key_span.contains(pos) {
            return Some(entries[i].key.clone());
        }
        i += 1;
    }
    None
}

/// The locations of every definition of `key_name` among `entries`.
fn find_all_key_definitions(entries: &Vec<ObjectEntry>, key_name: &String) -> (r: Vec<DefinitionLocation>)
    ensures
        r@ == locations_of(key_spans(entries@, key_name@)),
{
    let mut out: Vec<DefinitionLocation> = Vec::new();
    let mut i: usize = 0;
    while i < entries.len()
        invariant
            0 <= i <= entries.len(),
            out@ == locations_of(key_spans(entries@.take(i as int), key_name@)),
        decreases entries.len() - i,
    {
        proof {
            assert(entries@.take(i + 1).drop_last() =~= entries@.take(i as int));
        }
        let ghost before = out@;
        if entries[i].key == *key_name {
            out.push(DefinitionLocation::from_span(&entries[i].key_span));
            proof {
                assert(out@ =~= locations_of(key_spans(entries@.take(i as int), key_name@) + seq![entries@[i as int].key_span]));
            }
        } else {
            proof {
                assert(key_spans(entries@.take(i as int), key_name@) + Seq::<Span>::empty() =~= key_spans(
                    entries@.take(i as int),
                    key_name@,
                ));
            }
        }
        i += 1;
    }
    proof {
        assert(entries@.take(entries.len() as int) =~= entries@);
    }
    out
}

} // verus!
