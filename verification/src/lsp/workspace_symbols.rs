//! Workspace symbols: every key of a document with its dotted container.
use crate::ast::{AstNode, ObjectEntry};
use crate::cli::symbols::child_path;
use crate::text::{decimal_digits, push_decimal};
use vstd::prelude::*;

verus! {

/// A key found for a workspace search.
#[derive(Debug, Clone)]
pub struct WorkspaceSymbol {
    /// The key
    pub name: String,
    /// The dotted path of the object holding it, at the top level none
    pub container_name: Option<String>,
    /// The line of the key
    pub start_line: u32,
    /// The last line of the object holding it
    pub end_line: u32,
}

pub type WsView = (Seq<char>, Option<Seq<char>>, u32, u32);

pub open spec fn ws_view(w: WorkspaceSymbol) -> WsView {
    (w.name@, match w.container_name {
        Some(c) => Some(c@),
        None => None,
    }, w.start_line, w.end_line)
}

pub open spec fn ws_views(s: Seq<WorkspaceSymbol>) -> Seq<WsView> {
    s.map_values(|w: WorkspaceSymbol| ws_view(w))
}

/// The path of the `i`-th item of the array at `path`.
pub open spec fn item_path(path: Seq<char>, i: nat) -> Seq<char> {
    path + seq!['['] + decimal_digits(i) + seq![']']
}

/// The workspace symbols of a node under the container path `prefix`: in
/// an object, for each entry its key, then the symbols of an object value
/// under the entry's path, or of the object items of an array value under
/// `path[i]`.
pub open spec fn ws_node(n: AstNode, prefix: Seq<char>) -> Seq<WsView>
    decreases n,
{
    match n {
        AstNode::Document { children, .. } => ws_nodes(children@, prefix),
        AstNode::Object { entries, span } => ws_entries(entries@, prefix, span.end.line),
        _ => Seq::empty(),
    }
}

pub open spec fn ws_nodes(s: Seq<AstNode>, prefix: Seq<char>) -> Seq<WsView>
    decreases s,
{
    if s.len() == 0 {
        Seq::empty()
    } else {
        ws_nodes(s.drop_last(), prefix) + ws_node(s.last(), prefix)
    }
}

pub open spec fn ws_entries(s: Seq<ObjectEntry>, prefix: Seq<char>, end_line: u32) -> Seq<WsView>
    decreases s,
{
    if s.len() == 0 {
        Seq::empty()
    } else {
        ws_entries(s.drop_last(), prefix, end_line) + ws_entry(s.last(), prefix, end_line)
    }
}

pub open spec fn ws_entry(e: ObjectEntry, prefix: Seq<char>, end_line: u32) -> Seq<WsView>
    decreases e,
{
    let path = child_path(prefix, e.key@);
    seq![(e.key@, if prefix.len() == 0 { None } else { Some(prefix) }, e.key_span.start.line, end_line)]
        + match e.value {
        AstNode::Object { .. } => ws_node(e.value, path),
        AstNode::Array { items, .. } => ws_items(items@, path),
        _ => Seq::empty(),
    }
}

pub open spec fn ws_items(s: Seq<AstNode>, path: Seq<char>) -> Seq<WsView>
    decreases s,
{
    if s.len() == 0 {
        Seq::empty()
    } else {
        ws_items(s.drop_last(), path) + if s.last() is Object {
            ws_node(s.last(), item_path(path, (s.len() - 1) as nat))
        } else {
            Seq::empty()
        }
    }
}

/// The workspace symbols of a document, in document order.
pub fn collect_workspace_symbols(ast: &AstNode) -> (r: Vec<WorkspaceSymbol>)
    ensures
        ws_views(r@) == ws_node(*ast, Seq::empty()),
{
    let mut out: Vec<WorkspaceSymbol> = Vec::new();
    let prefix = String::new();
    ws_of_node(ast, &prefix, &mut out);
    proof {
        assert(ws_views(out@) =~= Seq::<WsView>::empty() + ws_node(*ast, Seq::empty()));
    }
    out
}

fn ws_of_node(node: &AstNode, prefix: &String, out: &mut Vec<WorkspaceSymbol>)
    ensures
        ws_views(final(out)@) == ws_views(old(out)@) + ws_node(*node, prefix@),
    decreases node,
{
    match node {
        AstNode::Document { children, .. } => ws_of_nodes(children, prefix, out),
        AstNode::Object { entries, span } => ws_of_entries(entries, prefix, span.end.line, out),
        _ => {
            proof {
                assert(ws_views(out@) =~= ws_views(out@) + Seq::<WsView>::empty());
            }
        },
    }
}

fn ws_of_nodes(nodes: &Vec<AstNode>, prefix: &String, out: &mut Vec<WorkspaceSymbol>)
    ensures
        ws_views(final(out)@) == ws_views(old(out)@) + ws_nodes(nodes@, prefix@),
    decreases nodes,
{
    let ghost o0 = ws_views(out@);
    let mut i: usize = 0;
    while i < nodes.len()
        invariant
            0 <= i <= nodes.len(),
            ws_views(out@) == o0 + ws_nodes(nodes@.take(i as int), prefix@),
        decreases nodes.len() - i,
    {
        proof {
            assert(nodes@.take(i + 1).drop_last() =~= nodes@.take(i as int));
        }
        ws_of_node(&nodes[i], prefix, out);
        proof {
            assert(o0 + ws_nodes(nodes@.take(i + 1), prefix@) =~= o0 + ws_nodes(nodes@.take(i as int), prefix@)
                + ws_node(nodes@[i as int], prefix@));
        }
        i += 1;
    }
    proof {
        assert(nodes@.take(nodes.len() as int) =~= nodes@);
    }
}

fn ws_of_entries(entries: &Vec<ObjectEntry>, prefix: &String, end_line: u32, out: &mut Vec<WorkspaceSymbol>)
    ensures
        ws_views(final(out)@) == ws_views(old(out)@) + ws_entries(entries@, prefix@, end_line),
    decreases entries,
{
    let ghost o0 = ws_views(out@);
    let mut i: usize = 0;
    while i < entries.len()
        invariant
            0 <= i <= entries.len(),
            ws_views(out@) == o0 + ws_entries(entries@.take(i as int), prefix@, end_line),
        decreases entries.len() - i,
    {
        proof {
            assert(entries@.take(i + 1).drop_last() =~= entries@.take(i as int));
        }
        ws_of_entry(&entries[i], prefix, end_line, out);
        proof {
            assert(o0 + ws_entries(entries@.take(i + 1), prefix@, end_line) =~= o0 + ws_entries(
                entries@.take(i as int),
                prefix@,
                end_line,
            ) + ws_entry(entries@[i as int], prefix@, end_line));
        }
        i += 1;
    }
    proof {
        assert(entries@.take(entries.len() as int) =~= entries@);
    }
}

fn ws_of_entry(entry: &ObjectEntry, prefix: &String, end_line: u32, out: &mut Vec<WorkspaceSymbol>)
    ensures
        ws_views(final(out)@) == ws_views(old(out)@) + ws_entry(*entry, prefix@, end_line),
    decreases entry,
{
    let ghost o0 = ws_views(out@);
    let top = prefix.as_str().is_empty();
    let path = if top {
        entry.key.clone()
    } else {
        let mut p = prefix.clone();
        p.push('.');
        p.append(entry.key.as_str());
        p
    };
    proof {
        if !top {
            assert(path@ =~= prefix@ + seq!['.'] + entry.key@);
        }
        assert(path@ == child_path(prefix@, entry.key@));
    }
    out.push(WorkspaceSymbol {
        name: entry.key.clone(),
        container_name: if top { None } else { Some(prefix.clone()) },
        start_line: entry.key_span.start.line,
        end_line,
    });
    let ghost o1 = ws_views(out@);
    proof {
        assert(o1 =~= o0 + seq![(entry.key@, if prefix@.len() == 0 { None } else { Some(prefix@) }, entry.key_span.start.line, end_line)]);
    }
    match &entry.value {
        AstNode::Object { .. } => ws_of_node(&entry.value, &path, out),
        AstNode::Array { items, .. } => ws_of_items(items, &path, out),
        _ => {
            proof {
                assert(ws_views(out@) =~= o1 + Seq::<WsView>::empty());
            }
        },
    }
    proof {
        assert(ws_views(out@) =~= o0 + ws_entry(*entry, prefix@, end_line));
    }
}

fn ws_of_items(items: &Vec<AstNode>, path: &String, out: &mut Vec<WorkspaceSymbol>)
    ensures
        ws_views(final(out)@) == ws_views(old(out)@) + ws_items(items@, path@),
    decreases items,
{
    let ghost o0 = ws_views(out@);
    let mut i: usize = 0;
    while i < items.len()
        invariant
            0 <= i <= items.len(),
            ws_views(out@) == o0 + ws_items(items@.take(i as int), path@),
        decreases items.len() - i,
    {
        proof {
            assert(items@.take(i + 1).drop_last() =~= items@.take(i as int));
            assert(items@.take(i + 1).last() == items@[i as int]);
        }
        let ghost before = ws_views(out@);
        if let AstNode::Object { .. } = &items[i] {
            let mut item_path_s = path.clone();
            item_path_s.push('[');
            push_decimal(&mut item_path_s, i as u64);
            item_path_s.push(']');
            proof {
                assert(item_path_s@ =~= item_path(path@, i as nat));
            }
            ws_of_node(&items[i], &item_path_s, out);
        } else {
            proof {
                assert(ws_views(out@) =~= before + Seq::<WsView>::empty());
            }
        }
        i += 1;
    }
    proof {
        assert(items@.take(items.len() as int) =~= items@);
    }
}

} // verus!
