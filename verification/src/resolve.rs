//! Reference resolution (`${path}` and `${env:VAR}`): a dotted path is looked
//! up in the document, following references it meets; an `env:` reference
//! reads the environment the caller supplies. A reference met again on its
//! own chain is a cycle.
use crate::ast::node::{clone_node, entries_view, entry_view, node_view, nodes_view, EntryView, NodeView};
use crate::ast::{AstNode, ObjectEntry, Span};
use crate::parser::grammar::env_prefixed;
use crate::toon::fold::{split_dots, split_key};
use crate::toon::scalars::strings_view;
use vstd::prelude::*;

verus! {

/// Error encountered while resolving a reference.
#[derive(Debug)]
pub enum ResolveError {
    /// A path segment could not be found in the document (the path up to it).
    NotFound(String),
    /// Resolution would recurse forever (the chain of references so far).
    Cycle(Vec<String>),
    /// An `env:` reference named a variable the environment does not set.
    EnvNotSet(String),
}

/// The resolved target of a reference.
#[derive(Debug)]
pub enum ResolvedRef {
    /// A node elsewhere in the document, with the span of the key that owns it.
    Node { node: AstNode, key_span: Option<Span> },
    /// A value taken from the environment.
    Env(String),
}

/// The model of a resolution.
pub enum ResolvedView {
    Node(NodeView, Option<Span>),
    Env(Seq<char>),
}

/// The model of a resolution error.
pub enum ResolveErrorView {
    NotFound(Seq<char>),
    Cycle(Seq<Seq<char>>),
    EnvNotSet(Seq<char>),
}

pub open spec fn resolved_view(r: Result<ResolvedRef, ResolveError>) -> Result<ResolvedView, ResolveErrorView> {
    match r {
        Ok(ResolvedRef::Node { node, key_span }) => Ok(ResolvedView::Node(node_view(node), key_span)),
        Ok(ResolvedRef::Env(v)) => Ok(ResolvedView::Env(v@)),
        Err(ResolveError::NotFound(p)) => Err(ResolveErrorView::NotFound(p@)),
        Err(ResolveError::Cycle(c)) => Err(ResolveErrorView::Cycle(strings_view(c@))),
        Err(ResolveError::EnvNotSet(n)) => Err(ResolveErrorView::EnvNotSet(n@)),
    }
}

/// The model of an environment: variable names with their values.
pub open spec fn env_view(env: Seq<(String, String)>) -> Seq<(Seq<char>, Seq<char>)> {
    env.map_values(|p: (String, String)| (p.0@, p.1@))
}

/// The value of the first variable named `name`.
pub open spec fn env_lookup(env: Seq<(Seq<char>, Seq<char>)>, name: Seq<char>, i: int) -> Option<Seq<char>>
    decreases env.len() - i,
{
    if !(0 <= i < env.len()) {
        None
    } else if env[i].0 == name {
        Some(env[i].1)
    } else {
        env_lookup(env, name, i + 1)
    }
}

/// The reference paths in a node, in document order.
pub open spec fn node_refs(n: NodeView) -> Seq<Seq<char>>
    decreases n,
{
    match n {
        NodeView::Document { children, .. } => nodes_refs(children),
        NodeView::Object { entries, .. } => entries_refs(entries),
        NodeView::Array { items, .. } => nodes_refs(items),
        NodeView::Reference { path, .. } => seq![path],
        _ => Seq::empty(),
    }
}

pub open spec fn nodes_refs(s: Seq<NodeView>) -> Seq<Seq<char>>
    decreases s,
{
    if s.len() == 0 {
        Seq::empty()
    } else {
        nodes_refs(s.drop_last()) + node_refs(s.last())
    }
}

pub open spec fn entries_refs(s: Seq<EntryView>) -> Seq<Seq<char>>
    decreases s,
{
    if s.len() == 0 {
        Seq::empty()
    } else {
        entries_refs(s.drop_last()) + node_refs(s.last().value)
    }
}

/// The entries a path is looked up in: a document's root object, or an
/// object itself.
pub open spec fn lookup_entries(n: NodeView) -> Option<Seq<EntryView>> {
    match n {
        NodeView::Document { children, .. } => first_object(children, 0),
        NodeView::Object { entries, .. } => Some(entries),
        _ => None,
    }
}

/// The entries of the first object among `s[i..]`.
pub open spec fn first_object(s: Seq<NodeView>, i: int) -> Option<Seq<EntryView>>
    decreases s.len() - i,
{
    if !(0 <= i < s.len()) {
        None
    } else {
        match s[i] {
            NodeView::Object { entries, .. } => Some(entries),
            _ => first_object(s, i + 1),
        }
    }
}

/// The index of the first entry with key `k` from `i` on.
pub open spec fn entry_index(es: Seq<EntryView>, k: Seq<char>, i: int) -> Option<int>
    decreases es.len() - i,
{
    if !(0 <= i < es.len()) {
        None
    } else if es[i].key == k {
        Some(i)
    } else {
        entry_index(es, k, i + 1)
    }
}

/// Segments joined with `.`.
pub open spec fn join_dots(segs: Seq<Seq<char>>) -> Seq<char>
    decreases segs.len(),
{
    if segs.len() == 0 {
        Seq::empty()
    } else if segs.len() == 1 {
        segs[0]
    } else {
        join_dots(segs.drop_last()) + seq!['.'] + segs.last()
    }
}

/// Resolving `raw` with the chain `seen` so far; `fuel` bounds the chain (a
/// chain of distinct references is never longer than the document's
/// references, and running out counts as a cycle: see
/// `lemma_resolve_bound_suffices`).
pub open spec fn resolve_spec(
    root: NodeView,
    raw: Seq<char>,
    env: Seq<(Seq<char>, Seq<char>)>,
    seen: Seq<Seq<char>>,
    fuel: nat,
) -> Result<ResolvedView, ResolveErrorView>
    decreases fuel, 1int, 0int,
{
    if seen.contains(raw) {
        Err(ResolveErrorView::Cycle(seen))
    } else if env_prefixed(raw) {
        let name = raw.skip(4);
        match env_lookup(env, name, 0) {
            Some(v) => Ok(ResolvedView::Env(v)),
            None => Err(ResolveErrorView::EnvNotSet(name)),
        }
    } else {
        let segs = split_dots(raw);
        if segs.len() == 0 {
            Err(ResolveErrorView::NotFound(Seq::empty()))
        } else {
            walk_spec(root, segs, 0, root, env, seen.push(raw), fuel)
        }
    }
}

/// Following `segs[i..]` from `current`.
pub open spec fn walk_spec(
    root: NodeView,
    segs: Seq<Seq<char>>,
    i: int,
    current: NodeView,
    env: Seq<(Seq<char>, Seq<char>)>,
    seen: Seq<Seq<char>>,
    fuel: nat,
) -> Result<ResolvedView, ResolveErrorView>
    decreases fuel, 0int, segs.len() - i,
{
    if !(0 <= i < segs.len()) {
        Ok(ResolvedView::Node(current, None))
    } else {
        match lookup_entries(current) {
            None => Err(ResolveErrorView::NotFound(Seq::empty())),
            Some(es) => match entry_index(es, segs[i], 0) {
                None => Err(ResolveErrorView::NotFound(join_dots(segs.take(i + 1)))),
                Some(j) => {
                    let e = es[j];
                    let resolved = match e.value {
                        NodeView::Reference { path, .. } => if fuel == 0 {
                            Err(ResolveErrorView::Cycle(seen))
                        } else {
                            resolve_spec(root, path, env, seen, (fuel - 1) as nat)
                        },
                        _ => Ok(ResolvedView::Node(e.value, Some(e.key_span))),
                    };
                    match resolved {
                        Err(err) => Err(err),
                        Ok(ResolvedView::Env(v)) => Ok(ResolvedView::Env(v)),
                        Ok(ResolvedView::Node(node, ks)) => if i == segs.len() - 1 {
                            Ok(ResolvedView::Node(node, ks))
                        } else {
                            walk_spec(root, segs, i + 1, node, env, seen, fuel)
                        },
                    }
                },
            },
        }
    }
}

/// The fuel a resolution in `root` starts with.
pub open spec fn start_fuel(root: NodeView) -> nat {
    node_refs(root).len()
}

/// What resolving `raw` in `root` gives.
pub open spec fn resolve_result(root: NodeView, raw: Seq<char>, env: Seq<(Seq<char>, Seq<char>)>) -> Result<
    ResolvedView,
    ResolveErrorView,
> {
    resolve_spec(root, raw, env, Seq::empty(), start_fuel(root))
}

/// Collects the reference paths of a tree, in document order.
pub fn collect_references(node: &AstNode) -> (r: Vec<String>)
    ensures
        strings_view(r@) == node_refs(node_view(*node)),
{
    let mut out: Vec<String> = Vec::new();
    proof {
        assert(strings_view(out@) =~= Seq::<Seq<char>>::empty());
    }
    push_refs(node, &mut out);
    proof {
        assert(strings_view(out@) =~= node_refs(node_view(*node)));
    }
    out
}

fn push_refs(node: &AstNode, out: &mut Vec<String>)
    ensures
        strings_view(final(out)@) == strings_view(old(out)@) + node_refs(node_view(*node)),
    decreases node,
{
    let ghost before = strings_view(out@);
    match node {
        AstNode::Document { children, .. } => push_nodes_refs(children, out),
        AstNode::Object { entries, .. } => push_entries_refs(entries, out),
        AstNode::Array { items, .. } => push_nodes_refs(items, out),
        AstNode::Reference { path, .. } => {
            out.push(path.clone());
            proof {
                assert(strings_view(out@) =~= before + seq![path@]);
            }
        },
        _ => {
            proof {
                assert(strings_view(out@) =~= before + Seq::<Seq<char>>::empty());
            }
        },
    }
}

fn push_nodes_refs(nodes: &Vec<AstNode>, out: &mut Vec<String>)
    ensures
        strings_view(final(out)@) == strings_view(old(out)@) + nodes_refs(nodes_view(nodes@)),
    decreases nodes,
{
    let ghost base = strings_view(out@);
    let mut i: usize = 0;
    proof {
        assert(nodes@.take(0) =~= Seq::<AstNode>::empty());
        assert(base + nodes_refs(nodes_view(nodes@.take(0))) =~= base);
    }
    while i < nodes.len()
        invariant
            0 <= i <= nodes.len(),
            strings_view(out@) == base + nodes_refs(nodes_view(nodes@.take(i as int))),
        decreases nodes.len() - i,
    {
        push_refs(&nodes[i], out);
        proof {
            assert(nodes@.take(i + 1) =~= nodes@.take(i as int).push(nodes@[i as int]));
            crate::ast::node::lemma_nodes_view_push(nodes@.take(i as int), nodes@[i as int]);
            assert(nodes_view(nodes@.take(i + 1)).drop_last() =~= nodes_view(nodes@.take(i as int)));
            assert(strings_view(out@) =~= base + nodes_refs(nodes_view(nodes@.take(i + 1))));
        }
        i += 1;
    }
    proof {
        assert(nodes@.take(nodes.len() as int) =~= nodes@);
    }
}

fn push_entries_refs(entries: &Vec<ObjectEntry>, out: &mut Vec<String>)
    ensures
        strings_view(final(out)@) == strings_view(old(out)@) + entries_refs(entries_view(entries@)),
    decreases entries,
{
    let ghost base = strings_view(out@);
    let mut i: usize = 0;
    proof {
        assert(entries@.take(0) =~= Seq::<ObjectEntry>::empty());
        assert(base + entries_refs(entries_view(entries@.take(0))) =~= base);
    }
    while i < entries.len()
        invariant
            0 <= i <= entries.len(),
            strings_view(out@) == base + entries_refs(entries_view(entries@.take(i as int))),
        decreases entries.len() - i,
    {
        push_refs(&entries[i].value, out);
        proof {
            assert(entries@.take(i + 1) =~= entries@.take(i as int).push(entries@[i as int]));
            crate::ast::node::lemma_entries_view_push(entries@.take(i as int), entries@[i as int]);
            assert(entries_view(entries@.take(i + 1)).drop_last() =~= entries_view(entries@.take(i as int)));
            assert(strings_view(out@) =~= base + entries_refs(entries_view(entries@.take(i + 1))));
        }
        i += 1;
    }
    proof {
        assert(entries@.take(entries.len() as int) =~= entries@);
    }
}

/// The model of reference paths with spans.
pub open spec fn ref_pairs_view(v: Seq<(String, Span)>) -> Seq<(Seq<char>, Span)> {
    v.map_values(|p: (String, Span)| (p.0@, p.1))
}

/// The references in a node with their spans, in document order.
pub open spec fn node_ref_spans(n: NodeView) -> Seq<(Seq<char>, Span)>
    decreases n,
{
    match n {
        NodeView::Document { children, .. } => nodes_ref_spans(children),
        NodeView::Object { entries, .. } => entries_ref_spans(entries),
        NodeView::Array { items, .. } => nodes_ref_spans(items),
        NodeView::Reference { path, span, .. } => seq![(path, span)],
        _ => Seq::empty(),
    }
}

pub open spec fn nodes_ref_spans(s: Seq<NodeView>) -> Seq<(Seq<char>, Span)>
    decreases s,
{
    if s.len() == 0 {
        Seq::empty()
    } else {
        nodes_ref_spans(s.drop_last()) + node_ref_spans(s.last())
    }
}

pub open spec fn entries_ref_spans(s: Seq<EntryView>) -> Seq<(Seq<char>, Span)>
    decreases s,
{
    if s.len() == 0 {
        Seq::empty()
    } else {
        entries_ref_spans(s.drop_last()) + node_ref_spans(s.last().value)
    }
}

/// Collects the references of a tree with their spans, in document order.
pub fn collect_reference_spans(node: &AstNode) -> (r: Vec<(String, Span)>)
    ensures
        ref_pairs_view(r@) == node_ref_spans(node_view(*node)),
{
    let mut out: Vec<(String, Span)> = Vec::new();
    proof {
        assert(ref_pairs_view(out@) =~= Seq::<(Seq<char>, Span)>::empty());
    }
    push_ref_spans(node, &mut out);
    proof {
        assert(ref_pairs_view(out@) =~= node_ref_spans(node_view(*node)));
    }
    out
}

fn push_ref_spans(node: &AstNode, out: &mut Vec<(String, Span)>)
    ensures
        ref_pairs_view(final(out)@) == ref_pairs_view(old(out)@) + node_ref_spans(node_view(*node)),
    decreases node,
{
    let ghost before = ref_pairs_view(out@);
    match node {
        AstNode::Document { children, .. } => push_nodes_ref_spans(children, out),
        AstNode::Object { entries, .. } => push_entries_ref_spans(entries, out),
        AstNode::Array { items, .. } => push_nodes_ref_spans(items, out),
        AstNode::Reference { path, span, .. } => {
            out.push((path.clone(), *span));
            proof {
                assert(ref_pairs_view(out@) =~= before + seq![(path@, *span)]);
            }
        },
        _ => {
            proof {
                assert(ref_pairs_view(out@) =~= before + Seq::<(Seq<char>, Span)>::empty());
            }
        },
    }
}

fn push_nodes_ref_spans(nodes: &Vec<AstNode>, out: &mut Vec<(String, Span)>)
    ensures
        ref_pairs_view(final(out)@) == ref_pairs_view(old(out)@) + nodes_ref_spans(nodes_view(nodes@)),
    decreases nodes,
{
    let ghost base = ref_pairs_view(out@);
    let mut i: usize = 0;
    proof {
        assert(nodes@.take(0) =~= Seq::<AstNode>::empty());
        assert(base + nodes_ref_spans(nodes_view(nodes@.take(0))) =~= base);
    }
    while i < nodes.len()
        invariant
            0 <= i <= nodes.len(),
            ref_pairs_view(out@) == base + nodes_ref_spans(nodes_view(nodes@.take(i as int))),
        decreases nodes.len() - i,
    {
        push_ref_spans(&nodes[i], out);
        proof {
            assert(nodes@.take(i + 1) =~= nodes@.take(i as int).push(nodes@[i as int]));
            crate::ast::node::lemma_nodes_view_push(nodes@.take(i as int), nodes@[i as int]);
            assert(nodes_view(nodes@.take(i + 1)).drop_last() =~= nodes_view(nodes@.take(i as int)));
            assert(ref_pairs_view(out@) =~= base + nodes_ref_spans(nodes_view(nodes@.take(i + 1))));
        }
        i += 1;
    }
    proof {
        assert(nodes@.take(nodes.len() as int) =~= nodes@);
    }
}

fn push_entries_ref_spans(entries: &Vec<ObjectEntry>, out: &mut Vec<(String, Span)>)
    ensures
        ref_pairs_view(final(out)@) == ref_pairs_view(old(out)@) + entries_ref_spans(entries_view(entries@)),
    decreases entries,
{
    let ghost base = ref_pairs_view(out@);
    let mut i: usize = 0;
    proof {
        assert(entries@.take(0) =~= Seq::<ObjectEntry>::empty());
        assert(base + entries_ref_spans(entries_view(entries@.take(0))) =~= base);
    }
    while i < entries.len()
        invariant
            0 <= i <= entries.len(),
            ref_pairs_view(out@) == base + entries_ref_spans(entries_view(entries@.take(i as int))),
        decreases entries.len() - i,
    {
        push_ref_spans(&entries[i].value, out);
        proof {
            assert(entries@.take(i + 1) =~= entries@.take(i as int).push(entries@[i as int]));
            crate::ast::node::lemma_entries_view_push(entries@.take(i as int), entries@[i as int]);
            assert(entries_view(entries@.take(i + 1)).drop_last() =~= entries_view(entries@.take(i as int)));
            assert(ref_pairs_view(out@) =~= base + entries_ref_spans(entries_view(entries@.take(i + 1))));
        }
        i += 1;
    }
    proof {
        assert(entries@.take(entries.len() as int) =~= entries@);
    }
}

proof fn lemma_nodes_at(s: Seq<AstNode>)
    ensures
        nodes_view(s).len() == s.len(),
        forall|i: int| 0 <= i < s.len() ==> #[trigger] nodes_view(s)[i] == node_view(s[i]),
    decreases s.len(),
{
    if s.len() > 0 {
        lemma_nodes_at(s.drop_last());
    }
}

proof fn lemma_entries_at(s: Seq<ObjectEntry>)
    ensures
        entries_view(s).len() == s.len(),
        forall|i: int| 0 <= i < s.len() ==> #[trigger] entries_view(s)[i] == entry_view(s[i]),
    decreases s.len(),
{
    if s.len() > 0 {
        lemma_entries_at(s.drop_last());
    }
}

/// The entries a path is looked up in.
fn entries_for_lookup(n: &AstNode) -> (r: Option<&Vec<ObjectEntry>>)
    ensures
        match r {
            Some(es) => lookup_entries(node_view(*n)) == Some(entries_view(es@)),
            None => lookup_entries(node_view(*n)) is None,
        },
{
    match n {
        AstNode::Document { children, .. } => {
            proof {
                lemma_nodes_at(children@);
            }
            let mut i: usize = 0;
            while i < children.len()
                invariant
                    0 <= i <= children.len(),
                    nodes_view(children@).len() == children.len(),
                    forall|k: int| 0 <= k < children.len() ==> #[trigger] nodes_view(children@)[k] == node_view(children@[k]),
                    first_object(nodes_view(children@), i as int) == first_object(nodes_view(children@), 0),
                    lookup_entries(node_view(*n)) == first_object(nodes_view(children@), 0),
                decreases children.len() - i,
            {
                proof {
                    assert(nodes_view(children@)[i as int] == node_view(children@[i as int]));
                }
                match &children[i] {
                    AstNode::Object { entries, .. } => {
                        proof {
                            assert(node_view(children@[i as int]) == NodeView::Object {
                                entries: entries_view(entries@),
                                span: children@[i as int].spec_span(),
                            });
                            assert(first_object(nodes_view(children@), i as int) == Some(entries_view(entries@)));
                        }
                        return Some(entries);
                    },
                    _ => {},
                }
                i += 1;
            }
            None
        },
        AstNode::Object { entries, .. } => Some(entries),
        _ => None,
    }
}

/// The index of the first entry with key `k`.
fn find_entry(es: &Vec<ObjectEntry>, k: &String) -> (r: Option<usize>)
    ensures
        match r {
            Some(j) => entry_index(entries_view(es@), k@, 0) == Some(j as int) && j < es.len(),
            None => entry_index(entries_view(es@), k@, 0) is None,
        },
{
    proof {
        lemma_entries_at(es@);
    }
    let mut i: usize = 0;
    while i < es.len()
        invariant
            0 <= i <= es.len(),
            entries_view(es@).len() == es.len(),
            forall|m: int| 0 <= m < es.len() ==> #[trigger] entries_view(es@)[m] == entry_view(es@[m]),
            entry_index(entries_view(es@), k@, i as int) == entry_index(entries_view(es@), k@, 0),
        decreases es.len() - i,
    {
        proof {
            assert(entries_view(es@)[i as int] == entry_view(es@[i as int]));
        }
        if es[i].key == *k {
            return Some(i);
        }
        i += 1;
    }
    None
}

/// `segs[..n]` joined with `.`.
fn join_prefix(segs: &Vec<String>, n: usize) -> (r: String)
    requires
        n <= segs.len(),
    ensures
        r@ == join_dots(strings_view(segs@).take(n as int)),
{
    let mut out = String::new();
    let mut i: usize = 0;
    proof {
        assert(strings_view(segs@).take(0) =~= Seq::<Seq<char>>::empty());
    }
    while i < n
        invariant
            0 <= i <= n <= segs.len(),
            out@ == join_dots(strings_view(segs@).take(i as int)),
        decreases n - i,
    {
        let ghost t = strings_view(segs@).take(i + 1);
        proof {
            assert(t.drop_last() =~= strings_view(segs@).take(i as int));
            assert(t.last() == segs@[i as int]@);
        }
        if i > 0 {
            out.push('.');
        }
        out.append(segs[i].as_str());
        proof {
            if i == 0 {
                assert(out@ =~= t[0]);
            } else {
                assert(out@ =~= join_dots(t.drop_last()) + seq!['.'] + t.last());
            }
        }
        i += 1;
    }
    out
}

/// A copy of a list of strings.
pub(crate) fn copy_strings(v: &Vec<String>) -> (r: Vec<String>)
    ensures
        strings_view(r@) == strings_view(v@),
{
    let mut r: Vec<String> = Vec::new();
    let mut i: usize = 0;
    while i < v.len()
        invariant
            0 <= i <= v.len(),
            strings_view(r@) == strings_view(v@.take(i as int)),
            r@.len() == i,
        decreases v.len() - i,
    {
        let ghost prev = r@;
        let c = v[i].clone();
        r.push(c);
        proof {
            assert(r@ == prev.push(c));
            assert(strings_view(prev) == strings_view(v@.take(i as int)));
            assert(forall|k: int| 0 <= k < prev.len() ==> strings_view(prev)[k] == prev[k]@);
            assert(c@ == v@[i as int]@);
            assert forall|k: int| 0 <= k < i + 1 implies strings_view(r@)[k] == strings_view(v@.take(i + 1))[k] by {
                if k < i {
                    assert(strings_view(prev)[k] == strings_view(v@.take(i as int))[k]);
                }
            }
            assert(strings_view(r@) =~= strings_view(v@.take(i + 1)));
        }
        i += 1;
    }
    proof {
        assert(v@.take(v.len() as int) =~= v@);
    }
    r
}

/// Whether `raw` is on the chain.
fn on_chain(seen: &Vec<String>, raw: &String) -> (b: bool)
    ensures
        b == strings_view(seen@).contains(raw@),
{
    let mut i: usize = 0;
    while i < seen.len()
        invariant
            0 <= i <= seen.len(),
            forall|k: int| 0 <= k < i ==> seen@[k]@ != raw@,
        decreases seen.len() - i,
    {
        if seen[i] == *raw {
            proof {
                assert(strings_view(seen@)[i as int] == raw@);
            }
            return true;
        }
        i += 1;
    }
    proof {
        if strings_view(seen@).contains(raw@) {
            let k = choose|k: int| 0 <= k < strings_view(seen@).len() && strings_view(seen@)[k] == raw@;
            assert(seen@[k]@ == raw@);
        }
    }
    false
}

/// The value of the first variable named `name`.
pub(crate) fn lookup_env(env: &Vec<(String, String)>, name: &String) -> (r: Option<String>)
    ensures
        match r {
            Some(v) => env_lookup(env_view(env@), name@, 0) == Some(v@),
            None => env_lookup(env_view(env@), name@, 0) is None,
        },
{
    let mut i: usize = 0;
    while i < env.len()
        invariant
            0 <= i <= env.len(),
            env_lookup(env_view(env@), name@, i as int) == env_lookup(env_view(env@), name@, 0),
        decreases env.len() - i,
    {
        if env[i].0 == *name {
            return Some(env[i].1.clone());
        }
        i += 1;
    }
    None
}

/// Resolves a reference by its text between the braces (`foo.bar` or
/// `env:VAR`) against the document `root` and the environment `env`.
pub fn resolve(root: &AstNode, raw: &str, env: &Vec<(String, String)>) -> (r: Result<ResolvedRef, ResolveError>)
    ensures
        resolved_view(r) == resolve_result(node_view(*root), raw@, env_view(env@)),
{
    let refs = collect_references(root);
    let mut seen: Vec<String> = Vec::new();
    let raw_s = String::from_str(raw);
    proof {
        assert(strings_view(seen@) =~= Seq::<Seq<char>>::empty());
        assert(strings_view(refs@).len() == refs@.len());
    }
    resolve_inner(root, &raw_s, env, &mut seen, refs.len())
}

fn resolve_inner(root: &AstNode, raw: &String, env: &Vec<(String, String)>, seen: &mut Vec<String>, fuel: usize) -> (r: Result<
    ResolvedRef,
    ResolveError,
>)
    ensures
        strings_view(final(seen)@) == strings_view(old(seen)@),
        resolved_view(r) == resolve_spec(node_view(*root), raw@, env_view(env@), strings_view(old(seen)@), fuel as nat),
    decreases fuel, 1int, 0int,
{
    if on_chain(seen, raw) {
        return Err(ResolveError::Cycle(copy_strings(seen)));
    }
    let ghost before = strings_view(seen@);
    if crate::parser::is_env_reference(raw) {
        let v = crate::text::chars_of(raw.as_str());
        let mut name = String::new();
        let mut i: usize = 4;
        while i < v.len()
            invariant
                4 <= i <= v.len(),
                v@ == raw@,
                name@ == v@.subrange(4, i as int),
            decreases v.len() - i,
        {
            name.push(v[i]);
            proof {
                assert(name@ =~= v@.subrange(4, i + 1));
            }
            i += 1;
        }
        proof {
            assert(name@ =~= raw@.skip(4));
        }
        return match lookup_env(env, &name) {
            Some(val) => Ok(ResolvedRef::Env(val)),
            None => Err(ResolveError::EnvNotSet(name)),
        };
    }
    let segs = split_key(raw.as_str());
    seen.push(raw.clone());
    proof {
        assert(strings_view(seen@) =~= before.push(raw@));
    }
    let res = walk(root, &segs, env, seen, fuel);
    let ghost mid = seen@;
    seen.pop();
    proof {
        assert(seen@ == mid.drop_last());
        assert(strings_view(mid) == before.push(raw@));
        assert(strings_view(seen@) =~= strings_view(mid).drop_last());
        assert(strings_view(seen@) =~= before);
    }
    res
}

fn walk(root: &AstNode, segs: &Vec<String>, env: &Vec<(String, String)>, seen: &mut Vec<String>, fuel: usize) -> (r: Result<
    ResolvedRef,
    ResolveError,
>)
    requires
        segs.len() >= 1,
    ensures
        strings_view(final(seen)@) == strings_view(old(seen)@),
        resolved_view(r) == walk_spec(node_view(*root), strings_view(segs@), 0, node_view(*root), env_view(env@),
            strings_view(old(seen)@), fuel as nat),
    decreases fuel, 0int, 0int,
{
    let ghost sv = strings_view(segs@);
    let ghost sn = strings_view(seen@);
    let ghost whole = walk_spec(node_view(*root), sv, 0, node_view(*root), env_view(env@), sn, fuel as nat);
    let mut current = clone_node(root);
    let mut i: usize = 0;
    loop
        invariant
            0 <= i < segs.len(),
            sv == strings_view(segs@),
            sv.len() == segs.len(),
            strings_view(seen@) == sn,
            sn == strings_view(old(seen)@),
            whole == walk_spec(node_view(*root), sv, 0, node_view(*root), env_view(env@), sn, fuel as nat),
            whole == walk_spec(node_view(*root), sv, i as int, node_view(current), env_view(env@), sn, fuel as nat),
        decreases segs.len() - i,
    {
        let (value, key_span) = {
            let es = match entries_for_lookup(&current) {
                None => {
                    return Err(ResolveError::NotFound(String::new()));
                },
                Some(es) => es,
            };
            let j = match find_entry(es, &segs[i]) {
                None => {
                    let p = join_prefix(segs, i + 1);
                    return Err(ResolveError::NotFound(p));
                },
                Some(j) => j,
            };
            proof {
                lemma_entries_at(es@);
            }
            (clone_node(&es[j].value), es[j].key_span)
        };
        let resolved = match &value {
            AstNode::Reference { path, .. } => {
                if fuel == 0 {
                    return Err(ResolveError::Cycle(copy_strings(seen)));
                }
                match resolve_inner(root, path, env, seen, fuel - 1) {
                    Err(e) => {
                        return Err(e);
                    },
                    Ok(x) => x,
                }
            },
            _ => ResolvedRef::Node { node: value, key_span: Some(key_span) },
        };
        match resolved {
            ResolvedRef::Env(v) => {
                return Ok(ResolvedRef::Env(v));
            },
            ResolvedRef::Node { node, key_span: ks } => {
                if i == segs.len() - 1 {
                    return Ok(ResolvedRef::Node { node, key_span: ks });
                }
                current = node;
            },
        }
        i += 1;
    }
}

/// The reference paths of `root`, as a set.
pub open spec fn ref_paths(root: NodeView) -> Set<Seq<char>> {
    node_refs(root).to_set()
}

/// Whether every reference path of `n` is one of `root`'s.
pub open spec fn refs_within(n: NodeView, root: NodeView) -> bool {
    forall|p: Seq<char>| node_refs(n).contains(p) ==> node_refs(root).contains(p)
}

/// The paths of a chain that are reference paths of `root`.
pub open spec fn chain_refs(seen: Seq<Seq<char>>, root: NodeView) -> Set<Seq<char>> {
    seen.to_set().intersect(ref_paths(root))
}

proof fn lemma_nodes_refs_contain(s: Seq<NodeView>, i: int, p: Seq<char>)
    requires
        0 <= i < s.len(),
        node_refs(s[i]).contains(p),
    ensures
        nodes_refs(s).contains(p),
    decreases s.len(),
{
    let a = nodes_refs(s.drop_last());
    let t = a + node_refs(s.last());
    assert(nodes_refs(s) == t);
    if i == s.len() - 1 {
        let k = choose|k: int| 0 <= k < node_refs(s[i]).len() && node_refs(s[i])[k] == p;
        assert(t[a.len() + k] == p);
    } else {
        assert(s.drop_last()[i] == s[i]);
        lemma_nodes_refs_contain(s.drop_last(), i, p);
        let k = choose|k: int| 0 <= k < a.len() && a[k] == p;
        assert(t[k] == p);
    }
}

proof fn lemma_entries_refs_contain(s: Seq<EntryView>, i: int, p: Seq<char>)
    requires
        0 <= i < s.len(),
        node_refs(s[i].value).contains(p),
    ensures
        entries_refs(s).contains(p),
    decreases s.len(),
{
    let a = entries_refs(s.drop_last());
    let t = a + node_refs(s.last().value);
    assert(entries_refs(s) == t);
    if i == s.len() - 1 {
        let k = choose|k: int| 0 <= k < node_refs(s[i].value).len() && node_refs(s[i].value)[k] == p;
        assert(t[a.len() + k] == p);
    } else {
        assert(s.drop_last()[i] == s[i]);
        lemma_entries_refs_contain(s.drop_last(), i, p);
        let k = choose|k: int| 0 <= k < a.len() && a[k] == p;
        assert(t[k] == p);
    }
}

proof fn lemma_first_object_refs(s: Seq<NodeView>, i: int, p: Seq<char>)
    requires
        0 <= i,
        first_object(s, i) matches Some(es) && entries_refs(es).contains(p),
    ensures
        nodes_refs(s).contains(p),
    decreases s.len() - i,
{
    if i < s.len() {
        match s[i] {
            NodeView::Object { entries, .. } => {
                lemma_nodes_refs_contain(s, i, p);
            },
            _ => {
                lemma_first_object_refs(s, i + 1, p);
            },
        }
    }
}

proof fn lemma_entry_index_range(es: Seq<EntryView>, k: Seq<char>, i: int)
    requires
        0 <= i,
    ensures
        entry_index(es, k, i) matches Some(j) ==> i <= j < es.len() && es[j].key == k,
    decreases es.len() - i,
{
    if i < es.len() && es[i].key != k {
        lemma_entry_index_range(es, k, i + 1);
    }
}

/// The value of the entry a walk step picks has its references among the
/// looked-up node's.
proof fn lemma_step_refs(current: NodeView, root: NodeView, k: Seq<char>)
    requires
        refs_within(current, root),
        lookup_entries(current) matches Some(es) && entry_index(es, k, 0) is Some,
    ensures
        ({
            let es = lookup_entries(current).unwrap();
            let j = entry_index(es, k, 0).unwrap();
            0 <= j < es.len() && refs_within(es[j].value, root)
        }),
{
    let es = lookup_entries(current).unwrap();
    lemma_entry_index_range(es, k, 0);
    let j = entry_index(es, k, 0).unwrap();
    assert forall|p: Seq<char>| node_refs(es[j].value).contains(p) implies node_refs(root).contains(p) by {
        lemma_entries_refs_contain(es, j, p);
        match current {
            NodeView::Document { children, .. } => {
                lemma_first_object_refs(children, 0, p);
            },
            _ => {},
        }
    }
}

/// Each path a chain follows is a reference path of the document, so a chain
/// that has used up its fuel holds every one of them.
proof fn lemma_chain_full(seen: Seq<Seq<char>>, root: NodeView, p: Seq<char>)
    requires
        ref_paths(root).contains(p),
        chain_refs(seen, root).len() >= ref_paths(root).len(),
    ensures
        seen.contains(p),
{
    vstd::seq_lib::seq_to_set_is_finite(node_refs(root));
    vstd::seq_lib::seq_to_set_is_finite(seen);
    if !seen.contains(p) {
        let r = ref_paths(root);
        assert(chain_refs(seen, root).subset_of(r.remove(p)));
        vstd::set_lib::lemma_len_subset(chain_refs(seen, root), r.remove(p));
    }
}

proof fn lemma_resolve_fuel(
    root: NodeView,
    raw: Seq<char>,
    env: Seq<(Seq<char>, Seq<char>)>,
    seen: Seq<Seq<char>>,
    f1: nat,
    f2: nat,
)
    requires
        f1 <= f2,
        f1 + chain_refs(seen, root).len() + (if ref_paths(root).contains(raw) { 1int } else { 0int })
            >= ref_paths(root).len(),
    ensures
        resolve_spec(root, raw, env, seen, f1) == resolve_spec(root, raw, env, seen, f2),
        resolve_spec(root, raw, env, seen, f1) matches Ok(ResolvedView::Node(n, _)) ==> refs_within(n, root),
    decreases f1, 1int, 0int,
{
    if !seen.contains(raw) && !env_prefixed(raw) {
        let segs = split_dots(raw);
        if segs.len() != 0 {
            let s2 = seen.push(raw);
            vstd::seq_lib::seq_to_set_is_finite(seen);
            seen.lemma_push_to_set_commute(raw);
            assert(chain_refs(s2, root) =~= if ref_paths(root).contains(raw) {
                chain_refs(seen, root).insert(raw)
            } else {
                chain_refs(seen, root)
            });
            assert(refs_within(root, root));
            lemma_walk_fuel(root, segs, 0, root, env, s2, f1, f2);
        }
    }
}

proof fn lemma_walk_fuel(
    root: NodeView,
    segs: Seq<Seq<char>>,
    i: int,
    current: NodeView,
    env: Seq<(Seq<char>, Seq<char>)>,
    seen: Seq<Seq<char>>,
    f1: nat,
    f2: nat,
)
    requires
        f1 <= f2,
        0 <= i,
        f1 + chain_refs(seen, root).len() >= ref_paths(root).len(),
        refs_within(current, root),
    ensures
        walk_spec(root, segs, i, current, env, seen, f1) == walk_spec(root, segs, i, current, env, seen, f2),
        walk_spec(root, segs, i, current, env, seen, f1) matches Ok(ResolvedView::Node(n, _)) ==> refs_within(n, root),
    decreases f1, 0int, segs.len() - i,
{
    if i < segs.len() {
        if let Some(es) = lookup_entries(current) {
            if let Some(j) = entry_index(es, segs[i], 0) {
                lemma_step_refs(current, root, segs[i]);
                let e = es[j];
                match e.value {
                    NodeView::Reference { path, .. } => {
                        assert(node_refs(e.value) == seq![path]);
                        assert(node_refs(e.value)[0] == path);
                        assert(ref_paths(root).contains(path));
                        if f1 == 0 {
                            if f2 > 0 {
                                lemma_chain_full(seen, root, path);
                            }
                        } else {
                            lemma_resolve_fuel(root, path, env, seen, (f1 - 1) as nat, (f2 - 1) as nat);
                            match resolve_spec(root, path, env, seen, (f1 - 1) as nat) {
                                Ok(ResolvedView::Node(node, ks)) => {
                                    if i != segs.len() - 1 {
                                        lemma_walk_fuel(root, segs, i + 1, node, env, seen, f1, f2);
                                    }
                                },
                                _ => {},
                            }
                        }
                    },
                    _ => {
                        if i != segs.len() - 1 {
                            lemma_walk_fuel(root, segs, i + 1, e.value, env, seen, f1, f2);
                        }
                    },
                }
            }
        }
    }
}

/// Resolution never stops for want of steps: the bound it works with (one
/// step per reference of the document) gives the same answer as any larger
/// one, so a cycle is reported only for a chain that meets a path again.
pub proof fn lemma_resolve_bound_suffices(
    root: NodeView,
    raw: Seq<char>,
    env: Seq<(Seq<char>, Seq<char>)>,
    fuel: nat,
)
    requires
        fuel >= start_fuel(root),
    ensures
        resolve_spec(root, raw, env, Seq::empty(), fuel) == resolve_result(root, raw, env),
{
    node_refs(root).lemma_cardinality_of_set();
    assert(chain_refs(Seq::<Seq<char>>::empty(), root) =~= Set::<Seq<char>>::empty());
    lemma_resolve_fuel(root, raw, env, Seq::empty(), start_fuel(root), fuel);
}

} // verus!
