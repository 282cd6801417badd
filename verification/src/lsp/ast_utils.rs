//! Walking the tree for the editor features: which node lies under the
//! cursor, the path that leads to it, and the keys around it.
use crate::ast::{AstNode, ObjectEntry, Position, Span};
use vstd::prelude::*;

verus! {

/// One step of the path from the root to a node.
#[derive(Debug, Clone)]
pub struct NodePathEntry<'a> {
    /// The AST node at this position in the path
    pub node: &'a AstNode,
    /// If this node is an object entry value, the key name
    pub key: Option<&'a str>,
    /// If this node is an array item, the index
    pub index: Option<usize>,
}

/// The model of a path step: the node, its key and its index.
pub type StepView = (AstNode, Option<Seq<char>>, Option<usize>);

pub open spec fn step_view(e: NodePathEntry) -> StepView {
    (*e.node, match e.key {
        Some(k) => Some(k@),
        None => None,
    }, e.index)
}

pub open spec fn steps_view(s: Seq<NodePathEntry>) -> Seq<StepView> {
    s.map_values(|e: NodePathEntry| step_view(e))
}

impl<'a> NodePathEntry<'a> {
    /// A path entry for a root or standalone node.
    pub fn root(node: &'a AstNode) -> (e: Self)
        ensures
            step_view(e) == (*node, None::<Seq<char>>, None::<usize>),
    {
        NodePathEntry { node, key: None, index: None }
    }

    /// A path entry for an object entry value.
    pub fn with_key(node: &'a AstNode, key: &'a str) -> (e: Self)
        ensures
            step_view(e) == (*node, Some(key@), None::<usize>),
    {
        NodePathEntry { node, key: Some(key), index: None }
    }

    /// A path entry for an array item.
    pub fn with_index(node: &'a AstNode, index: usize) -> (e: Self)
        ensures
            step_view(e) == (*node, None::<Seq<char>>, Some(index)),
    {
        NodePathEntry { node, key: None, index: Some(index) }
    }
}

/// The node found at a position.
#[derive(Debug)]
pub struct NodeAtPosition<'a> {
    /// Path from root to the found node
    pub path: Vec<NodePathEntry<'a>>,
    /// The innermost node containing the position
    pub node: &'a AstNode,
    /// If position is on an object key, the entry info
    pub on_key: Option<&'a ObjectEntry>,
}

/// The first index from `i` on whose node's span contains `pos`
/// (`s.len()` when there is none).
pub open spec fn first_containing(s: Seq<AstNode>, pos: Position, i: int) -> int
    decreases s.len() - i,
{
    if i < 0 || i >= s.len() {
        s.len() as int
    } else if s[i].spec_span().spec_contains(pos) {
        i
    } else {
        first_containing(s, pos, i + 1)
    }
}

/// Whether the key or the value of an entry contains `pos`.
pub open spec fn entry_hit(e: ObjectEntry, pos: Position) -> bool {
    e.key_span.spec_contains(pos) || e.value.spec_span().spec_contains(pos)
}

/// The first index from `i` on whose entry is hit by `pos` (`s.len()` when
/// there is none).
pub open spec fn first_entry_hit(s: Seq<ObjectEntry>, pos: Position, i: int) -> int
    decreases s.len() - i,
{
    if i < 0 || i >= s.len() {
        s.len() as int
    } else if entry_hit(s[i], pos) {
        i
    } else {
        first_entry_hit(s, pos, i + 1)
    }
}

/// The descent from `n` towards `pos`: the steps taken below `n`, the node
/// where it stops, and the entry whose key holds `pos` if it stopped on a key.
/// In a document or an array it enters the first child whose span holds
/// `pos`; in an object the first entry whose key or value holds it, stopping
/// there if the key does.
pub open spec fn descent(n: AstNode, pos: Position) -> (Seq<StepView>, AstNode, Option<ObjectEntry>)
    decreases n,
{
    match n {
        AstNode::Document { children, .. } => {
            let i = first_containing(children@, pos, 0);
            if 0 <= i < children@.len() {
                let c = children@[i];
                let (p, f, k) = descent(c, pos);
                (seq![(c, None::<Seq<char>>, None::<usize>)] + p, f, k)
            } else {
                (Seq::empty(), n, None)
            }
        },
        AstNode::Object { entries, .. } => {
            let i = first_entry_hit(entries@, pos, 0);
            if 0 <= i < entries@.len() {
                let e = entries@[i];
                if e.key_span.spec_contains(pos) {
                    (Seq::empty(), n, Some(e))
                } else {
                    let (p, f, k) = descent(e.value, pos);
                    (seq![(e.value, Some(e.key@), None::<usize>)] + p, f, k)
                }
            } else {
                (Seq::empty(), n, None)
            }
        },
        AstNode::Array { items, .. } => {
            let i = first_containing(items@, pos, 0);
            if 0 <= i < items@.len() {
                let c = items@[i];
                let (p, f, k) = descent(c, pos);
                (seq![(c, None::<Seq<char>>, Some(i as usize))] + p, f, k)
            } else {
                (Seq::empty(), n, None)
            }
        },
        _ => (Seq::empty(), n, None),
    }
}

pub open spec fn entry_of(o: Option<&ObjectEntry>) -> Option<ObjectEntry> {
    match o {
        Some(e) => Some(*e),
        None => None,
    }
}

proof fn lemma_first_containing_bound(s: Seq<AstNode>, pos: Position, i: int)
    requires
        0 <= i <= s.len(),
    ensures
        i <= first_containing(s, pos, i) <= s.len(),
    decreases s.len() - i,
{
    if i < s.len() && !s[i].spec_span().spec_contains(pos) {
        lemma_first_containing_bound(s, pos, i + 1);
    }
}

proof fn lemma_first_entry_hit_bound(s: Seq<ObjectEntry>, pos: Position, i: int)
    requires
        0 <= i <= s.len(),
    ensures
        i <= first_entry_hit(s, pos, i) <= s.len(),
    decreases s.len() - i,
{
    if i < s.len() && !entry_hit(s[i], pos) {
        lemma_first_entry_hit_bound(s, pos, i + 1);
    }
}

/// The index of the first node whose span contains `pos`.
fn find_child_containing(children: &Vec<AstNode>, pos: Position) -> (r: usize)
    ensures
        r == first_containing(children@, pos, 0),
        r <= children.len(),
{
    let mut i: usize = 0;
    while i < children.len()
        invariant
            0 <= i <= children.len(),
            first_containing(children@, pos, i as int) == first_containing(children@, pos, 0),
        decreases children.len() - i,
    {
        if children[i].span().contains(pos) {
            return i;
        }
        i += 1;
    }
    i
}

/// The index of the first entry whose key or value contains `pos`.
fn find_entry_containing(entries: &Vec<ObjectEntry>, pos: Position) -> (r: usize)
    ensures
        r == first_entry_hit(entries@, pos, 0),
        r <= entries.len(),
{
    let mut i: usize = 0;
    while i < entries.len()
        invariant
            0 <= i <= entries.len(),
            first_entry_hit(entries@, pos, i as int) == first_entry_hit(entries@, pos, 0),
        decreases entries.len() - i,
    {
        if entries[i].key_span.contains(pos) || entries[i].value.span().contains(pos) {
            return i;
        }
        i += 1;
    }
    i
}

/// Follows `descent` from `node`, appending its steps to `path`.
fn descend<'a>(node: &'a AstNode, pos: Position, path: &mut Vec<NodePathEntry<'a>>) -> (r: (
    &'a AstNode,
    Option<&'a ObjectEntry>,
))
    ensures
        steps_view(final(path)@) == steps_view(old(path)@) + descent(*node, pos).0,
        *r.0 == descent(*node, pos).1,
        entry_of(r.1) == descent(*node, pos).2,
    decreases node,
{
    let ghost p0 = path@;
    match node {
        AstNode::Document { children, .. } => {
            let i = find_child_containing(children, pos);
            if i < children.len() {
                let child = &children[i];
                path.push(NodePathEntry::root(child));
                let ghost p1 = path@;
                let r = descend(child, pos, path);
                proof {
                    assert(p1 =~= p0.push(p1.last()));
                    assert(steps_view(p1) =~= steps_view(p0) + seq![step_view(p1.last())]);
                }
                r
            } else {
                proof {
                    assert(steps_view(path@) =~= steps_view(p0) + Seq::<StepView>::empty());
                }
                (node, None)
            }
        },
        AstNode::Object { entries, .. } => {
            let i = find_entry_containing(entries, pos);
            if i < entries.len() {
                let entry = &entries[i];
                if entry.key_span.contains(pos) {
                    proof {
                        assert(steps_view(path@) =~= steps_view(p0) + Seq::<StepView>::empty());
                    }
                    (node, Some(entry))
                } else {
                    path.push(NodePathEntry::with_key(&entry.value, entry.key.as_str()));
                    let ghost p1 = path@;
                    let r = descend(&entry.value, pos, path);
                    proof {
                        assert(p1 =~= p0.push(p1.last()));
                        assert(steps_view(p1) =~= steps_view(p0) + seq![step_view(p1.last())]);
                    }
                    r
                }
            } else {
                proof {
                    assert(steps_view(path@) =~= steps_view(p0) + Seq::<StepView>::empty());
                }
                (node, None)
            }
        },
        AstNode::Array { items, .. } => {
            let i = find_child_containing(items, pos);
            if i < items.len() {
                let item = &items[i];
                path.push(NodePathEntry::with_index(item, i));
                let ghost p1 = path@;
                let r = descend(item, pos, path);
                proof {
                    assert(p1 =~= p0.push(p1.last()));
                    assert(steps_view(p1) =~= steps_view(p0) + seq![step_view(p1.last())]);
                }
                r
            } else {
                proof {
                    assert(steps_view(path@) =~= steps_view(p0) + Seq::<StepView>::empty());
                }
                (node, None)
            }
        },
        _ => {
            proof {
                assert(steps_view(path@) =~= steps_view(p0) + Seq::<StepView>::empty());
            }
            (node, None)
        },
    }
}

/// Finds the most specific node at a position (0-based line, UTF-8 column,
/// byte offset; nodes are matched by byte offset). `None` when the root's
/// span does not contain the offset; otherwise the path starts with the root
/// and follows `descent`.
pub fn find_node_at_position(root: &AstNode, line: u32, column: u32, offset: u32) -> (r: Option<NodeAtPosition<'_>>)
    ensures
        ({
            let pos = Position { line, column, offset };
            match r {
                None => !root.spec_span().spec_contains(pos),
                Some(found) => {
                    &&& root.spec_span().spec_contains(pos)
                    &&& steps_view(found.path@) == seq![(*root, None::<Seq<char>>, None::<usize>)] + descent(*root, pos).0
                    &&& *found.node == descent(*root, pos).1
                    &&& entry_of(found.on_key) == descent(*root, pos).2
                },
            }
        }),
{
    let pos = Position::new(line, column, offset);
    if !root.span().contains(pos) {
        return None;
    }
    let mut path: Vec<NodePathEntry> = Vec::new();
    path.push(NodePathEntry::root(root));
    proof {
        assert(steps_view(path@) =~= seq![(*root, None::<Seq<char>>, None::<usize>)]);
    }
    let (node, on_key) = descend(root, pos, &mut path);
    Some(NodeAtPosition { path, node, on_key })
}

/// The keys of `es` in order, leaving out those equal to `ex`.
pub open spec fn keys_except(es: Seq<ObjectEntry>, ex: Option<Seq<char>>) -> Seq<Seq<char>>
    decreases es.len(),
{
    if es.len() == 0 {
        Seq::empty()
    } else {
        let k = es.last().key@;
        keys_except(es.drop_last(), ex) + if ex == Some(k) { Seq::empty() } else { seq![k] }
    }
}

pub open spec fn strs_view(v: Seq<&str>) -> Seq<Seq<char>> {
    v.map_values(|k: &str| k@)
}

fn owned_key(k: Option<&str>) -> (r: Option<String>)
    ensures
        match k {
            Some(x) => r matches Some(y) && y@ == x@,
            None => r is None,
        },
{
    match k {
        Some(x) => Some(x.to_owned()),
        None => None,
    }
}

/// The keys of the sibling entries of an object, in order, leaving out
/// `exclude_key` (every entry with that key) when one is given.
pub fn collect_sibling_keys<'a>(entries: &'a [ObjectEntry], exclude_key: Option<&str>) -> (r: Vec<&'a str>)
    ensures
        strs_view(r@) == keys_except(entries@, match exclude_key {
            Some(k) => Some(k@),
            None => None,
        }),
{
    let ghost ex = match exclude_key {
        Some(k) => Some(k@),
        None => None::<Seq<char>>,
    };
    let excluded = owned_key(exclude_key);
    let mut keys: Vec<&'a str> = Vec::new();
    let mut i: usize = 0;
    while i < entries.len()
        invariant
            0 <= i <= entries.len(),
            match excluded {
                Some(y) => ex == Some(y@),
                None => ex is None,
            },
            strs_view(keys@) == keys_except(entries@.take(i as int), ex),
        decreases entries.len() - i,
    {
        let skip = match &excluded {
            Some(x) => entries[i].key == *x,
            None => false,
        };
        let ghost before = keys@;
        if !skip {
            keys.push(entries[i].key.as_str());
        }
        proof {
            assert(entries@.take(i + 1).drop_last() =~= entries@.take(i as int));
            assert(skip == (ex == Some(entries@[i as int].key@)));
            if skip {
                assert(keys@ == before);
            } else {
                assert(strs_view(keys@) =~= strs_view(before) + seq![entries@[i as int].key@]);
            }
            assert(strs_view(keys@) =~= keys_except(entries@.take(i + 1), ex));
        }
        i += 1;
    }
    proof {
        assert(entries@.take(entries.len() as int) =~= entries@);
    }
    keys
}

/// The keys of an object's entries, in order.
pub open spec fn object_keys(n: AstNode) -> Seq<Seq<char>> {
    match n {
        AstNode::Object { entries, .. } => entries@.map_values(|e: ObjectEntry| e.key@),
        _ => Seq::empty(),
    }
}

/// The keys of every object along a path, path order first, then entry order.
pub open spec fn path_keys(steps: Seq<StepView>) -> Seq<Seq<char>>
    decreases steps.len(),
{
    if steps.len() == 0 {
        Seq::empty()
    } else {
        path_keys(steps.drop_last()) + object_keys(steps.last().0)
    }
}

/// Collects the keys of the objects along a path (the ancestors' keys).
pub fn collect_parent_keys<'a>(path: &'a [NodePathEntry<'a>]) -> (r: Vec<&'a str>)
    ensures
        strs_view(r@) == path_keys(steps_view(path@)),
{
    let mut keys: Vec<&'a str> = Vec::new();
    let mut i: usize = 0;
    while i < path.len()
        invariant
            0 <= i <= path.len(),
            strs_view(keys@) == path_keys(steps_view(path@.take(i as int))),
        decreases path.len() - i,
    {
        proof {
            assert(steps_view(path@.take(i + 1)).drop_last() =~= steps_view(path@.take(i as int)));
        }
        let ghost before = keys@;
        if let AstNode::Object { entries, .. } = path[i].node {
            let mut j: usize = 0;
            while j < entries.len()
                invariant
                    0 <= j <= entries.len(),
                    strs_view(keys@) == strs_view(before) + entries@.take(j as int).map_values(|e: ObjectEntry| e.key@),
                decreases entries.len() - j,
            {
                let ghost kb = keys@;
                keys.push(entries[j].key.as_str());
                proof {
                    assert(strs_view(keys@) =~= strs_view(kb).push(entries@[j as int].key@));
                    assert(entries@.take(j + 1).map_values(|e: ObjectEntry| e.key@) =~= entries@.take(j as int).map_values(
                        |e: ObjectEntry| e.key@,
                    ).push(entries@[j as int].key@));
                    assert(strs_view(keys@) =~= strs_view(before) + entries@.take(j + 1).map_values(|e: ObjectEntry| e.key@));
                }
                j += 1;
            }
            proof {
                assert(entries@.take(entries.len() as int) =~= entries@);
            }
        } else {
            proof {
                assert(strs_view(keys@) =~= strs_view(before) + Seq::<Seq<char>>::empty());
            }
        }
        i += 1;
    }
    proof {
        assert(path@.take(path.len() as int) =~= path@);
    }
    keys
}

/// The key spans of the entries of `es` whose key is `k`, in order.
pub open spec fn key_spans(es: Seq<ObjectEntry>, k: Seq<char>) -> Seq<Span>
    decreases es.len(),
{
    if es.len() == 0 {
        Seq::empty()
    } else {
        key_spans(es.drop_last(), k) + if es.last().key@ == k { seq![es.last().key_span] } else { Seq::empty() }
    }
}

pub open spec fn spans_view(v: Seq<&Span>) -> Seq<Span> {
    v.map_values(|s: &Span| *s)
}

/// The key spans of every definition of `key_name` among `entries`, in order.
pub fn find_key_definitions<'a>(entries: &'a [ObjectEntry], key_name: &str) -> (r: Vec<&'a Span>)
    ensures
        spans_view(r@) == key_spans(entries@, key_name@),
{
    let target = key_name.to_owned();
    let mut spans: Vec<&'a Span> = Vec::new();
    let mut i: usize = 0;
    while i < entries.len()
        invariant
            0 <= i <= entries.len(),
            target@ == key_name@,
            spans_view(spans@) == key_spans(entries@.take(i as int), key_name@),
        decreases entries.len() - i,
    {
        let ghost before = spans@;
        if entries[i].key == target {
            spans.push(&entries[i].key_span);
            proof {
                assert(spans_view(spans@) =~= spans_view(before) + seq![entries@[i as int].key_span]);
            }
        } else {
            proof {
                assert(spans_view(spans@) =~= spans_view(before) + Seq::<Span>::empty());
            }
        }
        proof {
            assert(entries@.take(i + 1).drop_last() =~= entries@.take(i as int));
        }
        i += 1;
    }
    proof {
        assert(entries@.take(entries.len() as int) =~= entries@);
    }
    spans
}

/// Every key of a tree with its span, in document order: an entry's key
/// comes before the keys inside its value.
pub open spec fn node_keys(n: AstNode) -> Seq<(Seq<char>, Span)>
    decreases n,
{
    match n {
        AstNode::Document { children, .. } => nodes_keys(children@),
        AstNode::Object { entries, .. } => entries_keys(entries@),
        AstNode::Array { items, .. } => nodes_keys(items@),
        _ => Seq::empty(),
    }
}

pub open spec fn nodes_keys(s: Seq<AstNode>) -> Seq<(Seq<char>, Span)>
    decreases s,
{
    if s.len() == 0 {
        Seq::empty()
    } else {
        nodes_keys(s.drop_last()) + node_keys(s.last())
    }
}

pub open spec fn entries_keys(s: Seq<ObjectEntry>) -> Seq<(Seq<char>, Span)>
    decreases s,
{
    if s.len() == 0 {
        Seq::empty()
    } else {
        entries_keys(s.drop_last()) + seq![(s.last().key@, s.last().key_span)] + node_keys(s.last().value)
    }
}

pub open spec fn pairs_view(v: Seq<(String, Span)>) -> Seq<(Seq<char>, Span)> {
    v.map_values(|p: (String, Span)| (p.0@, p.1))
}

/// Every key of the document with its span, in document order.
pub fn collect_all_keys(node: &AstNode) -> (r: Vec<(String, Span)>)
    ensures
        pairs_view(r@) == node_keys(*node),
{
    let mut keys: Vec<(String, Span)> = Vec::new();
    keys_of_node(node, &mut keys);
    proof {
        assert(pairs_view(keys@) =~= Seq::<(Seq<char>, Span)>::empty() + node_keys(*node));
    }
    keys
}

fn keys_of_node(node: &AstNode, keys: &mut Vec<(String, Span)>)
    ensures
        pairs_view(final(keys)@) == pairs_view(old(keys)@) + node_keys(*node),
    decreases node,
{
    match node {
        AstNode::Document { children, .. } => keys_of_nodes(children, keys),
        AstNode::Object { entries, .. } => keys_of_entries(entries, keys),
        AstNode::Array { items, .. } => keys_of_nodes(items, keys),
        _ => {
            proof {
                assert(pairs_view(keys@) =~= pairs_view(keys@) + Seq::<(Seq<char>, Span)>::empty());
            }
        },
    }
}

fn keys_of_nodes(nodes: &Vec<AstNode>, keys: &mut Vec<(String, Span)>)
    ensures
        pairs_view(final(keys)@) == pairs_view(old(keys)@) + nodes_keys(nodes@),
    decreases nodes,
{
    let ghost k0 = pairs_view(keys@);
    let mut i: usize = 0;
    while i < nodes.len()
        invariant
            0 <= i <= nodes.len(),
            pairs_view(keys@) == k0 + nodes_keys(nodes@.take(i as int)),
        decreases nodes.len() - i,
    {
        proof {
            assert(nodes@.take(i + 1).drop_last() =~= nodes@.take(i as int));
        }
        keys_of_node(&nodes[i], keys);
        proof {
            assert(k0 + nodes_keys(nodes@.take(i + 1)) =~= k0 + nodes_keys(nodes@.take(i as int)) + node_keys(nodes@[i as int]));
        }
        i += 1;
    }
    proof {
        assert(nodes@.take(nodes.len() as int) =~= nodes@);
    }
}

fn keys_of_entries(entries: &Vec<ObjectEntry>, keys: &mut Vec<(String, Span)>)
    ensures
        pairs_view(final(keys)@) == pairs_view(old(keys)@) + entries_keys(entries@),
    decreases entries,
{
    let ghost k0 = pairs_view(keys@);
    let mut i: usize = 0;
    while i < entries.len()
        invariant
            0 <= i <= entries.len(),
            pairs_view(keys@) == k0 + entries_keys(entries@.take(i as int)),
        decreases entries.len() - i,
    {
        proof {
            assert(entries@.take(i + 1).drop_last() =~= entries@.take(i as int));
        }
        let ghost before = pairs_view(keys@);
        keys.push((entries[i].key.clone(), entries[i].key_span));
        proof {
            assert(pairs_view(keys@) =~= before + seq![(entries@[i as int].key@, entries@[i as int].key_span)]);
        }
        keys_of_node(&entries[i].value, keys);
        proof {
            assert(k0 + entries_keys(entries@.take(i + 1)) =~= k0 + entries_keys(entries@.take(i as int))
                + seq![(entries@[i as int].key@, entries@[i as int].key_span)] + node_keys(entries@[i as int].value));
        }
        i += 1;
    }
    proof {
        assert(entries@.take(entries.len() as int) =~= entries@);
    }
}

} // verus!
