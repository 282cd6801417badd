//! Labels of the Mermaid dependency graph.
use crate::ast::node::{
    entries_view, entry_view, lemma_entries_view_push, lemma_nodes_view_len, lemma_nodes_view_push, node_view,
    nodes_view, EntryView, NodeView,
};
use crate::ast::{AstNode, ObjectEntry};
use crate::lsp::document_highlight::join_all;
use crate::resolve::copy_strings;
use crate::text::push_decimal;
use crate::toon::scalars::strings_view;
use crate::resolve::join_dots;
use crate::text::{chars_of, decimal_digits};
use crate::toon::decoder::distinct_keys;
use vstd::prelude::*;

verus! {

/// The escape of one character in a Mermaid quoted label.
pub open spec fn mermaid_char(c: char) -> Seq<char> {
    if c == '"' {
        "&quot;"@
    } else if c == '\n' || c == '\r' {
        seq![' ']
    } else {
        seq![c]
    }
}

/// The escapes of every character of `s`.
pub open spec fn mermaid_label(s: Seq<char>) -> Seq<char>
    decreases s.len(),
{
    if s.len() == 0 {
        Seq::empty()
    } else {
        mermaid_label(s.drop_last()) + mermaid_char(s.last())
    }
}

/// Escape a key for a Mermaid quoted node label (`["..."]`): a quote becomes
/// `&quot;` and a line break a space.
pub fn escape_mermaid_label(label: &str) -> (out: String)
    ensures
        out@ == mermaid_label(label@),
{
    let v = chars_of(label);
    let mut out = String::new();
    let mut i: usize = 0;
    while i < v.len()
        invariant
            0 <= i <= v.len(),
            v@ == label@,
            out@ == mermaid_label(v@.take(i as int)),
        decreases v.len() - i,
    {
        let ghost before = out@;
        let ch = v[i];
        if ch == '"' {
            out.append("&quot;");
        } else if ch == '\n' || ch == '\r' {
            out.push(' ');
        } else {
            out.push(ch);
        }
        proof {
            reveal_strlit("&quot;");
            assert(out@ =~= before + mermaid_char(ch));
            assert(v@.take(i + 1).drop_last() =~= v@.take(i as int));
        }
        i += 1;
    }
    proof {
        assert(v@.take(v.len() as int) =~= v@);
    }
    out
}

/// The dotted paths a document defines: each object key and each array
/// index, in document order (`a`, `a.b`, `list.0`, ...).
pub open spec fn graph_keys(n: NodeView, path: Seq<Seq<char>>) -> Seq<Seq<char>>
    decreases n,
{
    match n {
        NodeView::Document { children, .. } => graph_keys_list(children, path),
        NodeView::Object { entries, .. } => graph_keys_entries(entries, path),
        NodeView::Array { items, .. } => graph_keys_items(items, path),
        _ => Seq::empty(),
    }
}

pub open spec fn graph_keys_list(s: Seq<NodeView>, path: Seq<Seq<char>>) -> Seq<Seq<char>>
    decreases s,
{
    if s.len() == 0 {
        Seq::empty()
    } else {
        graph_keys_list(s.drop_last(), path) + graph_keys(s.last(), path)
    }
}

pub open spec fn graph_keys_entries(s: Seq<EntryView>, path: Seq<Seq<char>>) -> Seq<Seq<char>>
    decreases s,
{
    if s.len() == 0 {
        Seq::empty()
    } else {
        let p = path.push(s.last().key);
        graph_keys_entries(s.drop_last(), path) + seq![join_dots(p)] + graph_keys(s.last().value, p)
    }
}

pub open spec fn graph_keys_items(s: Seq<NodeView>, path: Seq<Seq<char>>) -> Seq<Seq<char>>
    decreases s,
{
    if s.len() == 0 {
        Seq::empty()
    } else {
        let p = path.push(decimal_digits((s.len() - 1) as nat));
        graph_keys_items(s.drop_last(), path) + seq![join_dots(p)] + graph_keys(s.last(), p)
    }
}

/// The dependency edges: for each reference, its target path and the path
/// of the value that holds it.
pub open spec fn graph_edges(n: NodeView, path: Seq<Seq<char>>) -> Seq<(Seq<char>, Seq<char>)>
    decreases n,
{
    match n {
        NodeView::Document { children, .. } => graph_edges_list(children, path),
        NodeView::Object { entries, .. } => graph_edges_entries(entries, path),
        NodeView::Array { items, .. } => graph_edges_items(items, path),
        NodeView::Reference { path: r, .. } => seq![(r, join_dots(path))],
        _ => Seq::empty(),
    }
}

pub open spec fn graph_edges_list(s: Seq<NodeView>, path: Seq<Seq<char>>) -> Seq<(Seq<char>, Seq<char>)>
    decreases s,
{
    if s.len() == 0 {
        Seq::empty()
    } else {
        graph_edges_list(s.drop_last(), path) + graph_edges(s.last(), path)
    }
}

pub open spec fn graph_edges_entries(s: Seq<EntryView>, path: Seq<Seq<char>>) -> Seq<(Seq<char>, Seq<char>)>
    decreases s,
{
    if s.len() == 0 {
        Seq::empty()
    } else {
        graph_edges_entries(s.drop_last(), path) + graph_edges(s.last().value, path.push(s.last().key))
    }
}

pub open spec fn graph_edges_items(s: Seq<NodeView>, path: Seq<Seq<char>>) -> Seq<(Seq<char>, Seq<char>)>
    decreases s,
{
    if s.len() == 0 {
        Seq::empty()
    } else {
        graph_edges_items(s.drop_last(), path) + graph_edges(s.last(), path.push(decimal_digits((s.len() - 1) as nat)))
    }
}

/// The endpoints of edges, each source before its target.
pub open spec fn edge_points(e: Seq<(Seq<char>, Seq<char>)>) -> Seq<Seq<char>>
    decreases e.len(),
{
    if e.len() == 0 {
        Seq::empty()
    } else {
        edge_points(e.drop_last()) + seq![e.last().0, e.last().1]
    }
}

/// The index of the first `x` in `s` from `i` on (`s.len()` when absent).
pub open spec fn label_index(s: Seq<Seq<char>>, x: Seq<char>, i: int) -> int
    decreases s.len() - i,
{
    if !(0 <= i < s.len()) {
        s.len() as int
    } else if s[i] == x {
        i
    } else {
        label_index(s, x, i + 1)
    }
}

/// The node lines of the first `k` labels: `    nI["label"]`.
pub open spec fn node_lines(labels: Seq<Seq<char>>, k: int) -> Seq<char>
    decreases k,
{
    if k <= 0 {
        Seq::empty()
    } else {
        node_lines(labels, k - 1) + "    n"@ + decimal_digits((k - 1) as nat) + "[\""@ + mermaid_label(labels[k - 1])
            + "\"]\n"@
    }
}

/// The edge lines: `    nI --> nJ`.
pub open spec fn edge_lines(labels: Seq<Seq<char>>, e: Seq<(Seq<char>, Seq<char>)>) -> Seq<char>
    decreases e.len(),
{
    if e.len() == 0 {
        Seq::empty()
    } else {
        edge_lines(labels, e.drop_last()) + "    n"@ + decimal_digits(label_index(labels, e.last().0, 0) as nat)
            + " --> n"@ + decimal_digits(label_index(labels, e.last().1, 0) as nat) + "\n"@
    }
}

/// The Mermaid flowchart of a document: a node for each defined path and
/// each reference endpoint (first appearance order, numbered from 0), then
/// an edge from each reference's target to the path that holds it.
pub open spec fn mermaid_text(n: NodeView) -> Seq<char> {
    let keys = graph_keys(n, Seq::empty());
    let edges = graph_edges(n, Seq::empty());
    let labels = distinct_keys(keys + edge_points(edges));
    "flowchart TD\n"@ + node_lines(labels, labels.len() as int) + edge_lines(labels, edges)
}

proof fn lemma_nodes_take(s: Seq<AstNode>, i: int)
    requires
        0 <= i < s.len(),
    ensures
        nodes_view(s.take(i + 1)) == nodes_view(s.take(i)).push(node_view(s[i])),
        nodes_view(s.take(i + 1)).drop_last() == nodes_view(s.take(i)),
        nodes_view(s.take(i + 1)).last() == node_view(s[i]),
        nodes_view(s.take(i + 1)).len() == i + 1,
{
    assert(s.take(i + 1) =~= s.take(i).push(s[i]));
    lemma_nodes_view_push(s.take(i), s[i]);
    lemma_nodes_view_len(s.take(i));
    assert(nodes_view(s.take(i + 1)).drop_last() =~= nodes_view(s.take(i)));
}

proof fn lemma_entries_take(s: Seq<ObjectEntry>, i: int)
    requires
        0 <= i < s.len(),
    ensures
        entries_view(s.take(i + 1)).drop_last() == entries_view(s.take(i)),
        entries_view(s.take(i + 1)).last() == entry_view(s[i]),
{
    assert(s.take(i + 1) =~= s.take(i).push(s[i]));
    lemma_entries_view_push(s.take(i), s[i]);
    assert(entries_view(s.take(i + 1)).drop_last() =~= entries_view(s.take(i)));
}

/// `path` with `step` added.
fn extended(path: &Vec<String>, step: String) -> (r: Vec<String>)
    ensures
        strings_view(r@) == strings_view(path@).push(step@),
{
    let mut r = copy_strings(path);
    let ghost before = r@;
    r.push(step);
    proof {
        assert(strings_view(r@) =~= strings_view(before).push(step@));
    }
    r
}

/// The decimal text of `n`.
fn decimal_string(n: usize) -> (r: String)
    ensures
        r@ == decimal_digits(n as nat),
{
    let mut r = String::new();
    push_decimal(&mut r, n as u64);
    r
}

fn push_graph_keys(n: &AstNode, path: &Vec<String>, out: &mut Vec<String>)
    ensures
        strings_view(final(out)@) == strings_view(old(out)@) + graph_keys(node_view(*n), strings_view(path@)),
    decreases n,
{
    let ghost base = strings_view(out@);
    match n {
        AstNode::Document { children, .. } => push_keys_list(children, path, out),
        AstNode::Object { entries, .. } => push_keys_entries(entries, path, out),
        AstNode::Array { items, .. } => push_keys_items(items, path, out),
        _ => {
            proof {
                assert(strings_view(out@) =~= base + graph_keys(node_view(*n), strings_view(path@)));
            }
        },
    }
}

fn push_keys_list(s: &Vec<AstNode>, path: &Vec<String>, out: &mut Vec<String>)
    ensures
        strings_view(final(out)@) == strings_view(old(out)@) + graph_keys_list(nodes_view(s@), strings_view(path@)),
    decreases s,
{
    let ghost base = strings_view(out@);
    let ghost pv = strings_view(path@);
    let mut i: usize = 0;
    proof {
        assert(s@.take(0) =~= Seq::<AstNode>::empty());
        assert(base + graph_keys_list(nodes_view(s@.take(0)), pv) =~= base);
    }
    while i < s.len()
        invariant
            0 <= i <= s.len(),
            pv == strings_view(path@),
            strings_view(out@) == base + graph_keys_list(nodes_view(s@.take(i as int)), pv),
        decreases s.len() - i,
    {
        push_graph_keys(&s[i], path, out);
        proof {
            lemma_nodes_take(s@, i as int);
            assert(strings_view(out@) =~= base + graph_keys_list(nodes_view(s@.take(i + 1)), pv));
        }
        i += 1;
    }
    proof {
        assert(s@.take(s.len() as int) =~= s@);
    }
}

fn push_keys_entries(s: &Vec<ObjectEntry>, path: &Vec<String>, out: &mut Vec<String>)
    ensures
        strings_view(final(out)@) == strings_view(old(out)@) + graph_keys_entries(entries_view(s@), strings_view(path@)),
    decreases s,
{
    let ghost base = strings_view(out@);
    let ghost pv = strings_view(path@);
    let mut i: usize = 0;
    proof {
        assert(s@.take(0) =~= Seq::<ObjectEntry>::empty());
        assert(base + graph_keys_entries(entries_view(s@.take(0)), pv) =~= base);
    }
    while i < s.len()
        invariant
            0 <= i <= s.len(),
            pv == strings_view(path@),
            strings_view(out@) == base + graph_keys_entries(entries_view(s@.take(i as int)), pv),
        decreases s.len() - i,
    {
        let p = extended(path, s[i].key.clone());
        let ghost mid = strings_view(out@);
        out.push(join_all(&p));
        proof {
            assert(strings_view(out@) =~= mid + seq![join_dots(strings_view(p@))]);
        }
        push_graph_keys(&s[i].value, &p, out);
        proof {
            lemma_entries_take(s@, i as int);
            assert(strings_view(out@) =~= base + graph_keys_entries(entries_view(s@.take(i + 1)), pv));
        }
        i += 1;
    }
    proof {
        assert(s@.take(s.len() as int) =~= s@);
    }
}

fn push_keys_items(s: &Vec<AstNode>, path: &Vec<String>, out: &mut Vec<String>)
    ensures
        strings_view(final(out)@) == strings_view(old(out)@) + graph_keys_items(nodes_view(s@), strings_view(path@)),
    decreases s,
{
    let ghost base = strings_view(out@);
    let ghost pv = strings_view(path@);
    let mut i: usize = 0;
    proof {
        assert(s@.take(0) =~= Seq::<AstNode>::empty());
        assert(base + graph_keys_items(nodes_view(s@.take(0)), pv) =~= base);
    }
    while i < s.len()
        invariant
            0 <= i <= s.len(),
            pv == strings_view(path@),
            strings_view(out@) == base + graph_keys_items(nodes_view(s@.take(i as int)), pv),
        decreases s.len() - i,
    {
        let p = extended(path, decimal_string(i));
        let ghost mid = strings_view(out@);
        out.push(join_all(&p));
        proof {
            assert(strings_view(out@) =~= mid + seq![join_dots(strings_view(p@))]);
        }
        push_graph_keys(&s[i], &p, out);
        proof {
            lemma_nodes_take(s@, i as int);
            assert(strings_view(out@) =~= base + graph_keys_items(nodes_view(s@.take(i + 1)), pv));
        }
        i += 1;
    }
    proof {
        assert(s@.take(s.len() as int) =~= s@);
    }
}

/// The model of string pairs.
pub open spec fn pairs_view(v: Seq<(String, String)>) -> Seq<(Seq<char>, Seq<char>)> {
    v.map_values(|p: (String, String)| (p.0@, p.1@))
}

fn push_graph_edges(n: &AstNode, path: &Vec<String>, out: &mut Vec<(String, String)>)
    ensures
        pairs_view(final(out)@) == pairs_view(old(out)@) + graph_edges(node_view(*n), strings_view(path@)),
    decreases n,
{
    let ghost base = pairs_view(out@);
    match n {
        AstNode::Document { children, .. } => push_edges_list(children, path, out),
        AstNode::Object { entries, .. } => push_edges_entries(entries, path, out),
        AstNode::Array { items, .. } => push_edges_items(items, path, out),
        AstNode::Reference { path: r, .. } => {
            let holder = join_all(path);
            out.push((r.clone(), holder));
            proof {
                assert(pairs_view(out@) =~= base + graph_edges(node_view(*n), strings_view(path@)));
            }
        },
        _ => {
            proof {
                assert(pairs_view(out@) =~= base + graph_edges(node_view(*n), strings_view(path@)));
            }
        },
    }
}

fn push_edges_list(s: &Vec<AstNode>, path: &Vec<String>, out: &mut Vec<(String, String)>)
    ensures
        pairs_view(final(out)@) == pairs_view(old(out)@) + graph_edges_list(nodes_view(s@), strings_view(path@)),
    decreases s,
{
    let ghost base = pairs_view(out@);
    let ghost pv = strings_view(path@);
    let mut i: usize = 0;
    proof {
        assert(s@.take(0) =~= Seq::<AstNode>::empty());
        assert(base + graph_edges_list(nodes_view(s@.take(0)), pv) =~= base);
    }
    while i < s.len()
        invariant
            0 <= i <= s.len(),
            pv == strings_view(path@),
            pairs_view(out@) == base + graph_edges_list(nodes_view(s@.take(i as int)), pv),
        decreases s.len() - i,
    {
        push_graph_edges(&s[i], path, out);
        proof {
            lemma_nodes_take(s@, i as int);
            assert(pairs_view(out@) =~= base + graph_edges_list(nodes_view(s@.take(i + 1)), pv));
        }
        i += 1;
    }
    proof {
        assert(s@.take(s.len() as int) =~= s@);
    }
}

fn push_edges_entries(s: &Vec<ObjectEntry>, path: &Vec<String>, out: &mut Vec<(String, String)>)
    ensures
        pairs_view(final(out)@) == pairs_view(old(out)@) + graph_edges_entries(entries_view(s@), strings_view(path@)),
    decreases s,
{
    let ghost base = pairs_view(out@);
    let ghost pv = strings_view(path@);
    let mut i: usize = 0;
    proof {
        assert(s@.take(0) =~= Seq::<ObjectEntry>::empty());
        assert(base + graph_edges_entries(entries_view(s@.take(0)), pv) =~= base);
    }
    while i < s.len()
        invariant
            0 <= i <= s.len(),
            pv == strings_view(path@),
            pairs_view(out@) == base + graph_edges_entries(entries_view(s@.take(i as int)), pv),
        decreases s.len() - i,
    {
        let p = extended(path, s[i].key.clone());
        push_graph_edges(&s[i].value, &p, out);
        proof {
            lemma_entries_take(s@, i as int);
            assert(pairs_view(out@) =~= base + graph_edges_entries(entries_view(s@.take(i + 1)), pv));
        }
        i += 1;
    }
    proof {
        assert(s@.take(s.len() as int) =~= s@);
    }
}

fn push_edges_items(s: &Vec<AstNode>, path: &Vec<String>, out: &mut Vec<(String, String)>)
    ensures
        pairs_view(final(out)@) == pairs_view(old(out)@) + graph_edges_items(nodes_view(s@), strings_view(path@)),
    decreases s,
{
    let ghost base = pairs_view(out@);
    let ghost pv = strings_view(path@);
    let mut i: usize = 0;
    proof {
        assert(s@.take(0) =~= Seq::<AstNode>::empty());
        assert(base + graph_edges_items(nodes_view(s@.take(0)), pv) =~= base);
    }
    while i < s.len()
        invariant
            0 <= i <= s.len(),
            pv == strings_view(path@),
            pairs_view(out@) == base + graph_edges_items(nodes_view(s@.take(i as int)), pv),
        decreases s.len() - i,
    {
        let p = extended(path, decimal_string(i));
        push_graph_edges(&s[i], &p, out);
        proof {
            lemma_nodes_take(s@, i as int);
            assert(pairs_view(out@) =~= base + graph_edges_items(nodes_view(s@.take(i + 1)), pv));
        }
        i += 1;
    }
    proof {
        assert(s@.take(s.len() as int) =~= s@);
    }
}

/// The index of the first `x` among `labels`.
fn find_label(labels: &Vec<String>, x: &String) -> (r: usize)
    ensures
        r as int == label_index(strings_view(labels@), x@, 0),
{
    let ghost lv = strings_view(labels@);
    let mut i: usize = 0;
    while i < labels.len()
        invariant
            0 <= i <= labels.len(),
            lv == strings_view(labels@),
            label_index(lv, x@, i as int) == label_index(lv, x@, 0),
        decreases labels.len() - i,
    {
        if labels[i] == *x {
            return i;
        }
        i += 1;
    }
    i
}

/// Generates the Mermaid flowchart of a document's reference dependencies.
pub fn generate_mermaid_graph(ast: &AstNode, _source: &str) -> (s: String)
    ensures
        s@ == mermaid_text(node_view(*ast)),
{
    let root_path: Vec<String> = Vec::new();
    let ghost e = strings_view(root_path@);
    proof {
        assert(e =~= Seq::<Seq<char>>::empty());
    }
    let mut keys: Vec<String> = Vec::new();
    proof {
        assert(strings_view(keys@) =~= Seq::<Seq<char>>::empty());
    }
    push_graph_keys(ast, &root_path, &mut keys);
    let mut edges: Vec<(String, String)> = Vec::new();
    proof {
        assert(pairs_view(edges@) =~= Seq::<(Seq<char>, Seq<char>)>::empty());
    }
    push_graph_edges(ast, &root_path, &mut edges);
    let ghost kv = graph_keys(node_view(*ast), Seq::empty());
    let ghost ev = graph_edges(node_view(*ast), Seq::empty());
    proof {
        assert(strings_view(keys@) =~= kv);
        assert(pairs_view(edges@) =~= ev);
    }
    // All labels in order of appearance.
    let mut pts = copy_strings(&keys);
    let mut j: usize = 0;
    proof {
        assert(ev.take(0) =~= Seq::<(Seq<char>, Seq<char>)>::empty());
        assert(strings_view(pts@) =~= kv + edge_points(ev.take(0)));
    }
    while j < edges.len()
        invariant
            0 <= j <= edges.len(),
            ev == pairs_view(edges@),
            strings_view(pts@) == kv + edge_points(ev.take(j as int)),
        decreases edges.len() - j,
    {
        let ghost before = pts@;
        let a = edges[j].0.clone();
        let b = edges[j].1.clone();
        pts.push(a);
        pts.push(b);
        proof {
            assert(pts@ == before.push(a).push(b));
            assert(strings_view(pts@) =~= strings_view(before) + seq![a@, b@]);
            assert(edge_points(ev.take(j + 1)) == edge_points(ev.take(j + 1).drop_last()) + seq![
                ev.take(j + 1).last().0,
                ev.take(j + 1).last().1,
            ]);
            assert(ev.take(j + 1).drop_last() =~= ev.take(j as int));
            assert(ev.take(j + 1).last() == (edges@[j as int].0@, edges@[j as int].1@));
            assert(strings_view(pts@) =~= kv + edge_points(ev.take(j + 1)));
        }
        j += 1;
    }
    let ghost all = strings_view(pts@);
    proof {
        assert(ev.take(edges.len() as int) =~= ev);
    }
    let mut labels: Vec<String> = Vec::new();
    let mut k: usize = 0;
    proof {
        assert(all.take(0) =~= Seq::<Seq<char>>::empty());
        assert(strings_view(labels@) =~= distinct_keys(all.take(0)));
    }
    while k < pts.len()
        invariant
            0 <= k <= pts.len(),
            all == strings_view(pts@),
            strings_view(labels@) == distinct_keys(all.take(k as int)),
        decreases pts.len() - k,
    {
        let idx = find_label(&labels, &pts[k]);
        let ghost before = labels@;
        proof {
            assert(all.take(k + 1).drop_last() =~= all.take(k as int));
            assert(all.take(k + 1).last() == pts@[k as int]@);
            lemma_label_index(strings_view(labels@), pts@[k as int]@, 0);
        }
        if idx == labels.len() {
            labels.push(pts[k].clone());
            proof {
                assert(strings_view(labels@) =~= strings_view(before).push(pts@[k as int]@));
            }
        }
        k += 1;
    }
    let ghost lv = strings_view(labels@);
    proof {
        assert(all.take(pts.len() as int) =~= all);
    }
    let mut out = String::from_str("flowchart TD\n");
    let mut n: usize = 0;
    while n < labels.len()
        invariant
            0 <= n <= labels.len(),
            lv == strings_view(labels@),
            out@ == "flowchart TD\n"@ + node_lines(lv, n as int),
        decreases labels.len() - n,
    {
        out.append("    n");
        push_decimal(&mut out, n as u64);
        out.append("[\"");
        let label = escape_mermaid_label(labels[n].as_str());
        out.append(label.as_str());
        out.append("\"]\n");
        proof {
            assert(out@ =~= "flowchart TD\n"@ + node_lines(lv, n + 1));
        }
        n += 1;
    }
    let mut m: usize = 0;
    proof {
        assert(ev.take(0) =~= Seq::<(Seq<char>, Seq<char>)>::empty());
    }
    while m < edges.len()
        invariant
            0 <= m <= edges.len(),
            lv == strings_view(labels@),
            ev == pairs_view(edges@),
            out@ == "flowchart TD\n"@ + node_lines(lv, lv.len() as int) + edge_lines(lv, ev.take(m as int)),
        decreases edges.len() - m,
    {
        let a = find_label(&labels, &edges[m].0);
        let b = find_label(&labels, &edges[m].1);
        out.append("    n");
        push_decimal(&mut out, a as u64);
        out.append(" --> n");
        push_decimal(&mut out, b as u64);
        out.append("\n");
        proof {
            assert(ev.take(m + 1).drop_last() =~= ev.take(m as int));
            assert(ev.take(m + 1).last() == (edges@[m as int].0@, edges@[m as int].1@));
            assert(out@ =~= "flowchart TD\n"@ + node_lines(lv, lv.len() as int) + edge_lines(lv, ev.take(m + 1)));
        }
        m += 1;
    }
    proof {
        assert(ev.take(edges.len() as int) =~= ev);
    }
    out
}

proof fn lemma_label_index(s: Seq<Seq<char>>, x: Seq<char>, i: int)
    requires
        0 <= i <= s.len(),
    ensures
        i <= label_index(s, x, i) <= s.len(),
        label_index(s, x, i) < s.len() ==> s[label_index(s, x, i)] == x,
        label_index(s, x, i) == s.len() ==> forall|k: int| i <= k < s.len() ==> s[k] != x,
    decreases s.len() - i,
{
    if i < s.len() && s[i] != x {
        lemma_label_index(s, x, i + 1);
    }
}

} // verus!
