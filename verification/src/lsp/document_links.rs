//! Document links: string values that are URLs or absolute file paths.
use crate::text::{is_white_space_char, white_space};
use crate::ast::{AstNode, ObjectEntry, Span};
use crate::text::chars_of;
use vstd::prelude::*;

verus! {

/// A link: the span of the string value, the URL it leads to, and a tooltip.
#[derive(Debug, Clone)]
pub struct DocumentLink {
    /// Span of the string value
    pub span: Span,
    /// The URL, as the URL parser writes it
    pub target: String,
    /// `Open` and the value
    pub tooltip: String,
}

/// What the URL parser (`url::Url::parse`) makes of a text: the URL in
/// its written form, or nothing when the text is not a URL.
pub uninterp spec fn parsed_url(s: Seq<char>) -> Option<Seq<char>>;

/// `url::Url::parse` (as `tower_lsp::lsp_types::Url::parse`), the result
/// written out with its `Display`: the contract ties the result to the
/// text through `parsed_url` and claims nothing else of it.
#[verifier::external_body]
fn parse_url(s: &str) -> (r: Option<String>)
    ensures
        match r {
            Some(u) => parsed_url(s@) == Some(u@),
            None => parsed_url(s@) is None,
        },
{
    tower_lsp::lsp_types::Url::parse(s).ok().map(|u| u.to_string())
}

pub open spec fn trim_start(s: Seq<char>) -> Seq<char>
    decreases s.len(),
{
    if s.len() > 0 && white_space(s[0]) {
        trim_start(s.drop_first())
    } else {
        s
    }
}

pub open spec fn trim_end(s: Seq<char>) -> Seq<char>
    decreases s.len(),
{
    if s.len() > 0 && white_space(s.last()) {
        trim_end(s.drop_last())
    } else {
        s
    }
}

/// `s` without leading and trailing white space (`str::trim`).
pub open spec fn trimmed(s: Seq<char>) -> Seq<char> {
    trim_end(trim_start(s))
}

pub open spec fn starts_with(s: Seq<char>, p: Seq<char>) -> bool {
    s.len() >= p.len() && s.take(p.len() as int) == p
}

/// The target of a string value: a trimmed value starting with `http://`,
/// `https://` or `ftp://` as parsed; one starting with `file://` as parsed;
/// one starting with `/` parsed after a `file://` prefix; nothing else.
pub open spec fn link_target(value: Seq<char>) -> Option<Seq<char>> {
    let t = trimmed(value);
    if starts_with(t, "http://"@) || starts_with(t, "https://"@) || starts_with(t, "ftp://"@) {
        parsed_url(t)
    } else if starts_with(t, "file://"@) {
        parsed_url(t)
    } else if starts_with(t, "/"@) {
        parsed_url("file://"@ + t)
    } else {
        None
    }
}

pub type LinkView = (Span, Seq<char>, Seq<char>);

pub open spec fn link_view(l: DocumentLink) -> LinkView {
    (l.span, l.target@, l.tooltip@)
}

/// The links of a node, in document order: one for each string value (in
/// objects, arrays and the document) that has a target.
pub open spec fn node_links(n: AstNode) -> Seq<LinkView>
    decreases n,
{
    match n {
        AstNode::Document { children, .. } => nodes_links(children@),
        AstNode::Object { entries, .. } => entries_links(entries@),
        AstNode::Array { items, .. } => nodes_links(items@),
        AstNode::String { value, span } => match link_target(value@) {
            Some(u) => seq![(span, u, "Open "@ + value@)],
            None => Seq::empty(),
        },
        _ => Seq::empty(),
    }
}

pub open spec fn nodes_links(s: Seq<AstNode>) -> Seq<LinkView>
    decreases s,
{
    if s.len() == 0 {
        Seq::empty()
    } else {
        nodes_links(s.drop_last()) + node_links(s.last())
    }
}

pub open spec fn entries_links(s: Seq<ObjectEntry>) -> Seq<LinkView>
    decreases s,
{
    if s.len() == 0 {
        Seq::empty()
    } else {
        entries_links(s.drop_last()) + node_links(s.last().value)
    }
}

proof fn lemma_trim_start_skip(s: Seq<char>, i: int)
    requires
        0 <= i <= s.len(),
        forall|j: int| 0 <= j < i ==> white_space(#[trigger] s[j]),
    ensures
        trim_start(s) == trim_start(s.skip(i)),
    decreases i,
{
    if i > 0 {
        assert(s.drop_first().skip(i - 1) =~= s.skip(i));
        assert forall|j: int| 0 <= j < i - 1 implies white_space(#[trigger] s.drop_first()[j]) by {
            assert(s.drop_first()[j] == s[j + 1]);
        }
        lemma_trim_start_skip(s.drop_first(), i - 1);
    } else {
        assert(s.skip(0) =~= s);
    }
}

proof fn lemma_trim_end_take(s: Seq<char>, k: int)
    requires
        0 <= k <= s.len(),
        forall|j: int| k <= j < s.len() ==> white_space(#[trigger] s[j]),
    ensures
        trim_end(s) == trim_end(s.take(k)),
    decreases s.len() - k,
{
    if k < s.len() {
        assert(s.drop_last().take(k) =~= s.take(k));
        lemma_trim_end_take(s.drop_last(), k);
    } else {
        assert(s.take(k) =~= s);
    }
}

/// The trimmed characters of `v`.
fn trim_chars(v: &Vec<char>) -> (r: Vec<char>)
    ensures
        r@ == trimmed(v@),
{
    let mut a: usize = 0;
    while a < v.len() && is_white_space_char(v[a])
        invariant
            0 <= a <= v.len(),
            forall|j: int| 0 <= j < a ==> white_space(#[trigger] v@[j]),
        decreases v.len() - a,
    {
        a += 1;
    }
    proof {
        lemma_trim_start_skip(v@, a as int);
    }
    let mut b: usize = v.len();
    while b > a && is_white_space_char(v[b - 1])
        invariant
            a <= b <= v.len(),
            forall|j: int| b <= j < v.len() ==> white_space(#[trigger] v@[j]),
        decreases b,
    {
        b -= 1;
    }
    let ghost t = v@.skip(a as int);
    proof {
        assert(trim_start(t) == t) by {
            if t.len() > 0 {
                assert(t[0] == v@[a as int]);
            }
        }
        assert forall|j: int| b - a <= j < t.len() implies white_space(#[trigger] t[j]) by {
            assert(t[j] == v@[a + j]);
        }
        lemma_trim_end_take(t, b - a);
        let u = t.take(b - a);
        if u.len() > 0 {
            assert(u.last() == v@[b - 1]);
        }
        assert(trim_end(u) == u);
    }
    let mut out: Vec<char> = Vec::new();
    let mut i = a;
    while i < b
        invariant
            a <= i <= b <= v.len(),
            out@ == v@.subrange(a as int, i as int),
        decreases b - i,
    {
        out.push(v[i]);
        proof {
            assert(out@ =~= v@.subrange(a as int, i + 1));
        }
        i += 1;
    }
    proof {
        assert(out@ =~= t.take(b - a));
    }
    out
}

fn starts_with_exec(v: &Vec<char>, p: &str) -> (b: bool)
    ensures
        b == starts_with(v@, p@),
{
    let w = chars_of(p);
    if v.len() < w.len() {
        return false;
    }
    let r = crate::text::range_equals(v, 0, w.len(), &w);
    proof {
        assert(v@.subrange(0, w.len() as int) =~= v@.take(w.len() as int));
    }
    r
}

fn string_of_chars(v: &Vec<char>) -> (s: String)
    ensures
        s@ == v@,
{
    let r = crate::text::string_of(v, 0, v.len());
    proof {
        assert(v@.subrange(0, v.len() as int) =~= v@);
    }
    r
}

/// The target of a string value (see `link_target`).
pub fn detect_url(value: &str) -> (r: Option<String>)
    ensures
        match r {
            Some(u) => link_target(value@) == Some(u@),
            None => link_target(value@) is None,
        },
{
    let v = chars_of(value);
    let t = trim_chars(&v);
    let ts = string_of_chars(&t);
    if starts_with_exec(&t, "http://") || starts_with_exec(&t, "https://") || starts_with_exec(&t, "ftp://") {
        return parse_url(ts.as_str());
    }
    if starts_with_exec(&t, "file://") {
        return parse_url(ts.as_str());
    }
    if starts_with_exec(&t, "/") {
        let mut url_str = String::from_str("file://");
        url_str.append(ts.as_str());
        return parse_url(url_str.as_str());
    }
    None
}

/// The links of a document, in document order.
pub fn collect_document_links(ast: &AstNode) -> (r: Vec<DocumentLink>)
    ensures
        r@.map_values(|l: DocumentLink| link_view(l)) == node_links(*ast),
{
    let mut links: Vec<DocumentLink> = Vec::new();
    links_of_node(ast, &mut links);
    proof {
        assert(links@.map_values(|l: DocumentLink| link_view(l)) =~= Seq::<LinkView>::empty() + node_links(*ast));
    }
    links
}

pub open spec fn links_view(s: Seq<DocumentLink>) -> Seq<LinkView> {
    s.map_values(|l: DocumentLink| link_view(l))
}

fn links_of_node(node: &AstNode, links: &mut Vec<DocumentLink>)
    ensures
        links_view(final(links)@) == links_view(old(links)@) + node_links(*node),
    decreases node,
{
    let ghost before = links_view(links@);
    match node {
        AstNode::Document { children, .. } => links_of_nodes(children, links),
        AstNode::Object { entries, .. } => links_of_entries(entries, links),
        AstNode::Array { items, .. } => links_of_nodes(items, links),
        AstNode::String { value, span } => {
            match detect_url(value.as_str()) {
                Some(url) => {
                    let mut tooltip = String::from_str("Open ");
                    tooltip.append(value.as_str());
                    links.push(DocumentLink { span: *span, target: url, tooltip });
                    proof {
                        assert(links_view(links@) =~= before + node_links(*node));
                    }
                },
                None => {
                    proof {
                        assert(links_view(links@) =~= before + node_links(*node));
                    }
                },
            }
        },
        _ => {
            proof {
                assert(links_view(links@) =~= before + node_links(*node));
            }
        },
    }
}

fn links_of_nodes(nodes: &Vec<AstNode>, links: &mut Vec<DocumentLink>)
    ensures
        links_view(final(links)@) == links_view(old(links)@) + nodes_links(nodes@),
    decreases nodes,
{
    let ghost l0 = links_view(links@);
    let mut i: usize = 0;
    while i < nodes.len()
        invariant
            0 <= i <= nodes.len(),
            links_view(links@) == l0 + nodes_links(nodes@.take(i as int)),
        decreases nodes.len() - i,
    {
        proof {
            assert(nodes@.take(i + 1).drop_last() =~= nodes@.take(i as int));
        }
        links_of_node(&nodes[i], links);
        proof {
            assert(l0 + nodes_links(nodes@.take(i + 1)) =~= l0 + nodes_links(nodes@.take(i as int)) + node_links(
                nodes@[i as int],
            ));
        }
        i += 1;
    }
    proof {
        assert(nodes@.take(nodes.len() as int) =~= nodes@);
    }
}

fn links_of_entries(entries: &Vec<ObjectEntry>, links: &mut Vec<DocumentLink>)
    ensures
        links_view(final(links)@) == links_view(old(links)@) + entries_links(entries@),
    decreases entries,
{
    let ghost l0 = links_view(links@);
    let mut i: usize = 0;
    while i < entries.len()
        invariant
            0 <= i <= entries.len(),
            links_view(links@) == l0 + entries_links(entries@.take(i as int)),
        decreases entries.len() - i,
    {
        proof {
            assert(entries@.take(i + 1).drop_last() =~= entries@.take(i as int));
        }
        links_of_node(&entries[i].value, links);
        proof {
            assert(l0 + entries_links(entries@.take(i + 1)) =~= l0 + entries_links(entries@.take(i as int)) + node_links(
                entries@[i as int].value,
            ));
        }
        i += 1;
    }
    proof {
        assert(entries@.take(entries.len() as int) =~= entries@);
    }
}

} // verus!
