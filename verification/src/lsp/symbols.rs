//! Document symbols: the outline of a document, one symbol per key, with
//! the keys inside its value as children.
use super::formatting::{number_text, push_number, table_view};
use super::hover::{bool_text, cut_ok, cut_safe, preview, push_bool, push_preview};
use crate::ast::{AstNode, ObjectEntry, Span};
use crate::text::{decimal_digits, push_decimal};
use vstd::prelude::*;

verus! {

/// The kind of a document symbol.
#[derive(Debug, Clone, Copy, PartialEq, Eq, Structural)]
pub enum DocSymbolKind {
    /// An object value, or an object among array items
    Object,
    /// An array value, or an array among array items
    Array,
    /// A key with a scalar value
    Key,
}

/// A document symbol; ranges are source spans.
#[derive(Debug)]
pub struct DocumentSymbol {
    /// The key, or `[i]` for the `i`-th array item
    pub name: String,
    /// A short description of the value
    pub detail: String,
    /// What it is
    pub kind: DocSymbolKind,
    /// From the key to the end of the value
    pub range: Span,
    /// The key
    pub selection_range: Span,
    /// The symbols inside, when there are any
    pub children: Option<Vec<DocumentSymbol>>,
}

/// The model of a document symbol.
pub struct DocSymbolView {
    pub name: Seq<char>,
    pub detail: Seq<char>,
    pub kind: DocSymbolKind,
    pub range: Span,
    pub selection_range: Span,
    pub children: Option<Seq<DocSymbolView>>,
}

pub open spec fn doc_symbol_view(s: DocumentSymbol) -> DocSymbolView
    decreases s,
{
    DocSymbolView {
        name: s.name@,
        detail: s.detail@,
        kind: s.kind,
        range: s.range,
        selection_range: s.selection_range,
        children: match s.children {
            Some(c) => Some(doc_symbols_view(c@)),
            None => None,
        },
    }
}

pub open spec fn doc_symbols_view(s: Seq<DocumentSymbol>) -> Seq<DocSymbolView>
    decreases s,
{
    if s.len() == 0 {
        Seq::empty()
    } else {
        doc_symbols_view(s.drop_last()).push(doc_symbol_view(s.last()))
    }
}

proof fn lemma_doc_symbols_push(s: Seq<DocumentSymbol>, x: DocumentSymbol)
    ensures
        doc_symbols_view(s.push(x)) == doc_symbols_view(s).push(doc_symbol_view(x)),
{
    assert(s.push(x).drop_last() =~= s);
}

/// `Some` of a non-empty sequence, `None` of an empty one.
pub open spec fn nonempty(s: Seq<DocSymbolView>) -> Option<Seq<DocSymbolView>> {
    if s.len() == 0 {
        None
    } else {
        Some(s)
    }
}

/// The description of a value beside its key.
pub open spec fn value_detail(v: AstNode, table: Seq<(Seq<char>, Seq<char>)>) -> Seq<char> {
    match v {
        AstNode::String { value, .. } => "\""@ + preview(value@, 30, 27) + "\""@,
        AstNode::Number { value, .. } => number_text(value@, table),
        AstNode::Bool { value, .. } => bool_text(value),
        AstNode::Null { .. } => "null"@,
        AstNode::Reference { path, .. } => "${"@ + path@ + "}"@,
        AstNode::Object { entries, .. } => "object ("@ + decimal_digits(entries@.len()) + " entries)"@,
        AstNode::Array { items, .. } => "array ("@ + decimal_digits(items@.len()) + " items)"@,
        AstNode::Document { children, .. } => "document ("@ + decimal_digits(children@.len()) + " children)"@,
    }
}

/// The symbol of an object entry: an object or array value gives an object
/// or array symbol with the symbols inside it; a scalar gives a key symbol.
pub open spec fn entry_doc_symbol(e: ObjectEntry, table: Seq<(Seq<char>, Seq<char>)>) -> DocSymbolView
    decreases e,
{
    let (kind, children) = match e.value {
        AstNode::Object { entries, .. } => (DocSymbolKind::Object, nonempty(entries_doc_symbols(entries@, table))),
        AstNode::Array { items, .. } => (DocSymbolKind::Array, nonempty(items_doc_symbols(items@, table))),
        _ => (DocSymbolKind::Key, None),
    };
    DocSymbolView {
        name: e.key@,
        detail: value_detail(e.value, table),
        kind,
        range: Span { start: e.key_span.start, end: e.value.spec_span().end },
        selection_range: e.key_span,
        children,
    }
}

pub open spec fn entries_doc_symbols(s: Seq<ObjectEntry>, table: Seq<(Seq<char>, Seq<char>)>) -> Seq<DocSymbolView>
    decreases s,
{
    if s.len() == 0 {
        Seq::empty()
    } else {
        entries_doc_symbols(s.drop_last(), table).push(entry_doc_symbol(s.last(), table))
    }
}

pub open spec fn index_name(i: nat) -> Seq<char> {
    seq!['['] + decimal_digits(i) + seq![']']
}

/// The symbols of the array items `s`: an object item gives an `[i]`
/// object symbol with its entries' symbols, an array item an `[i]` array
/// symbol without children, a scalar item none.
pub open spec fn items_doc_symbols(s: Seq<AstNode>, table: Seq<(Seq<char>, Seq<char>)>) -> Seq<DocSymbolView>
    decreases s,
{
    if s.len() == 0 {
        Seq::empty()
    } else {
        let i = (s.len() - 1) as nat;
        items_doc_symbols(s.drop_last(), table) + match s.last() {
            AstNode::Object { entries, span } => seq![
                DocSymbolView {
                    name: index_name(i),
                    detail: "object with "@ + decimal_digits(entries@.len()) + " entries"@,
                    kind: DocSymbolKind::Object,
                    range: span,
                    selection_range: span,
                    children: nonempty(entries_doc_symbols(entries@, table)),
                },
            ],
            AstNode::Array { items, span, .. } => seq![
                DocSymbolView {
                    name: index_name(i),
                    detail: "array with "@ + decimal_digits(items@.len()) + " items"@,
                    kind: DocSymbolKind::Array,
                    range: span,
                    selection_range: span,
                    children: None,
                },
            ],
            _ => Seq::empty(),
        }
    }
}

/// The outline of a document: the symbols of the entries of its objects.
pub open spec fn document_doc_symbols(ast: AstNode, table: Seq<(Seq<char>, Seq<char>)>) -> Seq<DocSymbolView> {
    match ast {
        AstNode::Document { children, .. } => top_doc_symbols(children@, table),
        AstNode::Object { entries, .. } => entries_doc_symbols(entries@, table),
        _ => Seq::empty(),
    }
}

pub open spec fn top_doc_symbols(s: Seq<AstNode>, table: Seq<(Seq<char>, Seq<char>)>) -> Seq<DocSymbolView>
    decreases s.len(),
{
    if s.len() == 0 {
        Seq::empty()
    } else {
        top_doc_symbols(s.drop_last(), table) + match s.last() {
            AstNode::Object { entries, .. } => entries_doc_symbols(entries@, table),
            _ => Seq::empty(),
        }
    }
}

/// Whether every value the outline describes can be cut as its preview
/// needs.
pub open spec fn entries_details_safe(s: Seq<ObjectEntry>) -> bool
    decreases s,
{
    if s.len() == 0 {
        true
    } else {
        entries_details_safe(s.drop_last()) && entry_details_safe(s.last())
    }
}

pub open spec fn entry_details_safe(e: ObjectEntry) -> bool
    decreases e,
{
    &&& cut_safe(e.value, 30, 27)
    &&& match e.value {
        AstNode::Object { entries, .. } => entries_details_safe(entries@),
        AstNode::Array { items, .. } => items_details_safe(items@),
        _ => true,
    }
}

pub open spec fn items_details_safe(s: Seq<AstNode>) -> bool
    decreases s,
{
    if s.len() == 0 {
        true
    } else {
        items_details_safe(s.drop_last()) && match s.last() {
            AstNode::Object { entries, .. } => entries_details_safe(entries@),
            _ => true,
        }
    }
}

pub open spec fn top_details_safe(s: Seq<AstNode>) -> bool
    decreases s.len(),
{
    if s.len() == 0 {
        true
    } else {
        top_details_safe(s.drop_last()) && match s.last() {
            AstNode::Object { entries, .. } => entries_details_safe(entries@),
            _ => true,
        }
    }
}

pub open spec fn details_safe(ast: AstNode) -> bool {
    match ast {
        AstNode::Document { children, .. } => top_details_safe(children@),
        AstNode::Object { entries, .. } => entries_details_safe(entries@),
        _ => true,
    }
}

fn push_value_detail(out: &mut String, v: &AstNode, table: &Vec<(String, String)>)
    requires
        cut_safe(*v, 30, 27),
    ensures
        final(out)@ == old(out)@ + value_detail(*v, table_view(table@)),
{
    match v {
        AstNode::String { value, .. } => {
            out.append("\"");
            push_preview(out, value, 30, 27);
            out.append("\"");
        },
        AstNode::Number { value, .. } => push_number(out, value, table),
        AstNode::Bool { value, .. } => push_bool(out, *value),
        AstNode::Null { .. } => out.append("null"),
        AstNode::Reference { path, .. } => {
            out.append("${");
            out.append(path.as_str());
            out.append("}");
        },
        AstNode::Object { entries, .. } => {
            out.append("object (");
            push_decimal(out, entries.len() as u64);
            out.append(" entries)");
        },
        AstNode::Array { items, .. } => {
            out.append("array (");
            push_decimal(out, items.len() as u64);
            out.append(" items)");
        },
        AstNode::Document { children, .. } => {
            out.append("document (");
            push_decimal(out, children.len() as u64);
            out.append(" children)");
        },
    }
}

fn nonempty_exec(v: Vec<DocumentSymbol>) -> (r: Option<Vec<DocumentSymbol>>)
    ensures
        match r {
            Some(c) => nonempty(doc_symbols_view(v@)) == Some(doc_symbols_view(c@)),
            None => nonempty(doc_symbols_view(v@)) is None,
        },
{
    proof {
        if v@.len() > 0 {
            assert(doc_symbols_view(v@).len() > 0) by {
                assert(v@ =~= v@.drop_last().push(v@.last()));
                lemma_doc_symbols_push(v@.drop_last(), v@.last());
            }
        } else {
            assert(doc_symbols_view(v@) =~= Seq::<DocSymbolView>::empty());
        }
    }
    if v.len() == 0 {
        None
    } else {
        Some(v)
    }
}

fn entry_to_symbol(entry: &ObjectEntry, table: &Vec<(String, String)>) -> (r: DocumentSymbol)
    requires
        entry_details_safe(*entry),
    ensures
        doc_symbol_view(r) == entry_doc_symbol(*entry, table_view(table@)),
    decreases entry,
{
    let mut detail = String::new();
    push_value_detail(&mut detail, &entry.value, table);
    let (kind, children) = match &entry.value {
        AstNode::Object { entries, .. } => (DocSymbolKind::Object, nonempty_exec(entries_to_symbols(entries, table))),
        AstNode::Array { items, .. } => (DocSymbolKind::Array, nonempty_exec(items_to_symbols(items, table))),
        _ => (DocSymbolKind::Key, None),
    };
    let range = Span::new(entry.key_span.start, entry.value.span().end);
    DocumentSymbol { name: entry.key.clone(), detail, kind, range, selection_range: entry.key_span, children }
}

fn entries_to_symbols(entries: &Vec<ObjectEntry>, table: &Vec<(String, String)>) -> (r: Vec<DocumentSymbol>)
    requires
        entries_details_safe(entries@),
    ensures
        doc_symbols_view(r@) == entries_doc_symbols(entries@, table_view(table@)),
    decreases entries,
{
    let mut out: Vec<DocumentSymbol> = Vec::new();
    let mut i: usize = 0;
    proof {
        assert(doc_symbols_view(out@) =~= Seq::<DocSymbolView>::empty());
    }
    while i < entries.len()
        invariant
            0 <= i <= entries.len(),
            entries_details_safe(entries@),
            doc_symbols_view(out@) == entries_doc_symbols(entries@.take(i as int), table_view(table@)),
        decreases entries.len() - i,
    {
        proof {
            lemma_entries_safe(entries@, i as int);
            assert(entries@.take(i + 1).drop_last() =~= entries@.take(i as int));
            assert(entries@.take(i + 1).last() == entries@[i as int]);
        }
        let s = entry_to_symbol(&entries[i], table);
        proof {
            lemma_doc_symbols_push(out@, s);
        }
        out.push(s);
        i += 1;
    }
    proof {
        assert(entries@.take(entries.len() as int) =~= entries@);
    }
    out
}

proof fn lemma_entries_safe(s: Seq<ObjectEntry>, i: int)
    requires
        0 <= i < s.len(),
        entries_details_safe(s),
    ensures
        entry_details_safe(s[i]),
    decreases s.len(),
{
    if i < s.len() - 1 {
        assert(s.drop_last()[i] == s[i]);
        lemma_entries_safe(s.drop_last(), i);
    }
}

proof fn lemma_items_safe(s: Seq<AstNode>, i: int)
    requires
        0 <= i < s.len(),
        items_details_safe(s),
    ensures
        s[i] matches AstNode::Object { entries, .. } ==> entries_details_safe(entries@),
    decreases s.len(),
{
    if i < s.len() - 1 {
        assert(s.drop_last()[i] == s[i]);
        lemma_items_safe(s.drop_last(), i);
    }
}

proof fn lemma_top_safe(s: Seq<AstNode>, i: int)
    requires
        0 <= i < s.len(),
        top_details_safe(s),
    ensures
        s[i] matches AstNode::Object { entries, .. } ==> entries_details_safe(entries@),
    decreases s.len(),
{
    if i < s.len() - 1 {
        assert(s.drop_last()[i] == s[i]);
        lemma_top_safe(s.drop_last(), i);
    }
}

fn index_name_string(i: usize) -> (s: String)
    ensures
        s@ == index_name(i as nat),
{
    let mut s = String::new();
    s.push('[');
    push_decimal(&mut s, i as u64);
    s.push(']');
    s
}

fn items_to_symbols(items: &Vec<AstNode>, table: &Vec<(String, String)>) -> (r: Vec<DocumentSymbol>)
    requires
        items_details_safe(items@),
    ensures
        doc_symbols_view(r@) == items_doc_symbols(items@, table_view(table@)),
    decreases items,
{
    let mut out: Vec<DocumentSymbol> = Vec::new();
    let mut i: usize = 0;
    proof {
        assert(doc_symbols_view(out@) =~= Seq::<DocSymbolView>::empty());
    }
    while i < items.len()
        invariant
            0 <= i <= items.len(),
            items_details_safe(items@),
            doc_symbols_view(out@) == items_doc_symbols(items@.take(i as int), table_view(table@)),
        decreases items.len() - i,
    {
        proof {
            lemma_items_safe(items@, i as int);
            assert(items@.take(i + 1).drop_last() =~= items@.take(i as int));
            assert(items@.take(i + 1).last() == items@[i as int]);
        }
        let ghost before = doc_symbols_view(out@);
        match &items[i] {
            AstNode::Object { entries, span } => {
                let mut detail = String::from_str("object with ");
                push_decimal(&mut detail, entries.len() as u64);
                detail.append(" entries");
                let children = nonempty_exec(entries_to_symbols(entries, table));
                let s = DocumentSymbol {
                    name: index_name_string(i),
                    detail,
                    kind: DocSymbolKind::Object,
                    range: *span,
                    selection_range: *span,
                    children,
                };
                proof {
                    lemma_doc_symbols_push(out@, s);
                }
                out.push(s);
                proof {
                    assert(doc_symbols_view(out@) =~= before + seq![doc_symbol_view(out@.last())]);
                }
            },
            AstNode::Array { items: inner, span, .. } => {
                let mut detail = String::from_str("array with ");
                push_decimal(&mut detail, inner.len() as u64);
                detail.append(" items");
                let s = DocumentSymbol {
                    name: index_name_string(i),
                    detail,
                    kind: DocSymbolKind::Array,
                    range: *span,
                    selection_range: *span,
                    children: None,
                };
                proof {
                    lemma_doc_symbols_push(out@, s);
                }
                out.push(s);
                proof {
                    assert(doc_symbols_view(out@) =~= before + seq![doc_symbol_view(out@.last())]);
                }
            },
            _ => {
                proof {
                    assert(doc_symbols_view(out@) =~= before + Seq::<DocSymbolView>::empty());
                }
            },
        }
        i += 1;
    }
    proof {
        assert(items@.take(items.len() as int) =~= items@);
    }
    out
}

proof fn lemma_doc_symbols_concat(a: Seq<DocumentSymbol>, b: Seq<DocumentSymbol>)
    ensures
        doc_symbols_view(a + b) == doc_symbols_view(a) + doc_symbols_view(b),
    decreases b.len(),
{
    if b.len() == 0 {
        assert(a + b =~= a);
        assert(doc_symbols_view(b) =~= Seq::<DocSymbolView>::empty());
        assert(doc_symbols_view(a) + doc_symbols_view(b) =~= doc_symbols_view(a));
    } else {
        lemma_doc_symbols_concat(a, b.drop_last());
        assert((a + b).drop_last() =~= a + b.drop_last());
        assert((a + b).last() == b.last());
        assert(doc_symbols_view(a) + doc_symbols_view(b) =~= (doc_symbols_view(a) + doc_symbols_view(b.drop_last())).push(
            doc_symbol_view(b.last()),
        ));
    }
}

/// The outline of a document (see `document_doc_symbols`). Float values
/// are described by their rendering in `float_renderings` (the first pair
/// whose literal matches), or as written when it has none.
pub fn ast_to_document_symbols(ast: &AstNode, float_renderings: &Vec<(String, String)>) -> (r: Vec<DocumentSymbol>)
    requires
        details_safe(*ast),
    ensures
        doc_symbols_view(r@) == document_doc_symbols(*ast, table_view(float_renderings@)),
{
    match ast {
        AstNode::Document { children, .. } => {
            let mut out: Vec<DocumentSymbol> = Vec::new();
            let mut i: usize = 0;
            proof {
                assert(doc_symbols_view(out@) =~= Seq::<DocSymbolView>::empty());
            }
            while i < children.len()
                invariant
                    0 <= i <= children.len(),
                    top_details_safe(children@),
                    doc_symbols_view(out@) == top_doc_symbols(children@.take(i as int), table_view(float_renderings@)),
                decreases children.len() - i,
            {
                proof {
                    lemma_top_safe(children@, i as int);
                    assert(children@.take(i + 1).drop_last() =~= children@.take(i as int));
                    assert(children@.take(i + 1).last() == children@[i as int]);
                }
                if let AstNode::Object { entries, .. } = &children[i] {
                    let mut sub = entries_to_symbols(entries, float_renderings);
                    let ghost r0 = out@;
                    let ghost s0 = sub@;
                    out.append(&mut sub);
                    proof {
                        lemma_doc_symbols_concat(r0, s0);
                    }
                } else {
                    proof {
                        assert(doc_symbols_view(out@) + Seq::<DocSymbolView>::empty() =~= doc_symbols_view(out@));
                    }
                }
                i += 1;
            }
            proof {
                assert(children@.take(children.len() as int) =~= children@);
            }
            out
        },
        AstNode::Object { entries, .. } => entries_to_symbols(entries, float_renderings),
        _ => {
            let out: Vec<DocumentSymbol> = Vec::new();
            proof {
                assert(doc_symbols_view(out@) =~= Seq::<DocSymbolView>::empty());
            }
            out
        },
    }
}

/// Whether every value the outline describes can be cut as its preview
/// needs (the condition `ast_to_document_symbols` needs).
pub fn details_are_safe(ast: &AstNode) -> (b: bool)
    ensures
        b == details_safe(*ast),
{
    match ast {
        AstNode::Document { children, .. } => {
            let mut i: usize = 0;
            while i < children.len()
                invariant
                    0 <= i <= children.len(),
                    details_safe(*ast) == top_details_safe(children@),
                    top_details_safe(children@.take(i as int)),
                decreases children.len() - i,
            {
                proof {
                    assert(children@.take(i + 1).drop_last() =~= children@.take(i as int));
                    assert(children@.take(i + 1).last() == children@[i as int]);
                }
                if let AstNode::Object { entries, .. } = &children[i] {
                    if !entries_safe_exec(entries) {
                        proof {
                            if top_details_safe(children@) {
                                lemma_top_safe(children@, i as int);
                                assert(entries_details_safe(entries@));
                            }
                            assert(!top_details_safe(children@));
                            assert(!details_safe(*ast));
                        }
                        return false;
                    }
                }
                i += 1;
            }
            proof {
                assert(children@.take(children.len() as int) =~= children@);
            }
            true
        },
        AstNode::Object { entries, .. } => entries_safe_exec(entries),
        _ => true,
    }
}

fn entries_safe_exec(entries: &Vec<ObjectEntry>) -> (b: bool)
    ensures
        b == entries_details_safe(entries@),
    decreases entries,
{
    let mut i: usize = 0;
    while i < entries.len()
        invariant
            0 <= i <= entries.len(),
            entries_details_safe(entries@.take(i as int)),
        decreases entries.len() - i,
    {
        proof {
            assert(entries@.take(i + 1).drop_last() =~= entries@.take(i as int));
            assert(entries@.take(i + 1).last() == entries@[i as int]);
        }
        if !entry_safe_exec(&entries[i]) {
            proof {
                if entries_details_safe(entries@) {
                    lemma_entries_safe(entries@, i as int);
                }
            }
            return false;
        }
        i += 1;
    }
    proof {
        assert(entries@.take(entries.len() as int) =~= entries@);
    }
    true
}

fn entry_safe_exec(entry: &ObjectEntry) -> (b: bool)
    ensures
        b == entry_details_safe(*entry),
    decreases entry,
{
    if !cut_ok(&entry.value, 30, 27) {
        return false;
    }
    match &entry.value {
        AstNode::Object { entries, .. } => entries_safe_exec(entries),
        AstNode::Array { items, .. } => items_safe_exec(items),
        _ => true,
    }
}

fn items_safe_exec(items: &Vec<AstNode>) -> (b: bool)
    ensures
        b == items_details_safe(items@),
    decreases items,
{
    let mut i: usize = 0;
    while i < items.len()
        invariant
            0 <= i <= items.len(),
            items_details_safe(items@.take(i as int)),
        decreases items.len() - i,
    {
        proof {
            assert(items@.take(i + 1).drop_last() =~= items@.take(i as int));
            assert(items@.take(i + 1).last() == items@[i as int]);
        }
        if let AstNode::Object { entries, .. } = &items[i] {
            if !entries_safe_exec(entries) {
                proof {
                    if items_details_safe(items@) {
                        lemma_items_safe(items@, i as int);
                        assert(entries_details_safe(entries@));
                    }
                }
                return false;
            }
        }
        i += 1;
    }
    proof {
        assert(items@.take(items.len() as int) =~= items@);
    }
    true
}

} // verus!
