//! Completion: keys from the path to the cursor and from the top level,
//! and the literal keywords.
use super::ast_utils::{descent, find_node_at_position, object_keys};
use super::hover::{calculate_offset, lemma_step_names_prepend, position_offset, step_names};
use super::utf16::{chars_to_byte, is_byte_column};
use crate::ast::{AstNode, ObjectEntry, Position};
use crate::text::{chars_of, is_white_space_char, lines_of, nth_line, utf8_len, white_space};
use vstd::prelude::*;

verus! {

/// The kind of a completion item.
#[derive(Debug, Clone, Copy, PartialEq, Eq, Structural)]
pub enum CompletionKind {
    /// An object key
    Property,
    /// A literal keyword
    Keyword,
}

/// A completion item.
#[derive(Debug, Clone)]
pub struct ToonCompletion {
    /// The text offered
    pub label: String,
    /// What it is
    pub kind: CompletionKind,
    /// A short description
    pub detail: Option<String>,
}

/// The model of a completion item: label, kind and detail.
pub type ItemView = (Seq<char>, CompletionKind, Option<Seq<char>>);

pub open spec fn item_view(c: ToonCompletion) -> ItemView {
    (c.label@, c.kind, match c.detail {
        Some(d) => Some(d@),
        None => None,
    })
}

pub open spec fn items_view(s: Seq<ToonCompletion>) -> Seq<ItemView> {
    s.map_values(|c: ToonCompletion| item_view(c))
}

pub open spec fn key_item(k: Seq<char>) -> ItemView {
    (k, CompletionKind::Property, Some("key"@))
}

pub open spec fn literal_item(v: Seq<char>) -> ItemView {
    (v, CompletionKind::Keyword, Some("literal"@))
}

impl ToonCompletion {
    /// A key completion.
    pub fn key(name: &str) -> (c: Self)
        ensures
            item_view(c) == key_item(name@),
    {
        ToonCompletion { label: name.to_owned(), kind: CompletionKind::Property, detail: Some(String::from_str("key")) }
    }

    /// A literal completion.
    pub fn literal(value: &str) -> (c: Self)
        ensures
            item_view(c) == literal_item(value@),
    {
        ToonCompletion { label: value.to_owned(), kind: CompletionKind::Keyword, detail: Some(String::from_str("literal")) }
    }
}

/// Where the cursor stands for completion.
#[derive(Debug, Clone, Copy, PartialEq, Eq, Structural)]
pub enum CompletionContext {
    /// After a colon, with only whitespace since
    AfterColon,
    /// Where a key goes
    KeyPosition,
    /// Elsewhere
    Unknown,
}

pub open spec fn all_white(s: Seq<char>) -> bool {
    forall|i: int| 0 <= i < s.len() ==> white_space(#[trigger] s[i])
}

/// The text of line `line` before byte column `column` (the whole line
/// when the column lies past its end).
pub open spec fn line_prefix(src: Seq<char>, line: u32, column: u32) -> Seq<char> {
    let lt = lines_of(src)[line as int];
    if column <= utf8_len(lt) {
        lt.take(chars_to_byte(lt, column as nat, 0))
    } else {
        lt
    }
}

/// The index just after the last colon of `s`, or 0.
pub open spec fn after_last_colon(s: Seq<char>) -> int
    decreases s.len(),
{
    if s.len() == 0 {
        0
    } else if s.last() == ':' {
        s.len() as int
    } else {
        after_last_colon(s.drop_last())
    }
}

/// The completion context: past the last line, a key position; after a
/// colon followed by white space only, after a colon; at a line that is
/// blank so far or has no colon yet, a key position; otherwise unknown.
pub open spec fn context_at(src: Seq<char>, line: u32, column: u32) -> CompletionContext {
    if line as int >= lines_of(src).len() {
        CompletionContext::KeyPosition
    } else {
        let prefix = line_prefix(src, line, column);
        if prefix.contains(':') && all_white(prefix.skip(after_last_colon(prefix))) {
            CompletionContext::AfterColon
        } else if all_white(prefix) || !prefix.contains(':') {
            CompletionContext::KeyPosition
        } else {
            CompletionContext::Unknown
        }
    }
}

/// Whether the cursor's column can be used to cut its line.
pub open spec fn context_safe(src: Seq<char>, line: u32, column: u32) -> bool {
    (line as int) < lines_of(src).len() ==> {
        let lt = lines_of(src)[line as int];
        column <= utf8_len(lt) ==> is_byte_column(lt, column as nat)
    }
}

/// The keys of the top level: those of the document's objects, or of a
/// top-level object.
pub open spec fn root_keys(ast: AstNode) -> Seq<Seq<char>> {
    match ast {
        AstNode::Document { children, .. } => objects_keys(children@),
        AstNode::Object { entries, .. } => entries@.map_values(|e: ObjectEntry| e.key@),
        _ => Seq::empty(),
    }
}

pub open spec fn objects_keys(s: Seq<AstNode>) -> Seq<Seq<char>>
    decreases s.len(),
{
    if s.len() == 0 {
        Seq::empty()
    } else {
        objects_keys(s.drop_last()) + object_keys(s.last())
    }
}

pub open spec fn has_label(items: Seq<ItemView>, k: Seq<char>) -> bool {
    exists|i: int| 0 <= i < items.len() && (#[trigger] items[i]).0 == k
}

/// `items` followed by a key item for each of `keys` whose label is not
/// there yet.
pub open spec fn add_new_keys(items: Seq<ItemView>, keys: Seq<Seq<char>>) -> Seq<ItemView>
    decreases keys.len(),
{
    if keys.len() == 0 {
        items
    } else {
        let it = add_new_keys(items, keys.drop_last());
        if has_label(it, keys.last()) {
            it
        } else {
            it.push(key_item(keys.last()))
        }
    }
}

pub open spec fn literal_items() -> Seq<ItemView> {
    seq![literal_item("true"@), literal_item("false"@), literal_item("null"@)]
}

/// The completions at a cursor (0-based line, UTF-8 column): after a colon,
/// the literals; at a key position, the keys on the path to the cursor,
/// then the top-level keys not offered yet; elsewhere, the literals and the
/// top-level keys. None when the cursor lies outside the text.
pub open spec fn completions_at(ast: AstNode, src: Seq<char>, line: u32, column: u32) -> Seq<ItemView> {
    match position_offset(src, line as nat, column as nat) {
        None => Seq::empty(),
        Some(o) => match context_at(src, line, column) {
            CompletionContext::AfterColon => literal_items(),
            CompletionContext::KeyPosition => {
                let pos = Position { line, column, offset: o as u32 };
                let path_items = if ast.spec_span().spec_contains(pos) {
                    step_names(descent(ast, pos).0).map_values(|k: Seq<char>| key_item(k))
                } else {
                    Seq::empty()
                };
                add_new_keys(path_items, root_keys(ast))
            },
            CompletionContext::Unknown => literal_items() + root_keys(ast).map_values(|k: Seq<char>| key_item(k)),
        },
    }
}

fn push_literals(out: &mut Vec<ToonCompletion>)
    ensures
        items_view(final(out)@) == items_view(old(out)@) + literal_items(),
{
    let ghost before = items_view(out@);
    out.push(ToonCompletion::literal("true"));
    out.push(ToonCompletion::literal("false"));
    out.push(ToonCompletion::literal("null"));
    proof {
        assert(items_view(out@) =~= before + literal_items());
    }
}

/// The top-level keys of a document.
fn collect_root_keys(ast: &AstNode) -> (r: Vec<String>)
    ensures
        r@.map_values(|s: String| s@) == root_keys(*ast),
{
    let mut keys: Vec<String> = Vec::new();
    match ast {
        AstNode::Document { children, .. } => {
            let mut i: usize = 0;
            while i < children.len()
                invariant
                    0 <= i <= children.len(),
                    keys@.map_values(|s: String| s@) == objects_keys(children@.take(i as int)),
                decreases children.len() - i,
            {
                proof {
                    assert(children@.take(i + 1).drop_last() =~= children@.take(i as int));
                    assert(children@.take(i + 1).last() == children@[i as int]);
                }
                let ghost before = keys@.map_values(|s: String| s@);
                if let AstNode::Object { entries, .. } = &children[i] {
                    push_entry_keys(&mut keys, entries);
                } else {
                    proof {
                        assert(keys@.map_values(|s: String| s@) =~= before + Seq::<Seq<char>>::empty());
                    }
                }
                i += 1;
            }
            proof {
                assert(children@.take(children.len() as int) =~= children@);
            }
        },
        AstNode::Object { entries, .. } => {
            push_entry_keys(&mut keys, entries);
            proof {
                assert(keys@.map_values(|s: String| s@) =~= entries@.map_values(|e: ObjectEntry| e.key@));
            }
        },
        _ => {
            proof {
                assert(keys@.map_values(|s: String| s@) =~= Seq::<Seq<char>>::empty());
            }
        },
    }
    keys
}

fn push_entry_keys(keys: &mut Vec<String>, entries: &Vec<ObjectEntry>)
    ensures
        final(keys)@.map_values(|s: String| s@) == old(keys)@.map_values(|s: String| s@) + entries@.map_values(
            |e: ObjectEntry| e.key@,
        ),
{
    let ghost before = keys@.map_values(|s: String| s@);
    let mut j: usize = 0;
    while j < entries.len()
        invariant
            0 <= j <= entries.len(),
            keys@.map_values(|s: String| s@) == before + entries@.take(j as int).map_values(|e: ObjectEntry| e.key@),
        decreases entries.len() - j,
    {
        let ghost kb = keys@;
        keys.push(entries[j].key.clone());
        proof {
            assert(keys@ =~= kb.push(entries@[j as int].key));
            assert(keys@.map_values(|s: String| s@) =~= kb.map_values(|s: String| s@).push(entries@[j as int].key@));
            assert(entries@.take(j + 1).map_values(|e: ObjectEntry| e.key@) =~= entries@.take(j as int).map_values(
                |e: ObjectEntry| e.key@,
            ).push(entries@[j as int].key@));
        }
        j += 1;
    }
    proof {
        assert(entries@.take(entries.len() as int) =~= entries@);
    }
}

/// The completion context at a cursor (see `context_at`).
pub fn determine_completion_context(source: &str, line: u32, column: u32) -> (c: CompletionContext)
    requires
        context_safe(source@, line, column),
    ensures
        c == context_at(source@, line, column),
{
    let src = chars_of(source);
    let lt = match nth_line(&src, line as usize) {
        Some(l) => chars_of(l.as_str()),
        None => return CompletionContext::KeyPosition,
    };
    let ghost s = lt@;
    // The prefix: characters before the column.
    let mut k: usize = 0;
    let mut bytes: u64 = 0;
    proof {
        assert(s.take(0) =~= Seq::<char>::empty());
    }
    while k < lt.len() && bytes < column as u64
        invariant
            s == lt@,
            0 <= k <= lt.len(),
            bytes == utf8_len(s.take(k as int)),
            chars_to_byte(s, column as nat, k as int) == chars_to_byte(s, column as nat, 0),
        decreases lt.len() - k,
    {
        proof {
            crate::lsp::utf16::lemma_take_step(s, k as int);
        }
        bytes = bytes + crate::text::char_utf8_width(lt[k]) as u64;
        k += 1;
    }
    proof {
        assert(s.take(s.len() as int) =~= s);
        if !(column <= utf8_len(s)) && k < lt.len() {
            crate::lsp::utf16::lemma_prefix_lens_le(s, k as int, s.len() as int);
        }
    }
    let end = k;
    let ghost prefix = s.take(end as int);
    proof {
        assert(prefix == line_prefix(source@, line, column));
    }
    // The last colon of the prefix.
    let mut has_colon = false;
    let mut after: usize = 0;
    let mut i: usize = 0;
    while i < end
        invariant
            0 <= i <= end <= lt.len(),
            s == lt@,
            prefix == s.take(end as int),
            has_colon == prefix.take(i as int).contains(':'),
            after as int == after_last_colon(prefix.take(i as int)),
            after <= i,
        decreases end - i,
    {
        proof {
            assert(prefix.take(i + 1).drop_last() =~= prefix.take(i as int));
            assert(prefix.take(i + 1).last() == lt@[i as int]);
            if prefix.take(i as int).contains(':') {
                let w = choose|w: int| 0 <= w < i && #[trigger] prefix.take(i as int)[w] == ':';
                assert(prefix.take(i + 1)[w] == ':');
            }
            if prefix.take(i + 1).contains(':') && !(lt@[i as int] == ':') {
                let w = choose|w: int| 0 <= w < i + 1 && #[trigger] prefix.take(i + 1)[w] == ':';
                assert(prefix.take(i as int)[w] == ':');
            }
            if lt@[i as int] == ':' {
                assert(prefix.take(i + 1)[i as int] == ':');
            }
        }
        if lt[i] == ':' {
            has_colon = true;
            after = i + 1;
        }
        i += 1;
    }
    proof {
        assert(prefix.take(end as int) =~= prefix);
    }
    if has_colon && all_white_from(&lt, after, end) {
        proof {
            assert(prefix.skip(after as int) =~= s.subrange(after as int, end as int));
        }
        return CompletionContext::AfterColon;
    }
    proof {
        if has_colon {
            assert(prefix.skip(after as int) =~= s.subrange(after as int, end as int));
        }
        assert(prefix =~= s.subrange(0, end as int));
    }
    if all_white_from(&lt, 0, end) || !has_colon {
        CompletionContext::KeyPosition
    } else {
        CompletionContext::Unknown
    }
}

fn all_white_from(v: &Vec<char>, from: usize, to: usize) -> (b: bool)
    requires
        from <= to <= v.len(),
    ensures
        b == all_white(v@.subrange(from as int, to as int)),
{
    let mut i = from;
    while i < to
        invariant
            from <= i <= to <= v.len(),
            all_white(v@.subrange(from as int, i as int)),
        decreases to - i,
    {
        if !is_white_space_char(v[i]) {
            proof {
                assert(v@.subrange(from as int, to as int)[i - from] == v@[i as int]);
            }
            return false;
        }
        proof {
            assert forall|j: int| 0 <= j < i + 1 - from implies white_space(#[trigger] v@.subrange(from as int, i + 1)[j]) by {
                if j < i - from {
                    assert(v@.subrange(from as int, i + 1)[j] == v@.subrange(from as int, i as int)[j]);
                }
            }
        }
        i += 1;
    }
    true
}

/// The completions at a cursor (see `completions_at`).
pub fn get_completions_at_position(ast: &AstNode, source: &str, line: u32, column: u32) -> (r: Vec<ToonCompletion>)
    requires
        utf8_len(source@) <= u32::MAX,
        context_safe(source@, line, column),
    ensures
        items_view(r@) == completions_at(*ast, source@, line, column),
{
    let mut completions: Vec<ToonCompletion> = Vec::new();
    let offset = match calculate_offset(source, line, column) {
        Some(o) => o,
        None => {
            proof {
                assert(items_view(completions@) =~= Seq::<ItemView>::empty());
            }
            return completions;
        },
    };
    let context = determine_completion_context(source, line, column);
    match context {
        CompletionContext::AfterColon => {
            push_literals(&mut completions);
            proof {
                assert(items_view(completions@) =~= literal_items());
            }
        },
        CompletionContext::KeyPosition => {
            let ghost pos = Position { line, column, offset };
            match find_node_at_position(ast, line, column, offset) {
                Some(found) => {
                    let mut i: usize = 0;
                    proof {
                        lemma_step_names_prepend((*ast, None::<Seq<char>>, None::<usize>), descent(*ast, pos).0);
                        assert(items_view(completions@) =~= step_names(
                            crate::lsp::ast_utils::steps_view(found.path@.take(0)),
                        ).map_values(|k: Seq<char>| key_item(k)));
                    }
                    while i < found.path.len()
                        invariant
                            0 <= i <= found.path.len(),
                            items_view(completions@) == step_names(
                                crate::lsp::ast_utils::steps_view(found.path@.take(i as int)),
                            ).map_values(|k: Seq<char>| key_item(k)),
                        decreases found.path.len() - i,
                    {
                        proof {
                            assert(crate::lsp::ast_utils::steps_view(found.path@.take(i + 1)).drop_last()
                                =~= crate::lsp::ast_utils::steps_view(found.path@.take(i as int)));
                        }
                        let ghost before = items_view(completions@);
                        if let Some(k) = found.path[i].key {
                            completions.push(ToonCompletion::key(k));
                            proof {
                                assert(items_view(completions@) =~= before.push(key_item(k@)));
                            }
                        }
                        proof {
                            assert(step_names(crate::lsp::ast_utils::steps_view(found.path@.take(i + 1))).map_values(
                                |k: Seq<char>| key_item(k),
                            ) =~= items_view(completions@));
                        }
                        i += 1;
                    }
                    proof {
                        assert(found.path@.take(found.path.len() as int) =~= found.path@);
                    }
                },
                None => {
                    proof {
                        assert(items_view(completions@) =~= Seq::<ItemView>::empty());
                    }
                },
            }
            let ghost path_items = items_view(completions@);
            let root_keys = collect_root_keys(ast);
            let mut j: usize = 0;
            while j < root_keys.len()
                invariant
                    0 <= j <= root_keys.len(),
                    items_view(completions@) == add_new_keys(path_items, root_keys@.map_values(|s: String| s@).take(
                        j as int,
                    )),
                decreases root_keys.len() - j,
            {
                let ghost keys = root_keys@.map_values(|s: String| s@);
                proof {
                    assert(keys.take(j + 1).drop_last() =~= keys.take(j as int));
                    assert(keys.take(j + 1).last() == root_keys@[j as int]@);
                }
                let mut seen = false;
                let mut m: usize = 0;
                while m < completions.len()
                    invariant
                        0 <= m <= completions.len(),
                        j < root_keys.len(),
                        seen == exists|x: int| 0 <= x < m && (#[trigger] items_view(completions@)[x]).0
                            == root_keys@[j as int]@,
                    decreases completions.len() - m,
                {
                    if completions[m].label == root_keys[j] {
                        seen = true;
                    }
                    proof {
                        assert(items_view(completions@)[m as int].0 == completions@[m as int].label@);
                        if seen && !(completions@[m as int].label@ == root_keys@[j as int]@) {
                            let x = choose|x: int| 0 <= x < m && (#[trigger] items_view(completions@)[x]).0
                                == root_keys@[j as int]@;
                            assert(items_view(completions@)[x].0 == root_keys@[j as int]@);
                        }
                    }
                    m += 1;
                }
                if !seen {
                    let ghost before = items_view(completions@);
                    completions.push(ToonCompletion::key(root_keys[j].as_str()));
                    proof {
                        assert(items_view(completions@) =~= before.push(key_item(root_keys@[j as int]@)));
                    }
                }
                j += 1;
            }
            proof {
                assert(root_keys@.map_values(|s: String| s@).take(root_keys.len() as int) =~= root_keys@.map_values(
                    |s: String| s@,
                ));
            }
        },
        CompletionContext::Unknown => {
            push_literals(&mut completions);
            let root_keys = collect_root_keys(ast);
            let mut j: usize = 0;
            while j < root_keys.len()
                invariant
                    0 <= j <= root_keys.len(),
                    items_view(completions@) == literal_items() + root_keys@.map_values(|s: String| s@).take(
                        j as int,
                    ).map_values(|k: Seq<char>| key_item(k)),
                decreases root_keys.len() - j,
            {
                let ghost before = items_view(completions@);
                completions.push(ToonCompletion::key(root_keys[j].as_str()));
                proof {
                    assert(items_view(completions@) =~= before.push(key_item(root_keys@[j as int]@)));
                    assert(root_keys@.map_values(|s: String| s@).take(j + 1).map_values(|k: Seq<char>| key_item(k))
                        =~= root_keys@.map_values(|s: String| s@).take(j as int).map_values(|k: Seq<char>| key_item(k)).push(
                        key_item(root_keys@[j as int]@),
                    ));
                }
                j += 1;
            }
            proof {
                assert(root_keys@.map_values(|s: String| s@).take(root_keys.len() as int) =~= root_keys@.map_values(
                    |s: String| s@,
                ));
            }
        },
    }
    completions
}

/// Whether the cursor's column can be used to cut its line (the condition
/// the completion context needs).
pub fn context_safe_at(source: &str, line: u32, column: u32) -> (b: bool)
    ensures
        b == context_safe(source@, line, column),
{
    let src = chars_of(source);
    match nth_line(&src, line as usize) {
        Some(l) => {
            let v = chars_of(l.as_str());
            super::utf16::byte_column_ok(&v, column)
        },
        None => true,
    }
}

} // verus!
