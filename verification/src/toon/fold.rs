//! Key folding and path expansion. Folding collapses chains of single-key
//! objects into dotted keys (`{"a":{"b":1}}` becomes `{"a.b":1}`);
//! flattening lifts every nested object of identifier keys into its parent;
//! expansion turns dotted keys back into nested objects. Only keys change:
//! values are kept.
use super::value::{
    clone_entries, clone_items, clone_value, entries_view, items_view, json_view, key_index, lemma_entries_view,
    lemma_items_view, object_insert, view_insert, JsonValue, JsonView,
};
use super::scalars::strings_view;
use crate::text::chars_of;
use vstd::prelude::*;

verus! {

// ---------------------------------------------------------------------------
// Keys and paths
// ---------------------------------------------------------------------------

/// Whether `c` may start an identifier: an ASCII letter or `_`.
pub open spec fn is_ident_start(c: char) -> bool {
    ('a' <= c && c <= 'z') || ('A' <= c && c <= 'Z') || c == '_'
}

/// Whether `c` may continue an identifier: an ASCII letter, digit or `_`.
pub open spec fn is_ident_char(c: char) -> bool {
    is_ident_start(c) || ('0' <= c && c <= '9')
}

/// Whether a key segment can be folded: a bare identifier.
pub open spec fn foldable(s: Seq<char>) -> bool {
    s.len() > 0 && is_ident_start(s[0]) && forall|i: int| 1 <= i < s.len() ==> #[trigger] is_ident_char(s[i])
}

/// The segments of a key split at each `.` (`str::split('.')`).
pub open spec fn split_dots(s: Seq<char>) -> Seq<Seq<char>>
    decreases s.len(),
{
    if s.len() == 0 {
        seq![Seq::empty()]
    } else {
        let rest = split_dots(s.drop_last());
        if s.last() == '.' {
            rest.push(Seq::empty())
        } else {
            rest.update(rest.len() - 1, rest.last().push(s.last()))
        }
    }
}

pub proof fn lemma_split_dots_len(s: Seq<char>)
    ensures
        split_dots(s).len() >= 1,
    decreases s.len(),
{
    if s.len() > 0 {
        lemma_split_dots_len(s.drop_last());
    }
}

/// Whether every segment is foldable.
pub open spec fn all_foldable(segs: Seq<Seq<char>>) -> bool {
    forall|i: int| 0 <= i < segs.len() ==> #[trigger] foldable(segs[i])
}

/// Whether one path is a prefix of the other (equal paths included).
pub open spec fn prefix_related(a: Seq<Seq<char>>, b: Seq<Seq<char>>) -> bool {
    let n = if a.len() <= b.len() { a.len() } else { b.len() };
    a.take(n as int) == b.take(n as int)
}

// ---------------------------------------------------------------------------
// Objects as sequences of entries
// ---------------------------------------------------------------------------

/// Inserting every pair of `s`, in order.
pub open spec fn insert_all(m: Seq<(Seq<char>, JsonView)>, s: Seq<(Seq<char>, JsonView)>) -> Seq<(Seq<char>, JsonView)>
    decreases s.len(),
{
    if s.len() == 0 {
        m
    } else {
        view_insert(insert_all(m, s.drop_last()), s.last().0, s.last().1)
    }
}

// ---------------------------------------------------------------------------
// Folding
// ---------------------------------------------------------------------------

/// The chain that starts at `key` with value `v`, folded: through objects
/// of one foldable key down to a leaf (a non-object or an empty object),
/// the keys joined with `.`; none when an object on the way has two keys or
/// more, or a key that is not foldable.
pub open spec fn fold_chain(key: Seq<char>, v: JsonView) -> Option<(Seq<char>, JsonView)>
    decreases v,
{
    match v {
        JsonView::Object(m) => if m.len() == 0 {
            Some((key, v))
        } else if m.len() == 1 {
            if foldable(m[0].0) {
                match fold_chain(m[0].0, m[0].1) {
                    Some((suffix, leaf)) => Some((key + seq!['.'] + suffix, leaf)),
                    None => None,
                }
            } else {
                None
            }
        } else {
            None
        },
        _ => Some((key, v)),
    }
}

/// The key an entry would take folded.
pub open spec fn folded_key(e: (Seq<char>, JsonView)) -> Seq<char> {
    if foldable(e.0) && fold_chain(e.0, e.1) is Some {
        fold_chain(e.0, e.1)->Some_0.0
    } else {
        e.0
    }
}

/// Whether entry `i`'s folded key collides with another entry's: one path
/// is a prefix of the other.
pub open spec fn fold_collides(m: Seq<(Seq<char>, JsonView)>, i: int) -> bool {
    exists|j: int|
        0 <= j < m.len() && j != i && prefix_related(split_dots(folded_key(m[i])), split_dots(#[trigger] folded_key(m[j])))
}

/// A value with its object key chains folded, objects descended.
pub open spec fn fold_view(v: JsonView) -> JsonView
    decreases v, 1int,
{
    match v {
        JsonView::Object(m) => JsonView::Object(fold_entries(m, m.len() as int)),
        _ => v,
    }
}

/// The first `k` entries of an object folded into a new object: an entry
/// whose chain folds and does not collide becomes its dotted key and leaf;
/// any other keeps its key with its value folded.
pub open spec fn fold_entries(m: Seq<(Seq<char>, JsonView)>, k: int) -> Seq<(Seq<char>, JsonView)>
    decreases m, k,
{
    if k <= 0 || k > m.len() {
        Seq::empty()
    } else {
        let e = m[k - 1];
        let acc = fold_entries(m, k - 1);
        if foldable(e.0) && fold_chain(e.0, e.1) is Some && !fold_collides(m, k - 1) {
            view_insert(acc, fold_chain(e.0, e.1)->Some_0.0, fold_chain(e.0, e.1)->Some_0.1)
        } else {
            view_insert(acc, e.0, fold_view(e.1))
        }
    }
}

// ---------------------------------------------------------------------------
// Expansion
// ---------------------------------------------------------------------------

/// `value` put at the path `segs` of an object: objects on the way are
/// entered or made (a non-object in the way is replaced by one), and the
/// last segment is inserted.
pub open spec fn insert_path(m: Seq<(Seq<char>, JsonView)>, segs: Seq<Seq<char>>, value: JsonView) -> Seq<(Seq<char>, JsonView)>
    decreases segs.len(),
{
    if segs.len() == 0 {
        m
    } else if segs.len() == 1 {
        view_insert(m, segs[0], value)
    } else {
        let j = key_index(m, segs[0], 0);
        if j < 0 {
            m.push((segs[0], JsonView::Object(insert_path(Seq::empty(), segs.drop_first(), value))))
        } else {
            match m[j].1 {
                JsonView::Object(cm) => m.update(j, (segs[0], JsonView::Object(insert_path(cm, segs.drop_first(), value)))),
                _ => m.update(j, (segs[0], JsonView::Object(insert_path(Seq::empty(), segs.drop_first(), value)))),
            }
        }
    }
}

/// A value with dotted keys of identifier segments expanded into nested
/// objects, objects and arrays descended.
pub open spec fn expand_view(v: JsonView) -> JsonView
    decreases v, 2int,
{
    match v {
        JsonView::Object(m) => JsonView::Object(expand_entries(m, m.len() as int)),
        JsonView::Array(a) => JsonView::Array(expand_items(a, a.len() as int)),
        _ => v,
    }
}

/// The first `k` items expanded.
pub open spec fn expand_items(a: Seq<JsonView>, k: int) -> Seq<JsonView>
    decreases a, k,
{
    if k <= 0 || k > a.len() {
        Seq::empty()
    } else {
        expand_items(a, k - 1).push(expand_view(a[k - 1]))
    }
}

/// The first `k` entries of an object expanded into a new object.
pub open spec fn expand_entries(m: Seq<(Seq<char>, JsonView)>, k: int) -> Seq<(Seq<char>, JsonView)>
    decreases m, k,
{
    if k <= 0 || k > m.len() {
        Seq::empty()
    } else {
        let e = m[k - 1];
        let segs = split_dots(e.0);
        if segs.len() > 1 && all_foldable(segs) {
            insert_path(expand_entries(m, k - 1), segs, expand_view(e.1))
        } else {
            view_insert(expand_entries(m, k - 1), e.0, expand_view(e.1))
        }
    }
}

// ---------------------------------------------------------------------------
// Flattening
// ---------------------------------------------------------------------------

/// Whether `key.ck` has only foldable segments for every key `ck` of `child`.
pub open spec fn liftable(key: Seq<char>, child: Seq<(Seq<char>, JsonView)>) -> bool {
    forall|i: int| 0 <= i < child.len() ==> all_foldable(split_dots(key + seq!['.'] + #[trigger] child[i].0))
}

/// The entries of `child` under dotted keys `key.ck`.
pub open spec fn lifted(key: Seq<char>, child: Seq<(Seq<char>, JsonView)>) -> Seq<(Seq<char>, JsonView)> {
    child.map_values(|e: (Seq<char>, JsonView)| (key + seq!['.'] + e.0, e.1))
}

/// A value with nested objects of identifier keys lifted into their
/// parents under dotted keys, objects and arrays descended.
pub open spec fn flatten_view(v: JsonView) -> JsonView
    decreases v, 2int,
{
    match v {
        JsonView::Object(m) => JsonView::Object(flatten_entries(m)),
        JsonView::Array(a) => JsonView::Array(flatten_items(a, a.len() as int)),
        _ => v,
    }
}

/// The first `k` items flattened.
pub open spec fn flatten_items(a: Seq<JsonView>, k: int) -> Seq<JsonView>
    decreases a, k,
{
    if k <= 0 || k > a.len() {
        Seq::empty()
    } else {
        flatten_items(a, k - 1).push(flatten_view(a[k - 1]))
    }
}

/// The candidate entries of the first `k` entries: an entry with a
/// foldable key whose flattened value is a non-empty object that can be
/// lifted gives its children under dotted keys; any other gives itself
/// with its value flattened.
pub open spec fn flatten_candidates(m: Seq<(Seq<char>, JsonView)>, k: int) -> Seq<(Seq<char>, JsonView)>
    decreases m, k,
{
    if k <= 0 || k > m.len() {
        Seq::empty()
    } else {
        let e = m[k - 1];
        let fv = flatten_view(e.1);
        flatten_candidates(m, k - 1) + match fv {
            JsonView::Object(child) => if foldable(e.0) && child.len() > 0 && liftable(e.0, child) {
                lifted(e.0, child)
            } else {
                seq![(e.0, fv)]
            },
            _ => seq![(e.0, fv)],
        }
    }
}

/// The first `k` entries with their values flattened.
pub open spec fn flatten_values(m: Seq<(Seq<char>, JsonView)>, k: int) -> Seq<(Seq<char>, JsonView)>
    decreases m, k,
{
    if k <= 0 || k > m.len() {
        Seq::empty()
    } else {
        flatten_values(m, k - 1).push((m[k - 1].0, flatten_view(m[k - 1].1)))
    }
}

/// Whether two candidate keys are prefix-related paths.
pub open spec fn candidates_conflict(c: Seq<(Seq<char>, JsonView)>) -> bool {
    exists|i: int, j: int|
        0 <= i < c.len() && 0 <= j < c.len() && i != j && prefix_related(
            split_dots(#[trigger] c[i].0),
            split_dots(#[trigger] c[j].0),
        )
}

/// An object flattened: the candidates when no two of their keys are
/// prefix-related paths, else the original keys with flattened values.
pub open spec fn flatten_entries(m: Seq<(Seq<char>, JsonView)>) -> Seq<(Seq<char>, JsonView)>
    decreases m, m.len() + 1,
{
    let c = flatten_candidates(m, m.len() as int);
    if candidates_conflict(c) {
        insert_all(Seq::empty(), flatten_values(m, m.len() as int))
    } else {
        insert_all(Seq::empty(), c)
    }
}

// ---------------------------------------------------------------------------
// Keys and paths, computed
// ---------------------------------------------------------------------------

fn is_ident_start_exec(c: char) -> (b: bool)
    ensures
        b == is_ident_start(c),
{
    ('a' <= c && c <= 'z') || ('A' <= c && c <= 'Z') || c == '_'
}

/// Whether a key segment is a bare identifier: a letter or `_`, then
/// letters, digits and `_`.
pub fn is_foldable_segment(s: &str) -> (b: bool)
    ensures
        b == foldable(s@),
{
    let v = chars_of(s);
    if v.len() == 0 {
        return false;
    }
    if !is_ident_start_exec(v[0]) {
        return false;
    }
    let mut i: usize = 1;
    while i < v.len()
        invariant
            1 <= i <= v.len(),
            v@ == s@,
            forall|j: int| 1 <= j < i ==> #[trigger] is_ident_char(v@[j]),
        decreases v.len() - i,
    {
        let c = v[i];
        if !(is_ident_start_exec(c) || ('0' <= c && c <= '9')) {
            proof {
                assert(!is_ident_char(v@[i as int]));
            }
            return false;
        }
        i += 1;
    }
    true
}

/// The segments of a key split at each `.`.
pub fn split_key(s: &str) -> (r: Vec<String>)
    ensures
        strings_view(r@) == split_dots(s@),
        r.len() >= 1,
{
    let v = chars_of(s);
    let mut segs: Vec<String> = Vec::new();
    let first = String::new();
    proof {
        assert(first@ =~= Seq::<char>::empty());
    }
    segs.push(first);
    let mut i: usize = 0;
    proof {
        assert(v@.take(0) =~= Seq::<char>::empty());
        assert(strings_view(segs@) =~= split_dots(v@.take(0)));
    }
    while i < v.len()
        invariant
            0 <= i <= v.len(),
            v@ == s@,
            segs.len() >= 1,
            strings_view(segs@) == split_dots(v@.take(i as int)),
        decreases v.len() - i,
    {
        let c = v[i];
        let ghost before = strings_view(segs@);
        proof {
            assert(v@.take(i + 1).drop_last() =~= v@.take(i as int));
            assert(v@.take(i + 1).last() == c);
        }
        if c == '.' {
            let e = String::new();
            proof {
                assert(e@ =~= Seq::<char>::empty());
            }
            segs.push(e);
            proof {
                assert(strings_view(segs@) =~= before.push(Seq::empty()));
            }
        } else {
            let n = segs.len();
            let mut last = segs[n - 1].clone();
            last.push(c);
            segs.set(n - 1, last);
            proof {
                assert(strings_view(segs@) =~= before.update(before.len() - 1, before.last().push(c)));
            }
        }
        i += 1;
    }
    proof {
        assert(v@.take(v.len() as int) =~= v@);
    }
    segs
}

fn all_foldable_exec(segs: &Vec<String>) -> (b: bool)
    ensures
        b == all_foldable(strings_view(segs@)),
{
    let mut i: usize = 0;
    while i < segs.len()
        invariant
            0 <= i <= segs.len(),
            forall|j: int| 0 <= j < i ==> #[trigger] foldable(strings_view(segs@)[j]),
        decreases segs.len() - i,
    {
        if !is_foldable_segment(segs[i].as_str()) {
            proof {
                assert(!foldable(strings_view(segs@)[i as int]));
            }
            return false;
        }
        i += 1;
    }
    true
}

/// Whether one path is a prefix of the other.
fn prefix_related_exec(a: &Vec<String>, b: &Vec<String>) -> (r: bool)
    ensures
        r == prefix_related(strings_view(a@), strings_view(b@)),
{
    let n = if a.len() <= b.len() { a.len() } else { b.len() };
    let mut i: usize = 0;
    while i < n
        invariant
            0 <= i <= n,
            n <= a.len(),
            n <= b.len(),
            forall|j: int| 0 <= j < i ==> strings_view(a@)[j] == strings_view(b@)[j],
        decreases n - i,
    {
        if a[i] != b[i] {
            proof {
                assert(strings_view(a@).take(n as int)[i as int] != strings_view(b@).take(n as int)[i as int]);
            }
            return false;
        }
        i += 1;
    }
    proof {
        assert(strings_view(a@).take(n as int) =~= strings_view(b@).take(n as int));
    }
    true
}

proof fn lemma_entries_push(s: Seq<(String, JsonValue)>, x: (String, JsonValue))
    ensures
        entries_view(s.push(x)) == entries_view(s).push((x.0@, json_view(x.1))),
{
    assert(s.push(x).drop_last() =~= s);
}

proof fn lemma_items_push(s: Seq<JsonValue>, x: JsonValue)
    ensures
        items_view(s.push(x)) == items_view(s).push(json_view(x)),
{
    assert(s.push(x).drop_last() =~= s);
}

// ---------------------------------------------------------------------------
// Folding, computed
// ---------------------------------------------------------------------------

/// Folds the chain that starts at `key` with value `v`.
fn fold_chain_exec(key: &String, v: &JsonValue) -> (r: Option<(String, JsonValue)>)
    ensures
        match r {
            Some((k, leaf)) => fold_chain(key@, json_view(*v)) == Some((k@, json_view(leaf))),
            None => fold_chain(key@, json_view(*v)) is None,
        },
    decreases v,
{
    match v {
        JsonValue::Object(m) => {
            proof {
                lemma_entries_view(m@);
            }
            if m.len() == 0 {
                return Some((key.clone(), clone_value(v)));
            }
            if m.len() == 1 {
                if is_foldable_segment(m[0].0.as_str()) {
                    return match fold_chain_exec(&m[0].0, &m[0].1) {
                        Some((suffix, leaf)) => {
                            let mut k = key.clone();
                            k.push('.');
                            k.append(suffix.as_str());
                            proof {
                                assert(k@ =~= key@ + seq!['.'] + suffix@);
                            }
                            Some((k, leaf))
                        },
                        None => None,
                    };
                }
                return None;
            }
            None
        },
        _ => Some((key.clone(), clone_value(v))),
    }
}

/// A value with its object key chains folded: in each object, an entry
/// whose chain of single identifier keys folds, and whose dotted key is not
/// a prefix of another entry's (nor has one as prefix), becomes its dotted
/// key and leaf; any other keeps its key with its value folded.
pub fn fold_keys(value: &JsonValue) -> (r: JsonValue)
    ensures
        json_view(r) == fold_view(json_view(*value)),
    decreases value, 1int,
{
    match value {
        JsonValue::Object(m) => {
            proof {
                lemma_entries_view(m@);
            }
            JsonValue::Object(fold_object(m))
        },
        _ => clone_value(value),
    }
}

fn fold_object(m: &Vec<(String, JsonValue)>) -> (r: Vec<(String, JsonValue)>)
    ensures
        entries_view(r@) == fold_entries(entries_view(m@), m@.len() as int),
    decreases m, 0int,
{
    let ghost ev = entries_view(m@);
    proof {
        lemma_entries_view(m@);
    }
    // The key each entry would take, and its folded chain.
    let mut emit: Vec<Vec<String>> = Vec::new();
    let mut folded: Vec<Option<(String, JsonValue)>> = Vec::new();
    let mut i: usize = 0;
    while i < m.len()
        invariant
            0 <= i <= m.len(),
            ev == entries_view(m@),
            ev.len() == m.len(),
            forall|j: int| 0 <= j < m.len() ==> #[trigger] ev[j] == (m@[j].0@, json_view(m@[j].1)),
            emit.len() == i,
            folded.len() == i,
            forall|j: int| 0 <= j < i ==> strings_view(#[trigger] emit@[j]@) == split_dots(folded_key(ev[j])),
            forall|j: int|
                0 <= j < i ==> match #[trigger] folded@[j] {
                    Some((fk, leaf)) => foldable(ev[j].0) && fold_chain(ev[j].0, ev[j].1) == Some((fk@, json_view(leaf))),
                    None => !(foldable(ev[j].0) && fold_chain(ev[j].0, ev[j].1) is Some),
                },
        decreases m.len() - i,
    {
        let k = &m[i].0;
        let mut chain: Option<(String, JsonValue)> = None;
        if is_foldable_segment(k.as_str()) {
            chain = fold_chain_exec(k, &m[i].1);
        }
        let key_text = match &chain {
            Some((fk, _)) => fk.clone(),
            None => k.clone(),
        };
        emit.push(split_key(key_text.as_str()));
        folded.push(chain);
        proof {
            assert(ev[i as int] == (m@[i as int].0@, json_view(m@[i as int].1)));
        }
        i += 1;
    }
    let mut out: Vec<(String, JsonValue)> = Vec::new();
    let mut i: usize = 0;
    proof {
        assert(entries_view(out@) =~= Seq::<(Seq<char>, JsonView)>::empty());
    }
    while i < m.len()
        invariant
            0 <= i <= m.len(),
            ev == entries_view(m@),
            ev.len() == m.len(),
            forall|j: int| 0 <= j < m.len() ==> #[trigger] ev[j] == (m@[j].0@, json_view(m@[j].1)),
            emit.len() == m.len(),
            folded.len() == m.len(),
            forall|j: int| 0 <= j < m.len() ==> strings_view(#[trigger] emit@[j]@) == split_dots(folded_key(ev[j])),
            forall|j: int|
                0 <= j < m.len() ==> match #[trigger] folded@[j] {
                    Some((fk, leaf)) => foldable(ev[j].0) && fold_chain(ev[j].0, ev[j].1) == Some((fk@, json_view(leaf))),
                    None => !(foldable(ev[j].0) && fold_chain(ev[j].0, ev[j].1) is Some),
                },
            entries_view(out@) == fold_entries(ev, i as int),
        decreases m.len() - i,
    {
        // Whether entry i's dotted key collides with another entry's.
        let mut collides = false;
        let mut j: usize = 0;
        while j < m.len() && !collides
            invariant
                0 <= j <= m.len(),
                i < m.len(),
                ev.len() == m.len(),
                emit.len() == m.len(),
                forall|x: int| 0 <= x < m.len() ==> strings_view(#[trigger] emit@[x]@) == split_dots(folded_key(ev[x])),
                collides ==> fold_collides(ev, i as int),
                !collides ==> forall|x: int|
                    0 <= x < j && x != i ==> !prefix_related(
                        split_dots(folded_key(ev[i as int])),
                        split_dots(#[trigger] folded_key(ev[x])),
                    ),
            decreases m.len() - j, if collides { 0int } else { 1int },
        {
            if j != i && prefix_related_exec(&emit[i], &emit[j]) {
                collides = true;
                proof {
                    assert(strings_view(emit@[j as int]@) == split_dots(folded_key(ev[j as int])));
                    assert(strings_view(emit@[i as int]@) == split_dots(folded_key(ev[i as int])));
                    assert(prefix_related(split_dots(folded_key(ev[i as int])), split_dots(folded_key(ev[j as int]))));
                }
            } else {
                proof {
                    assert(strings_view(emit@[j as int]@) == split_dots(folded_key(ev[j as int])));
                }
                j += 1;
            }
        }
        proof {
            assert(strings_view(emit@[i as int]@) == split_dots(folded_key(ev[i as int])));
            if !collides {
                assert(!fold_collides(ev, i as int));
            }
        }
        let ghost before = entries_view(out@);
        match &folded[i] {
            Some((fk, leaf)) => {
                if !collides {
                    object_insert(&mut out, fk.clone(), clone_value(leaf));
                } else {
                    object_insert(&mut out, m[i].0.clone(), fold_keys(&m[i].1));
                }
            },
            None => {
                object_insert(&mut out, m[i].0.clone(), fold_keys(&m[i].1));
            },
        }
        proof {
            assert(folded@[i as int] == folded@[i as int]);
            assert(ev[i as int] == (m@[i as int].0@, json_view(m@[i as int].1)));
        }
        i += 1;
    }
    out
}

// ---------------------------------------------------------------------------
// Expansion, computed
// ---------------------------------------------------------------------------

/// The index of the first entry with key `k`.
fn key_position(m: &Vec<(String, JsonValue)>, k: &String) -> (r: Option<usize>)
    ensures
        match r {
            Some(j) => key_index(entries_view(m@), k@, 0) == j as int && j < m.len(),
            None => key_index(entries_view(m@), k@, 0) == -1,
        },
{
    let ghost ev = entries_view(m@);
    proof {
        lemma_entries_view(m@);
    }
    let mut i: usize = 0;
    while i < m.len()
        invariant
            0 <= i <= m.len(),
            ev == entries_view(m@),
            ev.len() == m.len(),
            forall|j: int| 0 <= j < m.len() ==> #[trigger] ev[j] == (m@[j].0@, json_view(m@[j].1)),
            key_index(ev, k@, 0) == key_index(ev, k@, i as int),
        decreases m.len() - i,
    {
        proof {
            assert(ev[i as int].0 == m@[i as int].0@);
        }
        if m[i].0 == *k {
            return Some(i);
        }
        i += 1;
    }
    None
}

/// Puts `value` at the path `segs[from..]` of an object.
fn insert_path_exec(map: &mut Vec<(String, JsonValue)>, segs: &Vec<String>, from: usize, value: JsonValue)
    requires
        from <= segs.len(),
    ensures
        entries_view(final(map)@) == insert_path(
            entries_view(old(map)@),
            strings_view(segs@).skip(from as int),
            json_view(value),
        ),
    decreases segs.len() - from,
{
    let ghost path = strings_view(segs@).skip(from as int);
    proof {
        if from < segs.len() {
            assert(path[0] == segs@[from as int]@);
            assert(path.drop_first() =~= strings_view(segs@).skip(from + 1));
        }
    }
    let n = segs.len() - from;
    if n == 0 {
        return;
    }
    if n == 1 {
        object_insert(map, segs[from].clone(), value);
        return;
    }
    let ghost ev = entries_view(map@);
    proof {
        lemma_entries_view(map@);
    }
    match key_position(map, &segs[from]) {
        None => {
            let mut child: Vec<(String, JsonValue)> = Vec::new();
            proof {
                assert(entries_view(child@) =~= Seq::<(Seq<char>, JsonView)>::empty());
            }
            insert_path_exec(&mut child, segs, from + 1, value);
            let ghost cv = entries_view(child@);
            let entry = (segs[from].clone(), JsonValue::Object(child));
            proof {
                lemma_entries_push(map@, entry);
            }
            map.push(entry);
        },
        Some(j) => {
            let (_, old_v) = map.remove(j);
            let new_v = match old_v {
                JsonValue::Object(cm) => {
                    let mut cm = cm;
                    insert_path_exec(&mut cm, segs, from + 1, value);
                    JsonValue::Object(cm)
                },
                _ => {
                    let mut c: Vec<(String, JsonValue)> = Vec::new();
                    proof {
                        assert(entries_view(c@) =~= Seq::<(Seq<char>, JsonView)>::empty());
                    }
                    insert_path_exec(&mut c, segs, from + 1, value);
                    JsonValue::Object(c)
                },
            };
            let entry = (segs[from].clone(), new_v);
            let ghost ex = (entry.0@, json_view(entry.1));
            map.insert(j, entry);
            proof {
                lemma_entries_view(map@);
                assert(entries_view(map@) =~= ev.update(j as int, ex));
            }
        },
    }
}

/// A value with each dotted key whose segments are all identifiers
/// expanded into nested objects (later writes win where paths meet),
/// objects and arrays descended.
pub fn expand_paths(value: &JsonValue) -> (r: JsonValue)
    ensures
        json_view(r) == expand_view(json_view(*value)),
    decreases value, 2int,
{
    match value {
        JsonValue::Object(m) => {
            proof {
                lemma_entries_view(m@);
            }
            JsonValue::Object(expand_object(m))
        },
        JsonValue::Array(a) => {
            proof {
                lemma_items_view(a@);
            }
            JsonValue::Array(expand_array(a))
        },
        _ => clone_value(value),
    }
}

fn expand_array(a: &Vec<JsonValue>) -> (r: Vec<JsonValue>)
    ensures
        items_view(r@) == expand_items(items_view(a@), a@.len() as int),
    decreases a, 1int,
{
    let ghost av = items_view(a@);
    proof {
        lemma_items_view(a@);
    }
    let mut out: Vec<JsonValue> = Vec::new();
    let mut i: usize = 0;
    proof {
        assert(items_view(out@) =~= Seq::<JsonView>::empty());
    }
    while i < a.len()
        invariant
            0 <= i <= a.len(),
            av == items_view(a@),
            av.len() == a.len(),
            forall|j: int| 0 <= j < a.len() ==> #[trigger] av[j] == json_view(a@[j]),
            items_view(out@) == expand_items(av, i as int),
        decreases a.len() - i,
    {
        let x = expand_paths(&a[i]);
        proof {
            lemma_items_push(out@, x);
            assert(av[i as int] == json_view(a@[i as int]));
        }
        out.push(x);
        i += 1;
    }
    out
}

fn expand_object(m: &Vec<(String, JsonValue)>) -> (r: Vec<(String, JsonValue)>)
    ensures
        entries_view(r@) == expand_entries(entries_view(m@), m@.len() as int),
    decreases m, 1int,
{
    let ghost ev = entries_view(m@);
    proof {
        lemma_entries_view(m@);
    }
    let mut out: Vec<(String, JsonValue)> = Vec::new();
    let mut i: usize = 0;
    proof {
        assert(entries_view(out@) =~= Seq::<(Seq<char>, JsonView)>::empty());
    }
    while i < m.len()
        invariant
            0 <= i <= m.len(),
            ev == entries_view(m@),
            ev.len() == m.len(),
            forall|j: int| 0 <= j < m.len() ==> #[trigger] ev[j] == (m@[j].0@, json_view(m@[j].1)),
            entries_view(out@) == expand_entries(ev, i as int),
        decreases m.len() - i,
    {
        let segs = split_key(m[i].0.as_str());
        let v = expand_paths(&m[i].1);
        proof {
            assert(ev[i as int] == (m@[i as int].0@, json_view(m@[i as int].1)));
            assert(strings_view(segs@).skip(0) =~= strings_view(segs@));
        }
        if segs.len() > 1 && all_foldable_exec(&segs) {
            insert_path_exec(&mut out, &segs, 0, v);
        } else {
            object_insert(&mut out, m[i].0.clone(), v);
        }
        i += 1;
    }
    out
}

// ---------------------------------------------------------------------------
// Flattening, computed
// ---------------------------------------------------------------------------

/// A value with nested objects lifted into their parents: in each object,
/// an entry with an identifier key whose (flattened) value is a non-empty
/// object of keys that keep every segment an identifier gives its children
/// under `key.child`; when two resulting keys would be prefix-related
/// paths, the object keeps its own keys instead. Objects and arrays are
/// descended.
pub fn flatten_keys(value: &JsonValue) -> (r: JsonValue)
    ensures
        json_view(r) == flatten_view(json_view(*value)),
    decreases value, 2int,
{
    match value {
        JsonValue::Object(m) => {
            proof {
                lemma_entries_view(m@);
            }
            JsonValue::Object(flatten_object(m))
        },
        JsonValue::Array(a) => {
            proof {
                lemma_items_view(a@);
            }
            JsonValue::Array(flatten_array(a))
        },
        _ => clone_value(value),
    }
}

fn flatten_array(a: &Vec<JsonValue>) -> (r: Vec<JsonValue>)
    ensures
        items_view(r@) == flatten_items(items_view(a@), a@.len() as int),
    decreases a, 1int,
{
    let ghost av = items_view(a@);
    proof {
        lemma_items_view(a@);
    }
    let mut out: Vec<JsonValue> = Vec::new();
    let mut i: usize = 0;
    proof {
        assert(items_view(out@) =~= Seq::<JsonView>::empty());
    }
    while i < a.len()
        invariant
            0 <= i <= a.len(),
            av == items_view(a@),
            av.len() == a.len(),
            forall|j: int| 0 <= j < a.len() ==> #[trigger] av[j] == json_view(a@[j]),
            items_view(out@) == flatten_items(av, i as int),
        decreases a.len() - i,
    {
        let x = flatten_keys(&a[i]);
        proof {
            lemma_items_push(out@, x);
            assert(av[i as int] == json_view(a@[i as int]));
        }
        out.push(x);
        i += 1;
    }
    out
}

/// `key.ck`.
fn dotted(key: &String, ck: &String) -> (r: String)
    ensures
        r@ == key@ + seq!['.'] + ck@,
{
    let mut r = key.clone();
    r.push('.');
    r.append(ck.as_str());
    proof {
        assert(r@ =~= key@ + seq!['.'] + ck@);
    }
    r
}

/// Whether every `key.ck` keeps only identifier segments.
fn liftable_exec(key: &String, child: &Vec<(String, JsonValue)>) -> (b: bool)
    ensures
        b == liftable(key@, entries_view(child@)),
{
    let ghost cv = entries_view(child@);
    proof {
        lemma_entries_view(child@);
    }
    let mut i: usize = 0;
    while i < child.len()
        invariant
            0 <= i <= child.len(),
            cv == entries_view(child@),
            cv.len() == child.len(),
            forall|j: int| 0 <= j < child.len() ==> #[trigger] cv[j] == (child@[j].0@, json_view(child@[j].1)),
            forall|j: int| 0 <= j < i ==> all_foldable(split_dots(key@ + seq!['.'] + #[trigger] cv[j].0)),
        decreases child.len() - i,
    {
        let nk = dotted(key, &child[i].0);
        let segs = split_key(nk.as_str());
        proof {
            assert(cv[i as int].0 == child@[i as int].0@);
        }
        if !all_foldable_exec(&segs) {
            return false;
        }
        i += 1;
    }
    true
}

/// Inserts every entry of `s`, in order, into `out`.
fn insert_each(out: &mut Vec<(String, JsonValue)>, s: Vec<(String, JsonValue)>)
    ensures
        entries_view(final(out)@) == insert_all(entries_view(old(out)@), entries_view(s@)),
{
    let ghost sv = entries_view(s@);
    let ghost start = entries_view(out@);
    let mut s = s;
    let n = s.len();
    proof {
        lemma_entries_view(s@);
        assert(sv.take(0) =~= Seq::<(Seq<char>, JsonView)>::empty());
    }
    let mut k: usize = 0;
    while k < n
        invariant
            0 <= k <= n,
            n == sv.len(),
            s.len() == n - k,
            forall|j: int| 0 <= j < s.len() ==> (#[trigger] s@[j]).0@ == sv[k + j].0 && json_view(s@[j].1) == sv[k + j].1,
            entries_view(out@) == insert_all(start, sv.take(k as int)),
        decreases n - k,
    {
        let ghost before = s@;
        let x = s.remove(0);
        proof {
            assert(before[0] == x);
            assert forall|j: int| 0 <= j < s.len() implies (#[trigger] s@[j]).0@ == sv[k + 1 + j].0 && json_view(s@[j].1)
                == sv[k + 1 + j].1 by {
                assert(s@[j] == before[j + 1]);
            }
        }
        object_insert(out, x.0, x.1);
        proof {
            assert(sv.take(k + 1).drop_last() =~= sv.take(k as int));
            assert(sv.take(k + 1).last() == sv[k as int]);
        }
        k += 1;
    }
    proof {
        assert(sv.take(n as int) =~= sv);
    }
}

fn flatten_object(m: &Vec<(String, JsonValue)>) -> (r: Vec<(String, JsonValue)>)
    ensures
        entries_view(r@) == flatten_entries(entries_view(m@)),
    decreases m, 0int,
{
    let ghost ev = entries_view(m@);
    proof {
        lemma_entries_view(m@);
    }
    let mut cands: Vec<(String, JsonValue)> = Vec::new();
    let mut i: usize = 0;
    proof {
        assert(entries_view(cands@) =~= Seq::<(Seq<char>, JsonView)>::empty());
    }
    while i < m.len()
        invariant
            0 <= i <= m.len(),
            ev == entries_view(m@),
            ev.len() == m.len(),
            forall|j: int| 0 <= j < m.len() ==> #[trigger] ev[j] == (m@[j].0@, json_view(m@[j].1)),
            entries_view(cands@) == flatten_candidates(ev, i as int),
        decreases m.len() - i,
    {
        let k = &m[i].0;
        let fv = flatten_keys(&m[i].1);
        let ghost before = entries_view(cands@);
        proof {
            assert(ev[i as int] == (m@[i as int].0@, json_view(m@[i as int].1)));
        }
        let mut lift = false;
        match &fv {
            JsonValue::Object(child) => {
                if is_foldable_segment(k.as_str()) && child.len() > 0 && liftable_exec(k, child) {
                    lift = true;
                    let ghost cv = entries_view(child@);
                    proof {
                        lemma_entries_view(child@);
                    }
                    let mut c: usize = 0;
                    while c < child.len()
                        invariant
                            0 <= c <= child.len(),
                            cv == entries_view(child@),
                            cv.len() == child.len(),
                            forall|j: int| 0 <= j < child.len() ==> #[trigger] cv[j] == (child@[j].0@, json_view(child@[j].1)),
                            entries_view(cands@) == before + lifted(k@, cv.take(c as int)),
                        decreases child.len() - c,
                    {
                        let entry = (dotted(k, &child[c].0), clone_value(&child[c].1));
                        proof {
                            lemma_entries_push(cands@, entry);
                            assert(cv[c as int] == (child@[c as int].0@, json_view(child@[c as int].1)));
                            assert(lifted(k@, cv.take(c + 1)) =~= lifted(k@, cv.take(c as int)).push(
                                (k@ + seq!['.'] + cv[c as int].0, cv[c as int].1),
                            ));
                        }
                        cands.push(entry);
                        c += 1;
                    }
                    proof {
                        assert(cv.take(child.len() as int) =~= cv);
                    }
                }
            },
            _ => {},
        }
        if !lift {
            let entry = (k.clone(), fv);
            proof {
                lemma_entries_push(cands@, entry);
            }
            cands.push(entry);
            proof {
                assert(entries_view(cands@) =~= before + seq![(k@, json_view(entry.1))]);
            }
        }
        i += 1;
    }
    // Whether two candidate keys are prefix-related paths.
    let ghost cv = entries_view(cands@);
    proof {
        lemma_entries_view(cands@);
    }
    let mut paths: Vec<Vec<String>> = Vec::new();
    let mut p: usize = 0;
    while p < cands.len()
        invariant
            0 <= p <= cands.len(),
            cv == entries_view(cands@),
            cv.len() == cands.len(),
            forall|j: int| 0 <= j < cands.len() ==> #[trigger] cv[j] == (cands@[j].0@, json_view(cands@[j].1)),
            paths.len() == p,
            forall|j: int| 0 <= j < p ==> strings_view(#[trigger] paths@[j]@) == split_dots(cv[j].0),
        decreases cands.len() - p,
    {
        paths.push(split_key(cands[p].0.as_str()));
        proof {
            assert(cv[p as int].0 == cands@[p as int].0@);
        }
        p += 1;
    }
    let mut conflict = false;
    let mut a: usize = 0;
    while a < paths.len() && !conflict
        invariant
            0 <= a <= paths.len(),
            paths.len() == cv.len(),
            forall|j: int| 0 <= j < paths.len() ==> strings_view(#[trigger] paths@[j]@) == split_dots(cv[j].0),
            conflict ==> candidates_conflict(cv),
            !conflict ==> forall|x: int, y: int|
                0 <= x < a && 0 <= y < cv.len() && x != y ==> !prefix_related(
                    split_dots(#[trigger] cv[x].0),
                    split_dots(#[trigger] cv[y].0),
                ),
        decreases paths.len() - a, if conflict { 0int } else { 1int },
    {
        let mut b: usize = 0;
        while b < paths.len() && !conflict
            invariant
                0 <= b <= paths.len(),
                a < paths.len(),
                paths.len() == cv.len(),
                forall|j: int| 0 <= j < paths.len() ==> strings_view(#[trigger] paths@[j]@) == split_dots(cv[j].0),
                conflict ==> candidates_conflict(cv),
                !conflict ==> forall|x: int, y: int|
                    0 <= x < a && 0 <= y < cv.len() && x != y ==> !prefix_related(
                        split_dots(#[trigger] cv[x].0),
                        split_dots(#[trigger] cv[y].0),
                    ),
                !conflict ==> forall|y: int|
                    0 <= y < b && a != y ==> !prefix_related(split_dots(cv[a as int].0), split_dots(#[trigger] cv[y].0)),
            decreases paths.len() - b, if conflict { 0int } else { 1int },
        {
            proof {
                assert(strings_view(paths@[a as int]@) == split_dots(cv[a as int].0));
                assert(strings_view(paths@[b as int]@) == split_dots(cv[b as int].0));
            }
            if a != b && prefix_related_exec(&paths[a], &paths[b]) {
                conflict = true;
            } else {
                b += 1;
            }
        }
        if !conflict {
            a += 1;
        }
    }
    proof {
        if !conflict {
            assert(!candidates_conflict(cv));
        }
    }
    let mut out: Vec<(String, JsonValue)> = Vec::new();
    proof {
        assert(entries_view(out@) =~= Seq::<(Seq<char>, JsonView)>::empty());
    }
    if conflict {
        let mut vals: Vec<(String, JsonValue)> = Vec::new();
        let mut i: usize = 0;
        proof {
            assert(entries_view(vals@) =~= Seq::<(Seq<char>, JsonView)>::empty());
        }
        while i < m.len()
            invariant
                0 <= i <= m.len(),
                ev == entries_view(m@),
                ev.len() == m.len(),
                forall|j: int| 0 <= j < m.len() ==> #[trigger] ev[j] == (m@[j].0@, json_view(m@[j].1)),
                entries_view(vals@) == flatten_values(ev, i as int),
            decreases m.len() - i,
        {
            let entry = (m[i].0.clone(), flatten_keys(&m[i].1));
            proof {
                lemma_entries_push(vals@, entry);
                assert(ev[i as int] == (m@[i as int].0@, json_view(m@[i as int].1)));
            }
            vals.push(entry);
            i += 1;
        }
        insert_each(&mut out, vals);
    } else {
        insert_each(&mut out, cands);
    }
    out
}

// ---------------------------------------------------------------------------
// Folding then expanding gives the value back
// ---------------------------------------------------------------------------

/// Whether `k` holds no `.`.
pub open spec fn dotless(k: Seq<char>) -> bool {
    !k.contains('.')
}

/// Whether the keys of an object's entries are distinct.
pub open spec fn distinct_keys_of(m: Seq<(Seq<char>, JsonView)>) -> bool {
    forall|i: int, j: int| 0 <= i < j < m.len() ==> #[trigger] m[i].0 != #[trigger] m[j].0
}

/// Whether every object in `v` has distinct keys, none of them holding a
/// `.` (a JSON value without dotted keys).
pub open spec fn plain_keys(v: JsonView) -> bool
    decreases v,
{
    match v {
        JsonView::Object(m) => distinct_keys_of(m) && forall|i: int|
            0 <= i < m.len() ==> dotless(#[trigger] m[i].0) && plain_keys(m[i].1),
        JsonView::Array(a) => forall|i: int| 0 <= i < a.len() ==> plain_keys(#[trigger] a[i]),
        _ => true,
    }
}

proof fn lemma_split_dotless(k: Seq<char>)
    requires
        dotless(k),
    ensures
        split_dots(k) == seq![k],
    decreases k.len(),
{
    if k.len() > 0 {
        assert(!k.drop_last().contains('.')) by {
            if k.drop_last().contains('.') {
                let i = choose|i: int| 0 <= i < k.drop_last().len() && k.drop_last()[i] == '.';
                assert(k[i] == '.');
            }
        }
        lemma_split_dotless(k.drop_last());
        assert(k.last() != '.') by {
            assert(k[k.len() - 1] == k.last());
        }
        assert(k.drop_last().push(k.last()) =~= k);
        assert(split_dots(k) =~= seq![k]);
    } else {
        assert(k =~= Seq::<char>::empty());
        assert(split_dots(k) =~= seq![k]);
    }
}

proof fn lemma_split_join(k: Seq<char>, t: Seq<char>)
    requires
        dotless(k),
    ensures
        split_dots(k + seq!['.'] + t) == seq![k] + split_dots(t),
    decreases t.len(),
{
    lemma_split_dots_len(t);
    if t.len() == 0 {
        lemma_split_dotless(k);
        let w = k + seq!['.'] + t;
        assert(w.drop_last() =~= k);
        assert(split_dots(w) =~= seq![k] + split_dots(t));
    } else {
        let w = k + seq!['.'] + t;
        assert(w.drop_last() =~= k + seq!['.'] + t.drop_last());
        assert(w.last() == t.last());
        lemma_split_join(k, t.drop_last());
        lemma_split_dots_len(t.drop_last());
        let r = split_dots(t.drop_last());
        if t.last() == '.' {
            assert(split_dots(w) =~= (seq![k] + r).push(Seq::empty()));
            assert(seq![k] + r.push(Seq::empty()) =~= (seq![k] + r).push(Seq::empty()));
        } else {
            let kr = seq![k] + r;
            assert(kr.last() == r.last());
            assert(kr.update(kr.len() - 1, kr.last().push(t.last())) =~= seq![k] + r.update(
                r.len() - 1,
                r.last().push(t.last()),
            ));
        }
    }
}

proof fn lemma_foldable_dotless(k: Seq<char>)
    requires
        foldable(k),
    ensures
        dotless(k),
{
    if k.contains('.') {
        let i = choose|i: int| 0 <= i < k.len() && k[i] == '.';
        if i > 0 {
            assert(is_ident_char(k[i]));
        }
    }
}

proof fn lemma_key_index_absent(m: Seq<(Seq<char>, JsonView)>, k: Seq<char>, i: int)
    requires
        0 <= i,
        forall|j: int| i <= j < m.len() ==> #[trigger] m[j].0 != k,
    ensures
        key_index(m, k, i) == -1,
    decreases m.len() - i,
{
    if i < m.len() {
        lemma_key_index_absent(m, k, i + 1);
    }
}

proof fn lemma_insert_path_fresh(
    acc: Seq<(Seq<char>, JsonView)>,
    k: Seq<char>,
    rest: Seq<Seq<char>>,
    x: JsonView,
)
    requires
        rest.len() >= 1,
        key_index(acc, k, 0) == -1,
    ensures
        insert_path(acc, seq![k] + rest, x) == acc.push((k, JsonView::Object(insert_path(Seq::empty(), rest, x)))),
{
    let segs = seq![k] + rest;
    assert(segs[0] == k);
    assert(segs.drop_first() =~= rest);
}

/// A folded chain, put back at its path, is the entry it came from.
proof fn lemma_chain(k: Seq<char>, v: JsonView)
    requires
        foldable(k),
        plain_keys(v),
        fold_chain(k, v) is Some,
    ensures
        ({
            let (fk, leaf) = fold_chain(k, v)->Some_0;
            &&& split_dots(fk).len() >= 1
            &&& split_dots(fk)[0] == k
            &&& all_foldable(split_dots(fk))
            &&& plain_keys(leaf)
            &&& (split_dots(fk).len() == 1 ==> fk == k && leaf == v)
            &&& insert_path(Seq::empty(), split_dots(fk), leaf) == seq![(k, v)]
        }),
    decreases v,
{
    lemma_foldable_dotless(k);
    lemma_split_dotless(k);
    let (fk, leaf) = fold_chain(k, v)->Some_0;
    match v {
        JsonView::Object(m) => {
            if m.len() == 0 {
                lemma_key_index_absent(Seq::<(Seq<char>, JsonView)>::empty(), k, 0);
                assert(insert_path(Seq::empty(), seq![k], v) =~= seq![(k, v)]);
            } else {
                let nk = m[0].0;
                let nv = m[0].1;
                assert(plain_keys(nv)) by {
                    assert(dotless(m[0].0) && plain_keys(m[0].1));
                }
                lemma_chain(nk, nv);
                let (suffix, l2) = fold_chain(nk, nv)->Some_0;
                assert(fk == k + seq!['.'] + suffix);
                lemma_split_join(k, suffix);
                let rest = split_dots(suffix);
                assert(split_dots(fk) == seq![k] + rest);
                assert forall|i: int| 0 <= i < split_dots(fk).len() implies #[trigger] foldable(split_dots(fk)[i]) by {
                    if i > 0 {
                        assert(split_dots(fk)[i] == rest[i - 1]);
                    }
                }
                lemma_key_index_absent(Seq::<(Seq<char>, JsonView)>::empty(), k, 0);
                lemma_insert_path_fresh(Seq::empty(), k, rest, leaf);
                assert(m =~= seq![(nk, nv)]);
                assert(insert_path(Seq::empty(), split_dots(fk), leaf) =~= seq![(k, v)]);
            }
        },
        _ => {
            lemma_key_index_absent(Seq::<(Seq<char>, JsonView)>::empty(), k, 0);
            assert(insert_path(Seq::empty(), seq![k], v) =~= seq![(k, v)]);
        },
    }
}

/// Where an entry goes when its object is folded without collisions.
pub open spec fn folded_entry(e: (Seq<char>, JsonView)) -> (Seq<char>, JsonView) {
    if foldable(e.0) && fold_chain(e.0, e.1) is Some {
        fold_chain(e.0, e.1)->Some_0
    } else {
        (e.0, fold_view(e.1))
    }
}

/// The first `k` entries, each where folding puts it.
pub open spec fn folded_list(m: Seq<(Seq<char>, JsonView)>, k: int) -> Seq<(Seq<char>, JsonView)>
    decreases k,
{
    if k <= 0 {
        Seq::empty()
    } else {
        folded_list(m, k - 1).push(folded_entry(m[k - 1]))
    }
}

/// The path of an entry's folded key starts with its own key.
proof fn lemma_folded_key_head(e: (Seq<char>, JsonView))
    requires
        dotless(e.0),
        plain_keys(e.1),
    ensures
        split_dots(folded_key(e)).len() >= 1,
        split_dots(folded_key(e))[0] == e.0,
        folded_entry(e).0 == folded_key(e),
{
    if foldable(e.0) && fold_chain(e.0, e.1) is Some {
        lemma_chain(e.0, e.1);
    } else {
        lemma_split_dotless(e.0);
    }
}

proof fn lemma_plain_object(m: Seq<(Seq<char>, JsonView)>, i: int)
    requires
        plain_keys(JsonView::Object(m)),
        0 <= i < m.len(),
    ensures
        dotless(m[i].0),
        plain_keys(m[i].1),
{
    let v = JsonView::Object(m);
    assert(v matches JsonView::Object(mm) && mm == m);
    assert(dotless(m[i].0) && plain_keys(m[i].1));
}

proof fn lemma_no_collision(m: Seq<(Seq<char>, JsonView)>, i: int)
    requires
        plain_keys(JsonView::Object(m)),
        0 <= i < m.len(),
    ensures
        !fold_collides(m, i),
{
    lemma_plain_object(m, i);
    lemma_folded_key_head(m[i]);
    if fold_collides(m, i) {
        let j = choose|j: int|
            0 <= j < m.len() && j != i && prefix_related(
                split_dots(folded_key(m[i])),
                split_dots(#[trigger] folded_key(m[j])),
            );
        lemma_plain_object(m, j);
        lemma_folded_key_head(m[j]);
        let a = split_dots(folded_key(m[i]));
        let b = split_dots(folded_key(m[j]));
        let n = if a.len() <= b.len() { a.len() } else { b.len() };
        assert(a.take(n as int)[0] == b.take(n as int)[0]);
        if i < j {
            assert(m[i].0 != m[j].0);
        } else {
            assert(m[j].0 != m[i].0);
        }
    }
}

/// Folding an object without dotted keys puts each entry at the end.
proof fn lemma_fold_entries(m: Seq<(Seq<char>, JsonView)>, k: int)
    requires
        plain_keys(JsonView::Object(m)),
        0 <= k <= m.len(),
    ensures
        fold_entries(m, k) == folded_list(m, k),
        folded_list(m, k).len() == k,
        forall|j: int| 0 <= j < k ==> #[trigger] folded_list(m, k)[j] == folded_entry(m[j]),
    decreases k,
{
    if k > 0 {
        lemma_fold_entries(m, k - 1);
        lemma_no_collision(m, k - 1);
        let prev = folded_list(m, k - 1);
        let e = m[k - 1];
        lemma_plain_object(m, k - 1);
        lemma_folded_key_head(e);
        assert forall|j: int| 0 <= j < prev.len() implies #[trigger] prev[j].0 != folded_entry(e).0 by {
            lemma_plain_object(m, j);
            lemma_folded_key_head(m[j]);
            assert(prev[j] == folded_entry(m[j]));
            if prev[j].0 == folded_entry(e).0 {
                assert(m[j].0 == e.0);
                assert(m[j].0 != m[k - 1].0);
            }
        }
        lemma_key_index_absent(prev, folded_entry(e).0, 0);
    }
}

/// Expanding a value without dotted keys leaves it as it is.
pub proof fn lemma_expand_plain(v: JsonView)
    requires
        plain_keys(v),
    ensures
        expand_view(v) == v,
    decreases v, 2int,
{
    match v {
        JsonView::Object(m) => {
            lemma_expand_plain_entries(m, m.len() as int);
            assert(m.take(m.len() as int) =~= m);
        },
        JsonView::Array(a) => {
            lemma_expand_plain_items(a, a.len() as int);
            assert(a.take(a.len() as int) =~= a);
        },
        _ => {},
    }
}

proof fn lemma_expand_plain_items(a: Seq<JsonView>, k: int)
    requires
        plain_keys(JsonView::Array(a)),
        0 <= k <= a.len(),
    ensures
        expand_items(a, k) == a.take(k),
    decreases a, k,
{
    if k > 0 {
        lemma_expand_plain_items(a, k - 1);
        assert(plain_keys(a[k - 1])) by {
            let v = JsonView::Array(a);
            assert(v matches JsonView::Array(aa) && aa == a);
        }
        lemma_expand_plain(a[k - 1]);
        assert(a.take(k - 1).push(a[k - 1]) =~= a.take(k));
    } else {
        assert(a.take(0) =~= Seq::<JsonView>::empty());
    }
}

proof fn lemma_expand_plain_entries(m: Seq<(Seq<char>, JsonView)>, k: int)
    requires
        plain_keys(JsonView::Object(m)),
        0 <= k <= m.len(),
    ensures
        expand_entries(m, k) == m.take(k),
    decreases m, k,
{
    if k > 0 {
        lemma_expand_plain_entries(m, k - 1);
        lemma_plain_object(m, k - 1);
        let e = m[k - 1];
        lemma_expand_plain(e.1);
        lemma_split_dotless(e.0);
        let acc = m.take(k - 1);
        assert forall|j: int| 0 <= j < acc.len() implies #[trigger] acc[j].0 != e.0 by {
            assert(acc[j] == m[j]);
        }
        lemma_key_index_absent(acc, e.0, 0);
        assert(acc.push(e) =~= m.take(k));
    } else {
        assert(m.take(0) =~= Seq::<(Seq<char>, JsonView)>::empty());
    }
}

/// Folding key chains and expanding the dotted keys gives back a value
/// that had no dotted keys (and distinct keys in each object).
pub proof fn lemma_fold_then_expand(v: JsonView)
    requires
        plain_keys(v),
    ensures
        expand_view(fold_view(v)) == v,
    decreases v, 2int,
{
    match v {
        JsonView::Object(m) => {
            let n = m.len() as int;
            lemma_fold_entries(m, n);
            lemma_expand_folded(m, n);
            assert(m.take(n) =~= m);
        },
        _ => {
            lemma_expand_plain(v);
        },
    }
}

/// Expanding the first `k` folded entries gives the first `k` entries.
proof fn lemma_expand_folded(m: Seq<(Seq<char>, JsonView)>, k: int)
    requires
        plain_keys(JsonView::Object(m)),
        0 <= k <= m.len(),
    ensures
        expand_entries(folded_list(m, m.len() as int), k) == m.take(k),
    decreases m, k,
{
    let x = folded_list(m, m.len() as int);
    lemma_fold_entries(m, m.len() as int);
    if k > 0 {
        lemma_expand_folded(m, k - 1);
        lemma_plain_object(m, k - 1);
        let e = m[k - 1];
        let acc = m.take(k - 1);
        assert forall|j: int| 0 <= j < acc.len() implies #[trigger] acc[j].0 != e.0 by {
            assert(acc[j] == m[j]);
        }
        lemma_key_index_absent(acc, e.0, 0);
        assert(x[k - 1] == folded_entry(e));
        assert(acc.push(e) =~= m.take(k));
        if foldable(e.0) && fold_chain(e.0, e.1) is Some {
            lemma_chain(e.0, e.1);
            let (fk, leaf) = fold_chain(e.0, e.1)->Some_0;
            lemma_expand_plain(leaf);
            let segs = split_dots(fk);
            if segs.len() == 1 {
                lemma_split_dotless(e.0);
            } else {
                let rest = segs.drop_first();
                assert(segs =~= seq![e.0] + rest);
                lemma_key_index_absent(Seq::<(Seq<char>, JsonView)>::empty(), e.0, 0);
                lemma_insert_path_fresh(Seq::empty(), e.0, rest, leaf);
                lemma_insert_path_fresh(acc, e.0, rest, leaf);
                assert(Seq::<(Seq<char>, JsonView)>::empty().push(
                    (e.0, JsonView::Object(insert_path(Seq::empty(), rest, leaf))),
                ) =~= seq![(e.0, e.1)]) by {
                    assert(seq![(e.0, e.1)][0] == (e.0, e.1));
                }
            }
        } else {
            lemma_split_dotless(e.0);
            lemma_fold_then_expand(e.1);
        }
    } else {
        assert(m.take(0) =~= Seq::<(Seq<char>, JsonView)>::empty());
    }
}

// ---------------------------------------------------------------------------
// Flattening then expanding gives the value back
// ---------------------------------------------------------------------------

/// One step of expansion: an entry put into an object.
spec fn expand_step(acc: Seq<(Seq<char>, JsonView)>, e: (Seq<char>, JsonView)) -> Seq<(Seq<char>, JsonView)> {
    let segs = split_dots(e.0);
    if segs.len() > 1 && all_foldable(segs) {
        insert_path(acc, segs, expand_view(e.1))
    } else {
        view_insert(acc, e.0, expand_view(e.1))
    }
}

/// The entries of `s` expanded, in order, into `acc`.
spec fn expand_onto(acc: Seq<(Seq<char>, JsonView)>, s: Seq<(Seq<char>, JsonView)>) -> Seq<(Seq<char>, JsonView)>
    decreases s.len(),
{
    if s.len() == 0 {
        acc
    } else {
        expand_step(expand_onto(acc, s.drop_last()), s.last())
    }
}

/// What one entry gives among the candidates of a flattened object.
spec fn flat_chunk(e: (Seq<char>, JsonView)) -> Seq<(Seq<char>, JsonView)> {
    let fv = flatten_view(e.1);
    match fv {
        JsonView::Object(child) => if foldable(e.0) && child.len() > 0 && liftable(e.0, child) {
            lifted(e.0, child)
        } else {
            seq![(e.0, fv)]
        },
        _ => seq![(e.0, fv)],
    }
}

proof fn lemma_expand_entries_onto(c: Seq<(Seq<char>, JsonView)>, k: int)
    requires
        0 <= k <= c.len(),
    ensures
        expand_entries(c, k) == expand_onto(Seq::empty(), c.take(k)),
    decreases k,
{
    if k > 0 {
        lemma_expand_entries_onto(c, k - 1);
        assert(c.take(k).drop_last() =~= c.take(k - 1));
        assert(c.take(k).last() == c[k - 1]);
    } else {
        assert(c.take(0) =~= Seq::<(Seq<char>, JsonView)>::empty());
    }
}

proof fn lemma_expand_onto_append(
    acc: Seq<(Seq<char>, JsonView)>,
    s1: Seq<(Seq<char>, JsonView)>,
    s2: Seq<(Seq<char>, JsonView)>,
)
    ensures
        expand_onto(acc, s1 + s2) == expand_onto(expand_onto(acc, s1), s2),
    decreases s2.len(),
{
    if s2.len() == 0 {
        assert(s1 + s2 =~= s1);
    } else {
        lemma_expand_onto_append(acc, s1, s2.drop_last());
        assert((s1 + s2).drop_last() =~= s1 + s2.drop_last());
        assert((s1 + s2).last() == s2.last());
    }
}

proof fn lemma_key_index_pushed(m: Seq<(Seq<char>, JsonView)>, k: Seq<char>, x: JsonView, i: int)
    requires
        0 <= i <= m.len(),
        key_index(m, k, i) == -1,
    ensures
        key_index(m.push((k, x)), k, i) == m.len(),
    decreases m.len() - i,
{
    if i < m.len() {
        assert(m.push((k, x))[i] == m[i]);
        lemma_key_index_pushed(m, k, x, i + 1);
    } else {
        assert(m.push((k, x))[i] == (k, x));
    }
}

proof fn lemma_split_single(s: Seq<char>)
    requires
        split_dots(s).len() == 1,
    ensures
        split_dots(s) == seq![s],
    decreases s.len(),
{
    if s.len() == 0 {
        assert(s =~= Seq::<char>::empty());
        assert(split_dots(s) =~= seq![s]);
    } else {
        lemma_split_dots_len(s.drop_last());
        if s.last() != '.' {
            lemma_split_single(s.drop_last());
            assert(s.drop_last().push(s.last()) =~= s);
            assert(split_dots(s) =~= seq![s]);
        }
    }
}

/// An entry whose key has only identifier segments is expanded at its path.
proof fn lemma_expand_step_path(acc: Seq<(Seq<char>, JsonView)>, e: (Seq<char>, JsonView))
    requires
        all_foldable(split_dots(e.0)),
    ensures
        expand_step(acc, e) == insert_path(acc, split_dots(e.0), expand_view(e.1)),
{
    lemma_split_dots_len(e.0);
    if split_dots(e.0).len() == 1 {
        lemma_split_single(e.0);
        assert(seq![e.0][0] == e.0);
    }
}

/// The lifted children of `k`, expanded, make one entry `k` again.
proof fn lemma_expand_lifted(acc: Seq<(Seq<char>, JsonView)>, k: Seq<char>, child: Seq<(Seq<char>, JsonView)>)
    requires
        dotless(k),
        key_index(acc, k, 0) == -1,
        child.len() > 0,
        liftable(k, child),
    ensures
        expand_onto(acc, lifted(k, child)) == acc.push((k, JsonView::Object(expand_onto(Seq::empty(), child)))),
    decreases child.len(),
{
    let n = child.len() as int;
    let last = child[n - 1];
    let x = expand_view(last.1);
    let rest = split_dots(last.0);
    let key = k + seq!['.'] + last.0;
    lemma_split_join(k, last.0);
    lemma_split_dots_len(last.0);
    let segs = split_dots(key);
    assert(all_foldable(segs)) by {
        assert(all_foldable(split_dots(k + seq!['.'] + child[n - 1].0)));
    }
    assert(all_foldable(rest)) by {
        assert forall|i: int| 0 <= i < rest.len() implies #[trigger] foldable(rest[i]) by {
            assert(segs[i + 1] == rest[i]);
            assert(foldable(segs[i + 1]));
        }
    }
    assert(segs[0] == k);
    assert(segs.drop_first() =~= rest);
    let lf = lifted(k, child);
    assert(lf.drop_last() =~= lifted(k, child.drop_last()));
    assert(lf.last() == (key, last.1));
    assert(child.last() == last);
    lemma_expand_step_path(expand_onto(Seq::empty(), child.drop_last()), last);
    if n == 1 {
        assert(child.drop_last() =~= Seq::<(Seq<char>, JsonView)>::empty());
        assert(lifted(k, child.drop_last()) =~= Seq::<(Seq<char>, JsonView)>::empty());
        lemma_insert_path_fresh(acc, k, rest, x);
        assert(seq![k] + rest =~= segs);
        assert(expand_onto(acc, lf.drop_last()) == acc);
        assert(expand_step(acc, (key, last.1)) == insert_path(acc, segs, x));
        assert(expand_onto(Seq::empty(), child.drop_last()) == Seq::<(Seq<char>, JsonView)>::empty());
        assert(expand_onto(Seq::empty(), child) == expand_step(Seq::empty(), last));
    } else {
        assert(liftable(k, child.drop_last())) by {
            assert forall|i: int| 0 <= i < child.drop_last().len() implies all_foldable(
                split_dots(k + seq!['.'] + #[trigger] child.drop_last()[i].0),
            ) by {
                assert(child.drop_last()[i] == child[i]);
                assert(all_foldable(split_dots(k + seq!['.'] + child[i].0)));
            }
        }
        lemma_expand_lifted(acc, k, child.drop_last());
        let inner = expand_onto(Seq::empty(), child.drop_last());
        let acc2 = acc.push((k, JsonView::Object(inner)));
        lemma_key_index_pushed(acc, k, JsonView::Object(inner), 0);
        assert(acc2[acc.len() as int].1 == JsonView::Object(inner));
        assert(acc2.update(acc.len() as int, (k, JsonView::Object(insert_path(inner, rest, x)))) =~= acc.push(
            (k, JsonView::Object(insert_path(inner, rest, x))),
        ));
        assert(expand_onto(acc, lf) == expand_step(acc2, (key, last.1)));
        assert(expand_step(acc2, (key, last.1)) == insert_path(acc2, segs, x));
        assert(insert_path(acc2, segs, x) == acc2.update(
            acc.len() as int,
            (k, JsonView::Object(insert_path(inner, rest, x))),
        ));
        assert(expand_onto(Seq::empty(), child) == expand_step(inner, last));
    }
}

/// The candidates one entry gives, expanded, are the entry again.
proof fn lemma_expand_chunk(acc: Seq<(Seq<char>, JsonView)>, e: (Seq<char>, JsonView))
    requires
        dotless(e.0),
        key_index(acc, e.0, 0) == -1,
        expand_view(flatten_view(e.1)) == e.1,
    ensures
        expand_onto(acc, flat_chunk(e)) == acc.push(e),
{
    let fv = flatten_view(e.1);
    lemma_split_dotless(e.0);
    let single = seq![(e.0, fv)];
    assert(single.drop_last() =~= Seq::<(Seq<char>, JsonView)>::empty());
    assert(single.last() == (e.0, fv));
    assert(expand_onto(acc, single.drop_last()) == acc);
    assert(expand_onto(acc, single) == expand_step(acc, (e.0, fv)));
    match fv {
        JsonView::Object(child) => {
            if foldable(e.0) && child.len() > 0 && liftable(e.0, child) {
                lemma_expand_lifted(acc, e.0, child);
                lemma_expand_entries_onto(child, child.len() as int);
                assert(child.take(child.len() as int) =~= child);
                assert(e.1 == JsonView::Object(expand_onto(Seq::empty(), child)));
            } else {
                assert(flat_chunk(e) == single);
            }
        },
        _ => {
            assert(flat_chunk(e) == single);
        },
    }
}

proof fn lemma_insert_all_distinct(c: Seq<(Seq<char>, JsonView)>)
    requires
        distinct_keys_of(c),
    ensures
        insert_all(Seq::empty(), c) == c,
    decreases c.len(),
{
    if c.len() > 0 {
        let p = c.drop_last();
        assert(distinct_keys_of(p)) by {
            assert forall|i: int, j: int| 0 <= i < j < p.len() implies #[trigger] p[i].0 != #[trigger] p[j].0 by {
                assert(p[i] == c[i] && p[j] == c[j]);
            }
        }
        lemma_insert_all_distinct(p);
        assert forall|j: int| 0 <= j < p.len() implies #[trigger] p[j].0 != c.last().0 by {
            assert(p[j] == c[j]);
            assert(c.last() == c[c.len() - 1]);
        }
        lemma_key_index_absent(p, c.last().0, 0);
        assert(p.push(c.last()) =~= c);
    }
}

/// The candidates of the first `k` entries, expanded, are those entries.
proof fn lemma_expand_candidates(m: Seq<(Seq<char>, JsonView)>, k: int)
    requires
        plain_keys(JsonView::Object(m)),
        0 <= k <= m.len(),
    ensures
        expand_onto(Seq::empty(), flatten_candidates(m, k)) == m.take(k),
    decreases m, k,
{
    if k > 0 {
        lemma_expand_candidates(m, k - 1);
        lemma_plain_object(m, k - 1);
        let e = m[k - 1];
        lemma_flatten_then_expand(e.1);
        assert(flatten_candidates(m, k) == flatten_candidates(m, k - 1) + flat_chunk(e));
        lemma_expand_onto_append(Seq::empty(), flatten_candidates(m, k - 1), flat_chunk(e));
        let acc = m.take(k - 1);
        assert forall|j: int| 0 <= j < acc.len() implies #[trigger] acc[j].0 != e.0 by {
            assert(acc[j] == m[j]);
        }
        lemma_key_index_absent(acc, e.0, 0);
        lemma_expand_chunk(acc, e);
        assert(acc.push(e) =~= m.take(k));
    } else {
        assert(m.take(0) =~= Seq::<(Seq<char>, JsonView)>::empty());
    }
}

/// The first `k` entries with flattened values, expanded, are those entries.
proof fn lemma_expand_flat_values(m: Seq<(Seq<char>, JsonView)>, k: int)
    requires
        plain_keys(JsonView::Object(m)),
        0 <= k <= m.len(),
    ensures
        flatten_values(m, k).len() == k,
        forall|j: int| 0 <= j < k ==> #[trigger] flatten_values(m, k)[j] == (m[j].0, flatten_view(m[j].1)),
        expand_onto(Seq::empty(), flatten_values(m, k)) == m.take(k),
    decreases m, k,
{
    if k > 0 {
        lemma_expand_flat_values(m, k - 1);
        lemma_plain_object(m, k - 1);
        let e = m[k - 1];
        lemma_flatten_then_expand(e.1);
        lemma_split_dotless(e.0);
        let prev = flatten_values(m, k - 1);
        assert(flatten_values(m, k).drop_last() =~= prev);
        let acc = m.take(k - 1);
        assert forall|j: int| 0 <= j < acc.len() implies #[trigger] acc[j].0 != e.0 by {
            assert(acc[j] == m[j]);
        }
        lemma_key_index_absent(acc, e.0, 0);
        assert(acc.push(e) =~= m.take(k));
    } else {
        assert(m.take(0) =~= Seq::<(Seq<char>, JsonView)>::empty());
    }
}

proof fn lemma_flatten_items_shape(a: Seq<JsonView>, k: int)
    requires
        0 <= k <= a.len(),
    ensures
        flatten_items(a, k).len() == k,
        forall|j: int| 0 <= j < k ==> #[trigger] flatten_items(a, k)[j] == flatten_view(a[j]),
    decreases k,
{
    if k > 0 {
        lemma_flatten_items_shape(a, k - 1);
    }
}

/// The first `k` flattened items, expanded, are those items.
proof fn lemma_expand_flat_items(a: Seq<JsonView>, k: int)
    requires
        plain_keys(JsonView::Array(a)),
        0 <= k <= a.len(),
    ensures
        expand_items(flatten_items(a, a.len() as int), k) == a.take(k),
    decreases a, k,
{
    lemma_flatten_items_shape(a, a.len() as int);
    if k > 0 {
        lemma_expand_flat_items(a, k - 1);
        assert(plain_keys(a[k - 1])) by {
            let v = JsonView::Array(a);
            assert(v matches JsonView::Array(aa) && aa == a);
        }
        lemma_flatten_then_expand(a[k - 1]);
        assert(a.take(k - 1).push(a[k - 1]) =~= a.take(k));
    } else {
        assert(a.take(0) =~= Seq::<JsonView>::empty());
    }
}

/// Flattening nested objects into dotted keys and expanding the dotted
/// keys gives back a value that had no dotted keys (and distinct keys in
/// each object).
pub proof fn lemma_flatten_then_expand(v: JsonView)
    requires
        plain_keys(v),
    ensures
        expand_view(flatten_view(v)) == v,
    decreases v, 2int,
{
    match v {
        JsonView::Object(m) => {
            let n = m.len() as int;
            let c = flatten_candidates(m, n);
            assert(distinct_keys_of(m)) by {
                assert(v matches JsonView::Object(mm) && mm == m);
            }
            if candidates_conflict(c) {
                lemma_expand_flat_values(m, n);
                let fvs = flatten_values(m, n);
                assert(distinct_keys_of(fvs)) by {
                    assert forall|i: int, j: int| 0 <= i < j < fvs.len() implies #[trigger] fvs[i].0
                        != #[trigger] fvs[j].0 by {
                        assert(fvs[i].0 == m[i].0 && fvs[j].0 == m[j].0);
                    }
                }
                lemma_insert_all_distinct(fvs);
                lemma_expand_entries_onto(fvs, n);
                assert(fvs.take(n) =~= fvs);
            } else {
                lemma_expand_candidates(m, n);
                assert(distinct_keys_of(c)) by {
                    assert forall|i: int, j: int| 0 <= i < j < c.len() implies #[trigger] c[i].0
                        != #[trigger] c[j].0 by {
                        if c[i].0 == c[j].0 {
                            let a = split_dots(c[i].0);
                            let n2 = a.len();
                            assert(a.take(n2 as int) == split_dots(c[j].0).take(n2 as int));
                            assert(prefix_related(split_dots(c[i].0), split_dots(c[j].0)));
                        }
                    }
                }
                lemma_insert_all_distinct(c);
                lemma_expand_entries_onto(c, c.len() as int);
                assert(c.take(c.len() as int) =~= c);
            }
            assert(m.take(n) =~= m);
        },
        JsonView::Array(a) => {
            lemma_expand_flat_items(a, a.len() as int);
            lemma_flatten_items_shape(a, a.len() as int);
            assert(a.take(a.len() as int) =~= a);
        },
        _ => {},
    }
}


} // verus!
