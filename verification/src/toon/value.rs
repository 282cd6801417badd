//! The values the decoder produces: JSON's data model, with float literals
//! kept as text for the float parser to settle.
use vstd::prelude::*;

verus! {

/// A JSON value.
#[derive(Debug)]
pub enum JsonValue {
    Null,
    Bool(bool),
    /// An integer that fits `i64`
    Int(i64),
    /// An integer above `i64::MAX` that fits `u64`
    UInt(u64),
    /// A decimal literal with a fraction or an exponent (float syntax). The
    /// float parser settles it: a finite value becomes a number (an integer
    /// when it is whole and fits `i64`), any other stays this text as a string.
    Float(String),
    String(String),
    Array(Vec<JsonValue>),
    /// Entries in the order their keys first appeared; keys are distinct.
    Object(Vec<(String, JsonValue)>),
}

/// The model of a scalar.
pub enum ScalarView {
    Null,
    Bool(bool),
    Int(int),
    Float(Seq<char>),
    Str(Seq<char>),
}

/// Whether `v` is the scalar `w`.
pub open spec fn is_scalar(v: JsonValue, w: ScalarView) -> bool {
    match w {
        ScalarView::Null => v is Null,
        ScalarView::Bool(b) => v == JsonValue::Bool(b),
        ScalarView::Int(n) => (v matches JsonValue::Int(i) && i == n) || (v matches JsonValue::UInt(u) && u == n && n
            > i64::MAX),
        ScalarView::Float(t) => v matches JsonValue::Float(f) && f@ == t,
        ScalarView::Str(t) => v matches JsonValue::String(s) && s@ == t,
    }
}

/// The keys of an object's entries, in order.
pub open spec fn keys_of(entries: Seq<(String, JsonValue)>) -> Seq<Seq<char>> {
    entries.map_values(|e: (String, JsonValue)| e.0@)
}

/// `keys` with `k` added at the end unless it is there already.
pub open spec fn add_key(keys: Seq<Seq<char>>, k: Seq<char>) -> Seq<Seq<char>> {
    if keys.contains(k) {
        keys
    } else {
        keys.push(k)
    }
}

/// The index of the first entry from `i` on with key `k`, or -1.
pub open spec fn key_index(m: Seq<(Seq<char>, JsonView)>, k: Seq<char>, i: int) -> int
    decreases m.len() - i,
{
    if !(0 <= i < m.len()) {
        -1
    } else if m[i].0 == k {
        i
    } else {
        key_index(m, k, i + 1)
    }
}

/// Inserting into an object: the value of an existing key is replaced in
/// place; a new key goes at the end.
pub open spec fn view_insert(m: Seq<(Seq<char>, JsonView)>, k: Seq<char>, v: JsonView) -> Seq<(Seq<char>, JsonView)> {
    let j = key_index(m, k, 0);
    if j >= 0 {
        m.update(j, (k, v))
    } else {
        m.push((k, v))
    }
}

/// Inserts an entry into an object: the value of an existing key is
/// replaced in place, a new key goes at the end (`Map::insert`).
pub fn object_insert(entries: &mut Vec<(String, JsonValue)>, key: String, value: JsonValue)
    ensures
        keys_of(final(entries)@) == add_key(keys_of(old(entries)@), key@),
        entries_view(final(entries)@) == view_insert(entries_view(old(entries)@), key@, json_view(value)),
        exists|i: int| 0 <= i < final(entries)@.len() && #[trigger] final(entries)@[i].0@ == key@ && final(entries)@[i].1 == value,
{
    let ghost ks = keys_of(entries@);
    let ghost ev = entries_view(entries@);
    proof {
        lemma_entries_view(entries@);
    }
    let mut i: usize = 0;
    while i < entries.len()
        invariant
            0 <= i <= entries.len(),
            ks == keys_of(entries@),
            entries@ == old(entries)@,
            ev == entries_view(old(entries)@),
            ev.len() == entries@.len(),
            forall|j: int| 0 <= j < entries@.len() ==> #[trigger] ev[j] == (entries@[j].0@, json_view(entries@[j].1)),
            forall|j: int| 0 <= j < i ==> entries@[j].0@ != key@,
            key_index(ev, key@, 0) == key_index(ev, key@, i as int),
        decreases entries.len() - i,
    {
        if entries[i].0 == key {
            proof {
                assert(ev[i as int].0 == key@);
            }
            proof {
                assert(ks.contains(key@)) by {
                    assert(ks[i as int] == key@);
                }
            }
            let ghost vv = json_view(value);
            entries.set(i, (key, value));
            proof {
                lemma_entries_view(entries@);
                assert(entries_view(entries@) =~= ev.update(i as int, (key@, vv)));
                assert(keys_of(entries@) =~= ks);
                assert(entries@[i as int].0@ == ks[i as int]);
                assert(keys_of(old(entries)@) == ks);
                assert(add_key(ks, key@) == ks);
            }
            return;
        }
        proof {
            assert(ev[i as int].0 != key@);
        }
        i += 1;
    }
    proof {
        assert(key_index(ev, key@, i as int) == -1);
        assert(!ks.contains(key@)) by {
            if ks.contains(key@) {
                let j = choose|j: int| 0 <= j < ks.len() && ks[j] == key@;
                assert(entries@[j].0@ == ks[j]);
            }
        }
    }
    let ghost vv = json_view(value);
    entries.push((key, value));
    proof {
        assert(entries@.drop_last() =~= old(entries)@);
        assert(entries_view(entries@) =~= ev.push((key@, vv)));
        assert(keys_of(entries@) =~= ks.push(key@));
        assert(entries@[entries@.len() - 1].0@ == key@);
    }
}

/// The model of a JSON value.
pub enum JsonView {
    Null,
    Bool(bool),
    Int(int),
    Float(Seq<char>),
    Str(Seq<char>),
    Array(Seq<JsonView>),
    Object(Seq<(Seq<char>, JsonView)>),
}

/// The model of a value.
pub open spec fn json_view(v: JsonValue) -> JsonView
    decreases v,
{
    match v {
        JsonValue::Null => JsonView::Null,
        JsonValue::Bool(b) => JsonView::Bool(b),
        JsonValue::Int(n) => JsonView::Int(n as int),
        JsonValue::UInt(n) => JsonView::Int(n as int),
        JsonValue::Float(t) => JsonView::Float(t@),
        JsonValue::String(s) => JsonView::Str(s@),
        JsonValue::Array(items) => JsonView::Array(items_view(items@)),
        JsonValue::Object(entries) => JsonView::Object(entries_view(entries@)),
    }
}

/// The models of a sequence of values.
pub open spec fn items_view(s: Seq<JsonValue>) -> Seq<JsonView>
    decreases s,
{
    if s.len() == 0 {
        Seq::empty()
    } else {
        items_view(s.drop_last()).push(json_view(s.last()))
    }
}

/// The models of a sequence of entries.
pub open spec fn entries_view(s: Seq<(String, JsonValue)>) -> Seq<(Seq<char>, JsonView)>
    decreases s,
{
    if s.len() == 0 {
        Seq::empty()
    } else {
        entries_view(s.drop_last()).push((s.last().0@, json_view(s.last().1)))
    }
}

pub proof fn lemma_items_view(s: Seq<JsonValue>)
    ensures
        items_view(s).len() == s.len(),
        forall|i: int| 0 <= i < s.len() ==> #[trigger] items_view(s)[i] == json_view(s[i]),
    decreases s.len(),
{
    if s.len() > 0 {
        lemma_items_view(s.drop_last());
    }
}

pub proof fn lemma_entries_view(s: Seq<(String, JsonValue)>)
    ensures
        entries_view(s).len() == s.len(),
        forall|i: int| 0 <= i < s.len() ==> #[trigger] entries_view(s)[i] == (s[i].0@, json_view(s[i].1)),
    decreases s.len(),
{
    if s.len() > 0 {
        lemma_entries_view(s.drop_last());
    }
}

/// A copy of a value.
pub fn clone_value(v: &JsonValue) -> (c: JsonValue)
    ensures
        json_view(c) == json_view(*v),
    decreases v,
{
    match v {
        JsonValue::Null => JsonValue::Null,
        JsonValue::Bool(b) => JsonValue::Bool(*b),
        JsonValue::Int(n) => JsonValue::Int(*n),
        JsonValue::UInt(n) => JsonValue::UInt(*n),
        JsonValue::Float(t) => JsonValue::Float(t.clone()),
        JsonValue::String(s) => JsonValue::String(s.clone()),
        JsonValue::Array(items) => JsonValue::Array(clone_items(items)),
        JsonValue::Object(entries) => JsonValue::Object(clone_entries(entries)),
    }
}

/// A copy of a sequence of values.
pub fn clone_items(items: &Vec<JsonValue>) -> (c: Vec<JsonValue>)
    ensures
        items_view(c@) == items_view(items@),
    decreases items,
{
    let mut out: Vec<JsonValue> = Vec::new();
    let mut i: usize = 0;
    proof {
        assert(items@.take(0) =~= Seq::<JsonValue>::empty());
    }
    while i < items.len()
        invariant
            0 <= i <= items.len(),
            items_view(out@) == items_view(items@.take(i as int)),
        decreases items.len() - i,
    {
        let x = clone_value(&items[i]);
        let ghost before = out@;
        out.push(x);
        proof {
            assert(out@.drop_last() =~= before);
            assert(items@.take(i + 1).drop_last() =~= items@.take(i as int));
        }
        i += 1;
    }
    proof {
        assert(items@.take(items.len() as int) =~= items@);
    }
    out
}

/// A copy of a sequence of entries.
pub fn clone_entries(entries: &Vec<(String, JsonValue)>) -> (c: Vec<(String, JsonValue)>)
    ensures
        entries_view(c@) == entries_view(entries@),
    decreases entries,
{
    let mut out: Vec<(String, JsonValue)> = Vec::new();
    let mut i: usize = 0;
    proof {
        assert(entries@.take(0) =~= Seq::<(String, JsonValue)>::empty());
    }
    while i < entries.len()
        invariant
            0 <= i <= entries.len(),
            entries_view(out@) == entries_view(entries@.take(i as int)),
        decreases entries.len() - i,
    {
        let x = clone_value(&entries[i].1);
        let ghost before = out@;
        out.push((entries[i].0.clone(), x));
        proof {
            assert(out@.drop_last() =~= before);
            assert(entries@.take(i + 1).drop_last() =~= entries@.take(i as int));
        }
        i += 1;
    }
    proof {
        assert(entries@.take(entries.len() as int) =~= entries@);
    }
    out
}

} // verus!
