use vstd::prelude::*;
use vstd::utf8::encode_utf8;

verus! {

/// A decoded or hand-built value tree. Mappings keep their entries in order; a key
/// should appear at most once in each.
#[derive(Debug, PartialEq)]
pub enum Object {
    /// The top-level mapping of a buffer, written behind the signature.
    Root(Vec<(String, Object)>),
    Bool(bool),
    Int32(u32),
    Int64(u64),
    String(String),
    /// A nested mapping from keys to values.
    Dictionary(Vec<(String, Object)>),
    /// An ordered sequence of values, written without keys.
    Array(Vec<Object>),
}

/// The mathematical model of an [`Object`]: keys and strings as character sequences,
/// mappings as sequences of entries in their order.
pub enum Value {
    Root(Seq<(Seq<char>, Value)>),
    Bool(bool),
    Int32(u32),
    Int64(u64),
    String(Seq<char>),
    Dictionary(Seq<(Seq<char>, Value)>),
    Array(Seq<Value>),
}

/// The model of an object.
pub open spec fn value_of(o: Object) -> Value
    decreases o,
{
    match o {
        Object::Root(es) => Value::Root(entries_of(es@)),
        Object::Bool(b) => Value::Bool(b),
        Object::Int32(n) => Value::Int32(n),
        Object::Int64(n) => Value::Int64(n),
        Object::String(s) => Value::String(s@),
        Object::Dictionary(es) => Value::Dictionary(entries_of(es@)),
        Object::Array(items) => Value::Array(items_of(items@)),
    }
}

/// The model of a mapping's entries.
pub open spec fn entries_of(es: Seq<(String, Object)>) -> Seq<(Seq<char>, Value)>
    decreases es,
{
    if es.len() == 0 {
        Seq::empty()
    } else {
        seq![(es[0].0@, value_of(es[0].1))] + entries_of(es.subrange(1, es.len() as int))
    }
}

/// The model of an array's items.
pub open spec fn items_of(items: Seq<Object>) -> Seq<Value>
    decreases items,
{
    if items.len() == 0 {
        Seq::empty()
    } else {
        seq![value_of(items[0])] + items_of(items.subrange(1, items.len() as int))
    }
}

impl View for Object {
    type V = Value;

    open spec fn view(&self) -> Value {
        value_of(*self)
    }
}

/// The keys of a mapping's entries.
pub open spec fn keys_of(es: Seq<(Seq<char>, Value)>) -> Set<Seq<char>> {
    Set::new(|k: Seq<char>| exists|i: int| 0 <= i < es.len() && es[i].0 == k)
}

/// Every key, at every level, fits the 2-byte length in front of it.
pub open spec fn keys_fit(v: Value) -> bool
    decreases v,
{
    match v {
        Value::Root(es) => entries_keys_fit(es),
        Value::Dictionary(es) => entries_keys_fit(es),
        Value::Array(items) => items_keys_fit(items),
        _ => true,
    }
}

/// Every key of the entries, and every key below them, fits the 2-byte length in front of it.
pub open spec fn entries_keys_fit(es: Seq<(Seq<char>, Value)>) -> bool
    decreases es,
{
    forall|i: int|
        0 <= i < es.len() ==> encode_utf8(#[trigger] es[i].0).len() <= 0xFFFF && keys_fit(es[i].1)
}

/// Every key below the items fits the 2-byte length in front of it.
pub open spec fn items_keys_fit(items: Seq<Value>) -> bool
    decreases items,
{
    forall|i: int| 0 <= i < items.len() ==> keys_fit(#[trigger] items[i])
}

/// A value that can stand below a root and be written out faithfully: it is no root
/// itself, every key fits its 2-byte length and every string its 8-byte length.
pub open spec fn encodable(v: Value) -> bool
    decreases v,
{
    match v {
        Value::Root(_) => false,
        Value::String(s) => encode_utf8(s).len() <= u64::MAX,
        Value::Dictionary(es) => entries_encodable(es),
        Value::Array(items) => items_encodable(items),
        _ => true,
    }
}

/// Entries whose keys fit their 2-byte lengths and whose values are encodable.
pub open spec fn entries_encodable(es: Seq<(Seq<char>, Value)>) -> bool
    decreases es,
{
    forall|i: int|
        0 <= i < es.len() ==> encode_utf8(#[trigger] es[i].0).len() <= 0xFFFF && encodable(es[i].1)
}

/// Items that are all encodable.
pub open spec fn items_encodable(items: Seq<Value>) -> bool
    decreases items,
{
    forall|i: int| 0 <= i < items.len() ==> encodable(#[trigger] items[i])
}

/// A root whose entries are encodable: a tree that can be built and written out.
pub open spec fn encodable_root(v: Value) -> bool {
    v matches Value::Root(es) && entries_encodable(es)
}

/// No mapping, at any level, holds a key twice.
pub open spec fn distinct_keys(v: Value) -> bool
    decreases v,
{
    match v {
        Value::Root(es) => entries_distinct(es),
        Value::Dictionary(es) => entries_distinct(es),
        Value::Array(items) => items_distinct(items),
        _ => true,
    }
}

/// The entries have pairwise different keys, and no mapping below them holds a key twice.
pub open spec fn entries_distinct(es: Seq<(Seq<char>, Value)>) -> bool
    decreases es,
{
    &&& forall|i: int, j: int| 0 <= i < j < es.len() ==> #[trigger] es[i].0 != #[trigger] es[j].0
    &&& forall|i: int| 0 <= i < es.len() ==> distinct_keys(#[trigger] es[i].1)
}

/// No mapping below the items holds a key twice.
pub open spec fn items_distinct(items: Seq<Value>) -> bool
    decreases items,
{
    forall|i: int| 0 <= i < items.len() ==> distinct_keys(#[trigger] items[i])
}

/// The model of the entries, one by one.
pub proof fn lemma_entries_of(es: Seq<(String, Object)>)
    ensures
        entries_of(es).len() == es.len(),
        forall|i: int|
            0 <= i < es.len() ==> #[trigger] entries_of(es)[i] == (es[i].0@, value_of(es[i].1)),
    decreases es.len(),
{
    if es.len() > 0 {
        let rest = es.subrange(1, es.len() as int);
        lemma_entries_of(rest);
        assert forall|i: int| 0 <= i < es.len() implies #[trigger] entries_of(es)[i] == (
            es[i].0@,
            value_of(es[i].1),
        ) by {
            if i > 0 {
                assert(entries_of(es)[i] == entries_of(rest)[i - 1]);
            }
        }
    }
}

/// The model of the items, one by one.
pub proof fn lemma_items_of(items: Seq<Object>)
    ensures
        items_of(items).len() == items.len(),
        forall|i: int| 0 <= i < items.len() ==> #[trigger] items_of(items)[i] == value_of(items[i]),
    decreases items.len(),
{
    if items.len() > 0 {
        let rest = items.subrange(1, items.len() as int);
        lemma_items_of(rest);
        assert forall|i: int| 0 <= i < items.len() implies #[trigger] items_of(items)[i]
            == value_of(items[i]) by {
            if i > 0 {
                assert(items_of(items)[i] == items_of(rest)[i - 1]);
            }
        }
    }
}

/// Appending an entry appends its model.
pub proof fn lemma_entries_of_push(es: Seq<(String, Object)>, e: (String, Object))
    ensures
        entries_of(es.push(e)) == entries_of(es).push((e.0@, value_of(e.1))),
{
    lemma_entries_of(es);
    lemma_entries_of(es.push(e));
    assert(entries_of(es.push(e)) =~= entries_of(es).push((e.0@, value_of(e.1))));
}

/// Appending an item appends its model.
pub proof fn lemma_items_of_push(items: Seq<Object>, o: Object)
    ensures
        items_of(items.push(o)) == items_of(items).push(value_of(o)),
{
    lemma_items_of(items);
    lemma_items_of(items.push(o));
    assert(items_of(items.push(o)) =~= items_of(items).push(value_of(o)));
}

/// Appending an entry adds its key.
pub proof fn lemma_keys_of_push(es: Seq<(Seq<char>, Value)>, e: (Seq<char>, Value))
    ensures
        keys_of(es.push(e)) == keys_of(es).insert(e.0),
{
    let p = es.push(e);
    assert forall|k: Seq<char>| #[trigger] keys_of(p).contains(k) <==> keys_of(es).insert(
        e.0,
    ).contains(k) by {
        if keys_of(p).contains(k) {
            let i = choose|i: int| 0 <= i < p.len() && p[i].0 == k;
            if i < es.len() {
                assert(keys_of(es).contains(k));
            }
        }
        if keys_of(es).contains(k) {
            let i = choose|i: int| 0 <= i < es.len() && es[i].0 == k;
            assert(p[i].0 == k);
        }
        if k == e.0 {
            assert(p[es.len() as int].0 == k);
        }
    }
    assert(keys_of(p) =~= keys_of(es).insert(e.0));
}

} // verus!
