use vstd::prelude::*;
use vstd::utf8::{encode_utf8, encode_utf8_decode_utf8, encode_utf8_valid_utf8};

use crate::cursor::{
    key_spec, le_u16, le_u64, lemma_le_u16, lemma_le_u32, lemma_le_u64, string_spec, u16_le,
    u64_le,
};
use crate::error::DecodeError;
use crate::format::{
    encoding, entries_bytes, entries_spec, items_bytes, items_spec, magic, payload, root_spec,
    tag_of, value_spec,
};
use crate::obj_types;
use crate::value::{
    distinct_keys, encodable, encodable_root, entries_distinct, entries_encodable, items_distinct,
    items_encodable, keys_of, Value,
};

verus! {

/// No value is tagged with the end marker.
proof fn lemma_tag_not_end(v: Value)
    ensures
        tag_of(v) != obj_types::END,
{
}

/// The first entry of a mapping and the rest, as the predicates see them.
proof fn lemma_entries_split(es: Seq<(Seq<char>, Value)>)
    requires
        es.len() > 0,
    ensures
        ({
            let rest = es.subrange(1, es.len() as int);
            &&& entries_encodable(es) ==> encode_utf8(es[0].0).len() <= 0xFFFF && encodable(
                es[0].1,
            ) && entries_encodable(rest)
            &&& entries_distinct(es) <==> distinct_keys(es[0].1) && !keys_of(rest).contains(es[0].0)
                && entries_distinct(rest)
            &&& keys_of(es) == keys_of(rest).insert(es[0].0)
        }),
{
    let rest = es.subrange(1, es.len() as int);
    assert forall|i: int| 0 <= i < rest.len() implies #[trigger] rest[i] == es[i + 1] by {}
    if entries_encodable(es) {
        assert(encode_utf8(es[0].0).len() <= 0xFFFF && encodable(es[0].1));
        assert forall|i: int| 0 <= i < rest.len() implies encode_utf8(#[trigger] rest[i].0).len()
            <= 0xFFFF && encodable(rest[i].1) by {
            assert(0 <= i + 1 < es.len());
            let e = es[i + 1];
            assert(encode_utf8(e.0).len() <= 0xFFFF);
            assert(encodable(e.1));
        }
    }
    if entries_distinct(es) {
        assert(distinct_keys(es[0].1));
        assert forall|i: int, j: int| 0 <= i < j < rest.len() implies #[trigger] rest[i].0
            != #[trigger] rest[j].0 by {
            assert(es[i + 1].0 != es[j + 1].0);
        }
        assert forall|i: int| 0 <= i < rest.len() implies distinct_keys(#[trigger] rest[i].1) by {
            assert(distinct_keys(es[i + 1].1));
        }
        if keys_of(rest).contains(es[0].0) {
            let i = choose|i: int| 0 <= i < rest.len() && rest[i].0 == es[0].0;
            assert(es[0].0 != es[i + 1].0);
        }
    }
    if distinct_keys(es[0].1) && !keys_of(rest).contains(es[0].0) && entries_distinct(rest) {
        assert forall|i: int, j: int| 0 <= i < j < es.len() implies #[trigger] es[i].0
            != #[trigger] es[j].0 by {
            if i == 0 {
                assert(rest[j - 1].0 == es[j].0);
            } else {
                assert(rest[i - 1].0 != rest[j - 1].0);
            }
        }
        assert forall|i: int| 0 <= i < es.len() implies distinct_keys(#[trigger] es[i].1) by {
            if i > 0 {
                assert(distinct_keys(rest[i - 1].1));
            }
        }
    }
    assert forall|k: Seq<char>| #[trigger] keys_of(es).contains(k) <==> keys_of(rest).insert(
        es[0].0,
    ).contains(k) by {
        if keys_of(es).contains(k) {
            let i = choose|i: int| 0 <= i < es.len() && es[i].0 == k;
            if i > 0 {
                assert(rest[i - 1].0 == k);
            }
        }
        if keys_of(rest).contains(k) {
            let i = choose|i: int| 0 <= i < rest.len() && rest[i].0 == k;
            assert(es[i + 1].0 == k);
        }
        if k == es[0].0 {
            assert(es[0].0 == k);
        }
    }
    assert(keys_of(es) =~= keys_of(rest).insert(es[0].0));
}

/// The first item of an array and the rest, as the predicates see them.
proof fn lemma_items_split(items: Seq<Value>)
    requires
        items.len() > 0,
    ensures
        ({
            let rest = items.subrange(1, items.len() as int);
            &&& items_encodable(items) ==> encodable(items[0]) && items_encodable(rest)
            &&& items_distinct(items) <==> distinct_keys(items[0]) && items_distinct(rest)
        }),
{
    let rest = items.subrange(1, items.len() as int);
    assert forall|i: int| 0 <= i < rest.len() implies #[trigger] rest[i] == items[i + 1] by {}
    if items_encodable(items) {
        assert(encodable(items[0]));
        assert forall|i: int| 0 <= i < rest.len() implies encodable(#[trigger] rest[i]) by {
            assert(encodable(items[i + 1]));
        }
    }
    if items_distinct(items) {
        assert(distinct_keys(items[0]));
        assert forall|i: int| 0 <= i < rest.len() implies distinct_keys(#[trigger] rest[i]) by {
            assert(distinct_keys(items[i + 1]));
        }
    }
    if distinct_keys(items[0]) && items_distinct(rest) {
        assert forall|i: int| 0 <= i < items.len() implies distinct_keys(#[trigger] items[i]) by {
            if i > 0 {
                assert(distinct_keys(rest[i - 1]));
            }
        }
    }
}

/// A written key reads back as itself, followed by what came after it.
proof fn lemma_read_key(k: Seq<char>, tail: Seq<u8>)
    requires
        encode_utf8(k).len() <= 0xFFFF,
    ensures
        key_spec(u16_le(encode_utf8(k).len() as u16) + encode_utf8(k) + tail) == Ok::<
            (Seq<char>, Seq<u8>),
            DecodeError,
        >((k, tail)),
{
    let kb = encode_utf8(k);
    let n = kb.len() as u16;
    let s = u16_le(n) + kb + tail;
    assert(s =~= u16_le(n) + (kb + tail));
    lemma_le_u16(n, kb + tail);
    assert(s.skip(2) =~= kb + tail);
    assert((kb + tail).take(kb.len() as int) =~= kb);
    assert((kb + tail).skip(kb.len() as int) =~= tail);
    encode_utf8_valid_utf8(k);
    encode_utf8_decode_utf8(k);
}

/// A written string reads back as itself, followed by what came after it.
proof fn lemma_read_string(t: Seq<char>, tail: Seq<u8>)
    requires
        encode_utf8(t).len() <= u64::MAX,
    ensures
        string_spec(u64_le(encode_utf8(t).len() as u64) + encode_utf8(t) + tail) == Ok::<
            (Seq<char>, Seq<u8>),
            DecodeError,
        >((t, tail)),
{
    let tb = encode_utf8(t);
    let n = tb.len() as u64;
    let s = u64_le(n) + tb + tail;
    assert(s =~= u64_le(n) + (tb + tail));
    lemma_le_u64(n, tb + tail);
    assert(s.skip(8) =~= tb + tail);
    assert((tb + tail).take(tb.len() as int) =~= tb);
    assert((tb + tail).skip(tb.len() as int) =~= tail);
    encode_utf8_valid_utf8(t);
    encode_utf8_decode_utf8(t);
}

/// Decoding the payload of an encodable value gives the value back, unless some mapping
/// in it holds a key twice.
pub proof fn lemma_decode_value(v: Value, r: Seq<u8>)
    requires
        encodable(v),
    ensures
        value_spec(tag_of(v), payload(v) + r) == if distinct_keys(v) {
            Ok::<(Value, Seq<u8>), DecodeError>((v, r))
        } else {
            Err(DecodeError::DuplicateKey)
        },
    decreases v,
{
    let s = payload(v) + r;
    match v {
        Value::Bool(b) => {
            assert(s[0] == (if b { 1u8 } else { 0u8 }));
            assert(s.skip(1) =~= r);
        },
        Value::Int32(n) => {
            lemma_le_u32(n, r);
            assert(s.skip(4) =~= r);
        },
        Value::Int64(n) => {
            lemma_le_u64(n, r);
            assert(s.skip(8) =~= r);
        },
        Value::String(t) => {
            lemma_read_string(t, r);
        },
        Value::Dictionary(es) => {
            lemma_decode_entries(es, Set::empty(), r);
        },
        Value::Array(items) => {
            lemma_decode_items(items, r);
        },
        Value::Root(_) => {},
    }
}

/// Decoding written entries gives them back, unless a key comes twice or is in `seen`.
#[verifier::rlimit(50)]
pub proof fn lemma_decode_entries(es: Seq<(Seq<char>, Value)>, seen: Set<Seq<char>>, r: Seq<u8>)
    requires
        entries_encodable(es),
    ensures
        entries_spec(entries_bytes(es) + seq![obj_types::END] + r, seen) == if entries_distinct(es)
            && keys_of(es).disjoint(seen) {
            Ok::<(Seq<(Seq<char>, Value)>, Seq<u8>), DecodeError>((es, r))
        } else {
            Err(DecodeError::DuplicateKey)
        },
    decreases es,
{
    let s = entries_bytes(es) + seq![obj_types::END] + r;
    if es.len() == 0 {
        assert(s[0] == obj_types::END);
        assert(s.skip(1) =~= r);
        assert(keys_of(es) =~= Set::<Seq<char>>::empty());
        assert(es =~= Seq::<(Seq<char>, Value)>::empty());
    } else {
        let k = es[0].0;
        let v = es[0].1;
        let rest = es.subrange(1, es.len() as int);
        lemma_entries_split(es);
        let kb = encode_utf8(k);
        let tail = entries_bytes(rest) + seq![obj_types::END] + r;
        assert(s =~= seq![tag_of(v)] + (u16_le(kb.len() as u16) + kb + (payload(v) + tail)));
        lemma_tag_not_end(v);
        assert(s.skip(1) =~= u16_le(kb.len() as u16) + kb + (payload(v) + tail));
        lemma_read_key(k, payload(v) + tail);
        assert(decreases_to!(es => es[0]));
        lemma_decode_value(v, tail);
        if distinct_keys(v) && !seen.contains(k) {
            lemma_decode_entries(rest, seen.insert(k), r);
            assert(seq![(k, v)] + rest =~= es);
            let kr = keys_of(rest);
            assert(kr.disjoint(seen.insert(k)) <==> kr.disjoint(seen) && !kr.contains(k)) by {
                if kr.disjoint(seen) && !kr.contains(k) {
                    assert forall|a: Seq<char>| kr.contains(a) implies !seen.insert(k).contains(
                        a,
                    ) by {}
                }
                if kr.disjoint(seen.insert(k)) {
                    assert(!seen.insert(k).contains(k) ==> !kr.contains(k));
                }
            }
            assert(keys_of(es).disjoint(seen) <==> kr.disjoint(seen)) by {
                if kr.disjoint(seen) {
                    assert forall|a: Seq<char>| kr.insert(k).contains(a) implies !seen.contains(
                        a,
                    ) by {}
                }
            }
        } else if distinct_keys(v) {
            assert(keys_of(es).contains(k));
        }
    }
}

/// Decoding written items gives them back, unless some mapping in them holds a key twice.
pub proof fn lemma_decode_items(items: Seq<Value>, r: Seq<u8>)
    requires
        items_encodable(items),
    ensures
        items_spec(items_bytes(items) + seq![obj_types::END] + r) == if items_distinct(items) {
            Ok::<(Seq<Value>, Seq<u8>), DecodeError>((items, r))
        } else {
            Err(DecodeError::DuplicateKey)
        },
    decreases items,
{
    let s = items_bytes(items) + seq![obj_types::END] + r;
    if items.len() == 0 {
        assert(s[0] == obj_types::END);
        assert(s.skip(1) =~= r);
        assert(items =~= Seq::<Value>::empty());
    } else {
        let v = items[0];
        let rest = items.subrange(1, items.len() as int);
        lemma_items_split(items);
        let tail = items_bytes(rest) + seq![obj_types::END] + r;
        assert(s =~= seq![tag_of(v)] + (payload(v) + tail));
        lemma_tag_not_end(v);
        assert(s.skip(1) =~= payload(v) + tail);
        lemma_decode_value(v, tail);
        if distinct_keys(v) {
            lemma_decode_items(rest, r);
            assert(seq![v] + rest =~= items);
        }
    }
}

/// Decoding the encoding of a root gives the root back, or `DuplicateKey` where some
/// mapping holds a key twice.
proof fn lemma_decode_root(v: Value)
    requires
        encodable_root(v),
    ensures
        root_spec(encoding(v)) == if distinct_keys(v) {
            Ok::<Value, DecodeError>(v)
        } else {
            Err(DecodeError::DuplicateKey)
        },
{
    let es = v->Root_0;
    let s = encoding(v);
    assert(s.take(8) =~= magic());
    assert(s.skip(8) =~= entries_bytes(es) + seq![obj_types::END] + Seq::<u8>::empty());
    lemma_decode_entries(es, Set::empty(), Seq::empty());
    assert(keys_of(es).disjoint(Set::empty()));
}

/// Round trip: a root that can be written out, with no key twice in any mapping, is
/// decoded from its encoding as exactly itself, entries in the same order.
pub proof fn round_trip(v: Value)
    requires
        encodable_root(v),
        distinct_keys(v),
    ensures
        root_spec(encoding(v)) == Ok::<Value, DecodeError>(v),
{
    lemma_decode_root(v);
}

/// Duplicate keys: where some mapping of a root holds a key twice, decoding its encoding
/// fails with `DuplicateKey`.
pub proof fn duplicate_key_rejected(v: Value)
    requires
        encodable_root(v),
        !distinct_keys(v),
    ensures
        root_spec(encoding(v)) == Err::<Value, DecodeError>(DecodeError::DuplicateKey),
{
    lemma_decode_root(v);
}

/// Signature check: changing any of the first eight bytes of a buffer that decodes makes
/// it fail with `InvalidMagic`.
pub proof fn magic_checked(b: Seq<u8>, i: int, x: u8)
    requires
        root_spec(b) is Ok,
        0 <= i < 8,
        x != b[i],
    ensures
        root_spec(b.update(i, x)) == Err::<Value, DecodeError>(DecodeError::InvalidMagic),
{
    assert(b.take(8) == magic());
    assert(b.update(i, x).take(8)[i] != magic()[i]);
}

/// Boolean domain: a boolean byte `0` decodes to `false`, `1` to `true`, and any other
/// byte fails with `InvalidScalarValue`, whatever follows it.
pub proof fn bool_domain(b: u8, rest: Seq<u8>)
    ensures
        value_spec(obj_types::BOOL, seq![b] + rest) == if b == 0 {
            Ok::<(Value, Seq<u8>), DecodeError>((Value::Bool(false), rest))
        } else if b == 1 {
            Ok((Value::Bool(true), rest))
        } else {
            Err(DecodeError::InvalidScalarValue(b))
        },
{
    assert((seq![b] + rest).skip(1) =~= rest);
}

/// A strict prefix of a value's payload fails to decode for want of bytes.
proof fn lemma_truncated_value(v: Value, n: int)
    requires
        encodable(v),
        distinct_keys(v),
        0 <= n < payload(v).len(),
    ensures
        value_spec(tag_of(v), payload(v).take(n)) matches Err(e) && e.is_truncation(),
    decreases v,
{
    let q = payload(v).take(n);
    match v {
        Value::String(t) => {
            let tb = encode_utf8(t);
            let len = tb.len() as u64;
            if n >= 8 {
                lemma_le_u64(len, tb);
                assert(payload(v) == u64_le(len) + tb);
                assert forall|i: int| 0 <= i < 8 implies q[i] == (u64_le(len) + tb)[i] by {}
                assert(le_u64(q) == le_u64(u64_le(len) + tb));
                assert(q.skip(8).len() < len);
            }
        },
        Value::Dictionary(es) => {
            lemma_truncated_entries(es, Set::empty(), n);
        },
        Value::Array(items) => {
            lemma_truncated_items(items, n);
        },
        _ => {},
    }
}

/// A strict prefix of written entries fails to decode for want of bytes.
#[verifier::rlimit(50)]
proof fn lemma_truncated_entries(es: Seq<(Seq<char>, Value)>, seen: Set<Seq<char>>, n: int)
    requires
        entries_encodable(es),
        entries_distinct(es),
        keys_of(es).disjoint(seen),
        0 <= n < (entries_bytes(es) + seq![obj_types::END]).len(),
    ensures
        entries_spec((entries_bytes(es) + seq![obj_types::END]).take(n), seen) matches Err(e)
            && e.is_truncation(),
    decreases es,
{
    let full = entries_bytes(es) + seq![obj_types::END];
    let q = full.take(n);
    if es.len() == 0 {
        assert(full.len() == 1);
        assert(q.len() == 0);
    } else if n > 0 {
        let k = es[0].0;
        let v = es[0].1;
        let rest = es.subrange(1, es.len() as int);
        lemma_entries_split(es);
        let kb = encode_utf8(k);
        let kl = kb.len() as u16;
        let tail = entries_bytes(rest) + seq![obj_types::END];
        let x = u16_le(kl) + kb + (payload(v) + tail);
        assert(full =~= seq![tag_of(v)] + x);
        lemma_tag_not_end(v);
        let q1 = q.skip(1);
        assert(q1 =~= x.take(n - 1));
        if n - 1 >= 2 {
            lemma_le_u16(kl, kb + (payload(v) + tail));
            assert(x =~= u16_le(kl) + (kb + (payload(v) + tail)));
            assert(q1[0] == x[0] && q1[1] == x[1]);
            assert(le_u16(q1) == kl);
            if n - 3 >= kb.len() {
                assert(q1.skip(2).take(kb.len() as int) =~= kb);
                encode_utf8_valid_utf8(k);
                encode_utf8_decode_utf8(k);
                let m = n - 3 - kb.len();
                let after_key = q1.skip(2).skip(kb.len() as int);
                assert(key_spec(q1) == Ok::<(Seq<char>, Seq<u8>), DecodeError>((k, after_key)));
                assert(after_key =~= (payload(v) + tail).take(m));
                assert(decreases_to!(es => es[0]));
                if m < payload(v).len() {
                    assert(after_key =~= payload(v).take(m));
                    lemma_truncated_value(v, m);
                } else {
                    let t2 = tail.take(m - payload(v).len());
                    assert(after_key =~= payload(v) + t2);
                    lemma_decode_value(v, t2);
                    assert(keys_of(es).contains(k));
                    assert(!seen.contains(k));
                    assert(keys_of(rest).disjoint(seen.insert(k))) by {
                        assert forall|a: Seq<char>| keys_of(rest).contains(a) implies !seen.insert(
                            k,
                        ).contains(a) by {
                            assert(keys_of(es).contains(a));
                        }
                    }
                    lemma_truncated_entries(rest, seen.insert(k), m - payload(v).len());
                    assert(t2.len() < q.len());
                }
            }
        }
    }
}

/// A strict prefix of written items fails to decode for want of bytes.
proof fn lemma_truncated_items(items: Seq<Value>, n: int)
    requires
        items_encodable(items),
        items_distinct(items),
        0 <= n < (items_bytes(items) + seq![obj_types::END]).len(),
    ensures
        items_spec((items_bytes(items) + seq![obj_types::END]).take(n)) matches Err(e)
            && e.is_truncation(),
    decreases items,
{
    let full = items_bytes(items) + seq![obj_types::END];
    let q = full.take(n);
    if items.len() == 0 {
        assert(full.len() == 1);
        assert(q.len() == 0);
    } else if n > 0 {
        let v = items[0];
        let rest = items.subrange(1, items.len() as int);
        lemma_items_split(items);
        let tail = items_bytes(rest) + seq![obj_types::END];
        assert(full =~= seq![tag_of(v)] + (payload(v) + tail));
        lemma_tag_not_end(v);
        let m = n - 1;
        let q1 = q.skip(1);
        assert(q1 =~= (payload(v) + tail).take(m));
        if m < payload(v).len() {
            assert(q1 =~= payload(v).take(m));
            lemma_truncated_value(v, m);
        } else {
            let t2 = tail.take(m - payload(v).len());
            assert(q1 =~= payload(v) + t2);
            lemma_decode_value(v, t2);
            lemma_truncated_items(rest, m - payload(v).len());
            assert(t2.len() < q.len());
        }
    }
}

/// Truncation: every strict prefix of the encoding of a root that decodes fails with
/// `UnexpectedEof` or `MissingEndMarker`, never with a value.
pub proof fn truncation_detected(v: Value, n: int)
    requires
        encodable_root(v),
        distinct_keys(v),
        0 <= n < encoding(v).len(),
    ensures
        root_spec(encoding(v).take(n)) matches Err(e) && e.is_truncation(),
{
    let es = v->Root_0;
    let s = encoding(v);
    let q = s.take(n);
    if n >= 8 {
        assert(q.take(8) =~= magic());
        assert(q.skip(8) =~= (entries_bytes(es) + seq![obj_types::END]).take(n - 8));
        lemma_truncated_entries(es, Set::empty(), n - 8);
    }
}

} // verus!
