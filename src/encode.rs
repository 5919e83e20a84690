use vstd::prelude::*;
use vstd::utf8::encode_utf8;

use crate::cursor::u16_le;
use crate::format::{encoding, entries_bytes, items_bytes, magic, payload, tag_of};
use crate::obj_types;
use crate::raw::{
    AnyToBytes, BoolNode, Int32Node, Int64Node, NodeHeader, NodeType, StringNode,
};
use crate::value::{
    entries_keys_fit, entries_of, items_keys_fit, items_of, keys_fit, lemma_entries_of,
    lemma_items_of, Object, Value,
};

verus! {

/// The bytes of one entry: tag, key length, key, payload.
pub open spec fn entry_bytes(e: (Seq<char>, Value)) -> Seq<u8> {
    seq![tag_of(e.1)] + u16_le(encode_utf8(e.0).len() as u16) + encode_utf8(e.0) + payload(e.1)
}

/// Appending an entry appends its bytes.
pub proof fn lemma_entries_bytes_push(es: Seq<(Seq<char>, Value)>, e: (Seq<char>, Value))
    ensures
        entries_bytes(es.push(e)) == entries_bytes(es) + entry_bytes(e),
    decreases es.len(),
{
    let p = es.push(e);
    if es.len() == 0 {
        assert(p.subrange(1, p.len() as int) =~= Seq::<(Seq<char>, Value)>::empty());
        assert(entries_bytes(p.subrange(1, p.len() as int)) =~= Seq::<u8>::empty());
        assert(p[0] == e);
        assert(entries_bytes(p) =~= entries_bytes(es) + entry_bytes(e));
    } else {
        let rest = es.subrange(1, es.len() as int);
        assert(p.subrange(1, p.len() as int) =~= rest.push(e));
        lemma_entries_bytes_push(rest, e);
        assert(entries_bytes(p) =~= entries_bytes(es) + entry_bytes(e));
    }
}

/// Appending an item appends its tag and payload.
pub proof fn lemma_items_bytes_push(items: Seq<Value>, v: Value)
    ensures
        items_bytes(items.push(v)) == items_bytes(items) + (seq![tag_of(v)] + payload(v)),
    decreases items.len(),
{
    let p = items.push(v);
    if items.len() == 0 {
        assert(p.subrange(1, p.len() as int) =~= Seq::<Value>::empty());
        assert(items_bytes(p.subrange(1, p.len() as int)) =~= Seq::<u8>::empty());
        assert(p[0] == v);
        assert(items_bytes(p) =~= items_bytes(items) + (seq![tag_of(v)] + payload(v)));
    } else {
        let rest = items.subrange(1, items.len() as int);
        assert(p.subrange(1, p.len() as int) =~= rest.push(v));
        lemma_items_bytes_push(rest, v);
        assert(items_bytes(p) =~= items_bytes(items) + (seq![tag_of(v)] + payload(v)));
    }
}

/// Appends the bytes of `b` to `out`.
fn append_bytes(out: &mut Vec<u8>, b: &[u8])
    ensures
        final(out)@ == old(out)@ + b@,
{
    let mut i: usize = 0;
    while i < b.len()
        invariant
            i <= b@.len(),
            out@ == old(out)@ + b@.take(i as int),
        decreases b@.len() - i,
    {
        out.push(b[i]);
        i += 1;
        assert(out@ =~= old(out)@ + b@.take(i as int));
    }
    assert(b@.take(i as int) =~= b@);
}

/// Appends the end marker that closes a root, dictionary or array.
fn push_end(out: &mut Vec<u8>)
    ensures
        final(out)@ == old(out)@ + seq![obj_types::END],
{
    out.append(&mut NodeType::End.to_bytes());
}

impl Object {
    /// The node type that this value is written as; a root has the layout of a
    /// dictionary and is written as one.
    fn node_type(&self) -> (r: NodeType)
        ensures
            r.spec_tag() == tag_of(self@),
    {
        match self {
            Object::Bool(_) => NodeType::Bool,
            Object::Int32(_) => NodeType::Int32,
            Object::Int64(_) => NodeType::Int64,
            Object::String(_) => NodeType::String,
            Object::Root(_) => NodeType::Dictionary,
            Object::Dictionary(_) => NodeType::Dictionary,
            Object::Array(_) => NodeType::Array,
        }
    }

    /// The tag byte that this value is written with.
    pub fn to_obj_type(&self) -> (r: u8)
        ensures
            r == tag_of(self@),
    {
        self.node_type().tag()
    }

    /// Appends the entries of a mapping and its end marker.
    fn write_entries(entries: &Vec<(String, Object)>, out: &mut Vec<u8>)
        requires
            entries_keys_fit(entries_of(entries@)),
        ensures
            final(out)@ == old(out)@ + entries_bytes(entries_of(entries@)) + seq![obj_types::END],
        decreases entries,
    {
        let ghost es = entries_of(entries@);
        proof {
            lemma_entries_of(entries@);
            assert(es.take(0) =~= Seq::<(Seq<char>, Value)>::empty());
        }
        let mut i: usize = 0;
        while i < entries.len()
            invariant
                i <= entries@.len(),
                es == entries_of(entries@),
                es.len() == entries@.len(),
                forall|j: int|
                    0 <= j < entries@.len() ==> #[trigger] es[j] == (
                        entries@[j].0@,
                        entries@[j].1@,
                    ),
                entries_keys_fit(es),
                out@ == old(out)@ + entries_bytes(es.take(i as int)),
            decreases entries@.len() - i,
        {
            let (key, object) = &entries[i];
            proof {
                assert(es[i as int] == (key@, object@));
                assert(encode_utf8(es[i as int].0).len() <= 0xFFFF);
            }
            let key_bytes = key.as_str().as_bytes();
            let header = NodeHeader::new(object.node_type(), key_bytes.len() as u16);
            out.append(&mut header.to_bytes());
            append_bytes(out, key_bytes);
            proof {
                assert(decreases_to!(entries => entries[i as int]));
            }
            object.write_payload(out);
            proof {
                lemma_entries_bytes_push(es.take(i as int), es[i as int]);
                assert(es.take(i + 1) =~= es.take(i as int).push(es[i as int]));
            }
            i += 1;
        }
        assert(es.take(i as int) =~= es);
        push_end(out);
    }

    /// Appends the items of an array and its end marker.
    fn write_items(items: &Vec<Object>, out: &mut Vec<u8>)
        requires
            items_keys_fit(items_of(items@)),
        ensures
            final(out)@ == old(out)@ + items_bytes(items_of(items@)) + seq![obj_types::END],
        decreases items,
    {
        let ghost vs = items_of(items@);
        proof {
            lemma_items_of(items@);
            assert(vs.take(0) =~= Seq::<Value>::empty());
        }
        let mut i: usize = 0;
        while i < items.len()
            invariant
                i <= items@.len(),
                vs == items_of(items@),
                vs.len() == items@.len(),
                forall|j: int| 0 <= j < items@.len() ==> #[trigger] vs[j] == items@[j]@,
                items_keys_fit(vs),
                out@ == old(out)@ + items_bytes(vs.take(i as int)),
            decreases items@.len() - i,
        {
            let object = &items[i];
            proof {
                assert(vs[i as int] == object@);
                assert(keys_fit(vs[i as int]));
            }
            out.append(&mut object.node_type().to_bytes());
            proof {
                assert(decreases_to!(items => items[i as int]));
            }
            object.write_payload(out);
            proof {
                lemma_items_bytes_push(vs.take(i as int), vs[i as int]);
                assert(vs.take(i + 1) =~= vs.take(i as int).push(vs[i as int]));
            }
            i += 1;
        }
        assert(vs.take(i as int) =~= vs);
        push_end(out);
    }

    /// Appends the payload of this value: what follows its tag.
    fn write_payload(&self, out: &mut Vec<u8>)
        requires
            keys_fit(self@),
        ensures
            final(out)@ == old(out)@ + payload(self@),
        decreases self,
    {
        match self {
            Object::Bool(b) => out.append(&mut BoolNode::new(*b).to_bytes()),
            Object::Int32(n) => out.append(&mut Int32Node::new(*n).to_bytes()),
            Object::Int64(n) => out.append(&mut Int64Node::new(*n).to_bytes()),
            Object::String(s) => {
                let b = s.as_str().as_bytes();
                out.append(&mut StringNode::new(b.len() as u64).to_bytes());
                append_bytes(out, b);
            },
            Object::Root(entries) => {
                Object::write_entries(entries, out);
            },
            Object::Dictionary(entries) => {
                Object::write_entries(entries, out);
            },
            Object::Array(items) => {
                Object::write_items(items, out);
            },
        }
    }

    /// Encodes this value. A root is written as the signature `"formulae"`, then its
    /// entries and the end marker; any other value is written as its payload alone.
    pub fn into_bytes(&self) -> (r: Vec<u8>)
        requires
            keys_fit(self@),
        ensures
            r@ == encoding(self@),
    {
        let mut bytes: Vec<u8> = Vec::new();
        if let Object::Root(_) = self {
            let sig = obj_types::FORMULAE_MAGIC;
            append_bytes(&mut bytes, sig.as_slice());
            assert(bytes@ =~= magic());
        }
        self.write_payload(&mut bytes);
        proof {
            if !(self@ is Root) {
                assert(bytes@ =~= payload(self@));
            }
        }
        bytes
    }
}

} // verus!
