use vstd::prelude::*;
use vstd::utf8::encode_utf8;

use crate::cursor::{eof_spec, key_spec, le_u32, le_u64, string_spec, u16_le, u32_le, u64_le};
use crate::error::{DecodeError, Field};
use crate::obj_types;
use crate::value::Value;

verus! {

/// The 8-byte signature in front of every root buffer: `"formulae"`.
pub open spec fn magic() -> Seq<u8> {
    seq![0x66u8, 0x6fu8, 0x72u8, 0x6du8, 0x75u8, 0x6cu8, 0x61u8, 0x65u8]
}

/// The tag that a value is written with. A root nested below the top is written as a
/// dictionary, whose layout it shares.
pub open spec fn tag_of(v: Value) -> u8 {
    match v {
        Value::Bool(_) => obj_types::BOOL,
        Value::Int32(_) => obj_types::INT32,
        Value::Int64(_) => obj_types::INT64,
        Value::String(_) => obj_types::STR,
        Value::Root(_) => obj_types::DICT,
        Value::Dictionary(_) => obj_types::DICT,
        Value::Array(_) => obj_types::ARRAY,
    }
}

/// The bytes that follow a value's tag.
pub open spec fn payload(v: Value) -> Seq<u8>
    decreases v,
{
    match v {
        Value::Bool(b) => seq![if b { 1u8 } else { 0u8 }],
        Value::Int32(n) => u32_le(n),
        Value::Int64(n) => u64_le(n),
        Value::String(s) => u64_le(encode_utf8(s).len() as u64) + encode_utf8(s),
        Value::Root(es) => entries_bytes(es) + seq![obj_types::END],
        Value::Dictionary(es) => entries_bytes(es) + seq![obj_types::END],
        Value::Array(items) => items_bytes(items) + seq![obj_types::END],
    }
}

/// The entries of a mapping, each as tag, key length, key and payload, in order.
pub open spec fn entries_bytes(es: Seq<(Seq<char>, Value)>) -> Seq<u8>
    decreases es,
{
    if es.len() == 0 {
        Seq::empty()
    } else {
        seq![tag_of(es[0].1)] + u16_le(encode_utf8(es[0].0).len() as u16) + encode_utf8(es[0].0)
            + payload(es[0].1) + entries_bytes(es.subrange(1, es.len() as int))
    }
}

/// The items of an array, each as tag and payload, in order.
pub open spec fn items_bytes(items: Seq<Value>) -> Seq<u8>
    decreases items,
{
    if items.len() == 0 {
        Seq::empty()
    } else {
        seq![tag_of(items[0])] + payload(items[0]) + items_bytes(
            items.subrange(1, items.len() as int),
        )
    }
}

/// What encoding a value yields: a root is preceded by the signature, any other value is
/// its payload alone.
pub open spec fn encoding(v: Value) -> Seq<u8> {
    match v {
        Value::Root(_) => magic() + payload(v),
        _ => payload(v),
    }
}

/// Decoding the payload of a value with tag `tag` from the front of `s`: the value and
/// what follows it.
pub open spec fn value_spec(tag: u8, s: Seq<u8>) -> Result<(Value, Seq<u8>), DecodeError>
    decreases s.len(), 1nat,
{
    if tag == obj_types::BOOL {
        if s.len() < 1 {
            Err(eof_spec(Field::Bool, 1, s))
        } else if s[0] > 1 {
            Err(DecodeError::InvalidScalarValue(s[0]))
        } else {
            Ok((Value::Bool(s[0] == 1), s.skip(1)))
        }
    } else if tag == obj_types::INT32 {
        if s.len() < 4 {
            Err(eof_spec(Field::Int32, 4, s))
        } else {
            Ok((Value::Int32(le_u32(s)), s.skip(4)))
        }
    } else if tag == obj_types::INT64 {
        if s.len() < 8 {
            Err(eof_spec(Field::Int64, 8, s))
        } else {
            Ok((Value::Int64(le_u64(s)), s.skip(8)))
        }
    } else if tag == obj_types::STR {
        match string_spec(s) {
            Ok((t, rest)) => Ok((Value::String(t), rest)),
            Err(e) => Err(e),
        }
    } else if tag == obj_types::DICT {
        match entries_spec(s, Set::empty()) {
            Ok((es, rest)) => Ok((Value::Dictionary(es), rest)),
            Err(e) => Err(e),
        }
    } else if tag == obj_types::ARRAY {
        match items_spec(s) {
            Ok((items, rest)) => Ok((Value::Array(items), rest)),
            Err(e) => Err(e),
        }
    } else {
        Err(DecodeError::UnknownTag(tag))
    }
}

/// Decoding what follows tag `tag`: `None` for the end marker, else the value.
pub open spec fn parse_spec(tag: u8, s: Seq<u8>) -> Result<Option<(Value, Seq<u8>)>, DecodeError> {
    if tag == obj_types::END {
        Ok(None)
    } else {
        match value_spec(tag, s) {
            Ok(p) => Ok(Some(p)),
            Err(e) => Err(e),
        }
    }
}

/// Decoding the entries of a mapping up to and including its end marker, where the keys
/// in `seen` are taken already.
pub open spec fn entries_spec(s: Seq<u8>, seen: Set<Seq<char>>) -> Result<
    (Seq<(Seq<char>, Value)>, Seq<u8>),
    DecodeError,
>
    decreases s.len(), 0nat,
{
    if s.len() == 0 {
        Err(DecodeError::MissingEndMarker)
    } else if s[0] == obj_types::END {
        Ok((Seq::empty(), s.skip(1)))
    } else {
        match key_spec(s.skip(1)) {
            Err(e) => Err(e),
            Ok((k, after_key)) => match value_spec(s[0], after_key) {
                Err(e) => Err(e),
                Ok((v, rest)) => if seen.contains(k) {
                    Err(DecodeError::DuplicateKey)
                } else if rest.len() < s.len() {
                    match entries_spec(rest, seen.insert(k)) {
                        Ok((es, r)) => Ok((seq![(k, v)] + es, r)),
                        Err(e) => Err(e),
                    }
                } else {
                    Err(DecodeError::MissingEndMarker)
                },
            },
        }
    }
}

/// Decoding the items of an array up to and including its end marker.
pub open spec fn items_spec(s: Seq<u8>) -> Result<(Seq<Value>, Seq<u8>), DecodeError>
    decreases s.len(), 0nat,
{
    if s.len() == 0 {
        Err(DecodeError::MissingEndMarker)
    } else if s[0] == obj_types::END {
        Ok((Seq::empty(), s.skip(1)))
    } else {
        match value_spec(s[0], s.skip(1)) {
            Err(e) => Err(e),
            Ok((v, rest)) => if rest.len() < s.len() {
                match items_spec(rest) {
                    Ok((vs, r)) => Ok((seq![v] + vs, r)),
                    Err(e) => Err(e),
                }
            } else {
                Err(DecodeError::MissingEndMarker)
            },
        }
    }
}

/// Decoding a whole buffer: the signature, then the root's entries.
pub open spec fn root_spec(s: Seq<u8>) -> Result<Value, DecodeError> {
    if s.len() < 8 {
        Err(eof_spec(Field::Magic, 8, s))
    } else if s.take(8) != magic() {
        Err(DecodeError::InvalidMagic)
    } else {
        match entries_spec(s.skip(8), Set::empty()) {
            Ok((es, _)) => Ok(Value::Root(es)),
            Err(e) => Err(e),
        }
    }
}

/// A decoder's result that stays no longer than its input.
pub proof fn lemma_value_shrinks(tag: u8, s: Seq<u8>)
    ensures
        value_spec(tag, s) matches Ok((_, rest)) ==> rest.len() <= s.len(),
    decreases s.len(), 1nat,
{
    if tag == obj_types::DICT {
        lemma_entries_shrinks(s, Set::empty());
    } else if tag == obj_types::ARRAY {
        lemma_items_shrinks(s);
    }
}

/// Decoding a mapping consumes at least its end marker.
pub proof fn lemma_entries_shrinks(s: Seq<u8>, seen: Set<Seq<char>>)
    ensures
        entries_spec(s, seen) matches Ok((_, rest)) ==> rest.len() < s.len(),
    decreases s.len(), 0nat,
{
    if s.len() > 0 && s[0] != obj_types::END {
        if let Ok((k, after_key)) = key_spec(s.skip(1)) {
            lemma_value_shrinks(s[0], after_key);
            if let Ok((v, rest)) = value_spec(s[0], after_key) {
                if !seen.contains(k) && rest.len() < s.len() {
                    lemma_entries_shrinks(rest, seen.insert(k));
                }
            }
        }
    }
}

/// Decoding an array consumes at least its end marker.
pub proof fn lemma_items_shrinks(s: Seq<u8>)
    ensures
        items_spec(s) matches Ok((_, rest)) ==> rest.len() < s.len(),
    decreases s.len(), 0nat,
{
    if s.len() > 0 && s[0] != obj_types::END {
        lemma_value_shrinks(s[0], s.skip(1));
        if let Ok((v, rest)) = value_spec(s[0], s.skip(1)) {
            if rest.len() < s.len() {
                lemma_items_shrinks(rest);
            }
        }
    }
}

} // verus!
