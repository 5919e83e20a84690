use vstd::prelude::*;

use crate::cursor::{read_bytes, read_key, read_string, short_input, u32_from_le, u64_from_le};
use crate::error::{DecodeError, Field};
use crate::format::{
    entries_spec, items_spec, lemma_value_shrinks, magic, parse_spec, root_spec, value_spec,
};
use crate::keys::{key_set_contents, KeySet};
use crate::obj_types;
use crate::raw::NodeType;
use crate::value::{
    entries_of, items_of, keys_of, lemma_entries_of_push, lemma_items_of_push, lemma_keys_of_push,
    Object, Value,
};

verus! {

/// Puts decoded entries in front of what a mapping decoder returns.
pub open spec fn prepend_entries(
    p: Seq<(Seq<char>, Value)>,
    r: Result<(Seq<(Seq<char>, Value)>, Seq<u8>), DecodeError>,
) -> Result<(Seq<(Seq<char>, Value)>, Seq<u8>), DecodeError> {
    match r {
        Ok((es, rest)) => Ok((p + es, rest)),
        Err(e) => Err(e),
    }
}

/// Puts decoded items in front of what an array decoder returns.
pub open spec fn prepend_items(
    p: Seq<Value>,
    r: Result<(Seq<Value>, Seq<u8>), DecodeError>,
) -> Result<(Seq<Value>, Seq<u8>), DecodeError> {
    match r {
        Ok((items, rest)) => Ok((p + items, rest)),
        Err(e) => Err(e),
    }
}

/// An executable decoding result agrees with the decoder's model.
pub open spec fn decoded_as(
    r: Result<(Object, &[u8]), DecodeError>,
    m: Result<(Value, Seq<u8>), DecodeError>,
) -> bool {
    match (r, m) {
        (Ok((o, rest)), Ok((v, mrest))) => o@ == v && rest@ == mrest,
        (Err(e), Err(f)) => e == f,
        _ => false,
    }
}

/// The first byte of a non-empty input, and the rest.
fn read_tag(input: &[u8]) -> (r: Option<(u8, &[u8])>)
    ensures
        r is Some <==> input@.len() > 0,
        r matches Some((t, rest)) ==> t == input@[0] && rest@ == input@.skip(1),
{
    match read_bytes::<1>(input) {
        Some((b, rest)) => Some((b[0], rest)),
        None => None,
    }
}

/// Whether eight bytes are the format's signature.
fn is_magic(sig: &[u8; 8]) -> (r: bool)
    ensures
        r == (sig@ == magic()),
{
    let expected = obj_types::FORMULAE_MAGIC;
    assert(expected@ == magic());
    let mut i: usize = 0;
    while i < 8
        invariant
            i <= 8,
            sig@.len() == 8,
            expected@ == magic(),
            forall|j: int| 0 <= j < i ==> sig@[j] == expected@[j],
        decreases 8 - i,
    {
        if sig[i] != expected[i] {
            return false;
        }
        i += 1;
    }
    assert(sig@ =~= magic());
    true
}

impl Object {
    /// Decodes the payload of a value whose tag is `obj_type`.
    fn parse_value(obj_type: u8, input: &[u8]) -> (r: Result<(Object, &[u8]), DecodeError>)
        ensures
            decoded_as(r, value_spec(obj_type, input@)),
        decreases input@.len(), 1nat,
    {
        match NodeType::from_tag(obj_type) {
            Some(NodeType::Bool) => match read_tag(input) {
                Some((b, rest)) => {
                    if b > 1 {
                        Err(DecodeError::InvalidScalarValue(b))
                    } else {
                        Ok((Object::Bool(b == 1), rest))
                    }
                },
                None => Err(short_input(Field::Bool, 1, input)),
            },
            Some(NodeType::Int32) => match read_bytes::<4>(input) {
                Some((b, rest)) => Ok((Object::Int32(u32_from_le(b)), rest)),
                None => Err(short_input(Field::Int32, 4, input)),
            },
            Some(NodeType::Int64) => match read_bytes::<8>(input) {
                Some((b, rest)) => Ok((Object::Int64(u64_from_le(b)), rest)),
                None => Err(short_input(Field::Int64, 8, input)),
            },
            Some(NodeType::String) => match read_string(input) {
                Ok((s, rest)) => Ok((Object::String(s), rest)),
                Err(e) => Err(e),
            },
            Some(NodeType::Dictionary) => match Object::parse_entries(input) {
                Ok((entries, rest)) => Ok((Object::Dictionary(entries), rest)),
                Err(e) => Err(e),
            },
            Some(NodeType::Array) => match Object::parse_items(input) {
                Ok((items, rest)) => Ok((Object::Array(items), rest)),
                Err(e) => Err(e),
            },
            _ => {
                proof {
                    assert(NodeType::Bool.spec_tag() != obj_type);
                    assert(NodeType::Int32.spec_tag() != obj_type);
                    assert(NodeType::Int64.spec_tag() != obj_type);
                    assert(NodeType::String.spec_tag() != obj_type);
                    assert(NodeType::Array.spec_tag() != obj_type);
                    assert(NodeType::Dictionary.spec_tag() != obj_type);
                }
                Err(DecodeError::UnknownTag(obj_type))
            },
        }
    }
}

/// An executable result of decoding a mapping agrees with the decoder's model.
pub open spec fn entries_decoded_as(
    r: Result<(Vec<(String, Object)>, &[u8]), DecodeError>,
    m: Result<(Seq<(Seq<char>, Value)>, Seq<u8>), DecodeError>,
) -> bool {
    match (r, m) {
        (Ok((es, rest)), Ok((mes, mrest))) => entries_of(es@) == mes && rest@ == mrest,
        (Err(e), Err(f)) => e == f,
        _ => false,
    }
}

/// An executable result of decoding an array agrees with the decoder's model.
pub open spec fn items_decoded_as(
    r: Result<(Vec<Object>, &[u8]), DecodeError>,
    m: Result<(Seq<Value>, Seq<u8>), DecodeError>,
) -> bool {
    match (r, m) {
        (Ok((items, rest)), Ok((mitems, mrest))) => items_of(items@) == mitems && rest@ == mrest,
        (Err(e), Err(f)) => e == f,
        _ => false,
    }
}

impl Object {
    /// Decodes the entries of a mapping, up to and including its end marker; a key that
    /// comes twice is refused.
    fn parse_entries(input: &[u8]) -> (r: Result<(Vec<(String, Object)>, &[u8]), DecodeError>)
        ensures
            entries_decoded_as(r, entries_spec(input@, Set::empty())),
        decreases input@.len(), 0nat,
    {
        let mut entries: Vec<(String, Object)> = Vec::new();
        let mut seen = KeySet::new();
        let mut cur = input;
        proof {
            if let Ok((es, rest)) = entries_spec(input@, Set::empty()) {
                assert(entries_of(entries@) + es =~= es);
            }
            assert(keys_of(entries_of(entries@)) =~= Set::<Seq<char>>::empty());
        }
        loop
            invariant
                cur@.len() <= input@.len(),
                key_set_contents(seen) == keys_of(entries_of(entries@)),
                entries_spec(input@, Set::empty()) == prepend_entries(
                    entries_of(entries@),
                    entries_spec(cur@, key_set_contents(seen)),
                ),
            decreases cur@.len(),
        {
            let ghost done = entries_of(entries@);
            let ghost seen_keys = key_set_contents(seen);
            let (t, after_tag) = match read_tag(cur) {
                Some(p) => p,
                None => return Err(DecodeError::MissingEndMarker),
            };
            if t == obj_types::END {
                proof {
                    assert(done + Seq::empty() =~= done);
                }
                return Ok((entries, after_tag));
            }
            let (key, after_key) = match read_key(after_tag) {
                Ok(p) => p,
                Err(e) => return Err(e),
            };
            let (object, rest) = match Object::parse_value(t, after_key) {
                Ok(p) => p,
                Err(e) => return Err(e),
            };
            proof {
                lemma_value_shrinks(t, after_key@);
            }
            if !seen.insert(key.clone()) {
                return Err(DecodeError::DuplicateKey);
            }
            proof {
                let e = (key@, object@);
                lemma_entries_of_push(entries@, (key, object));
                lemma_keys_of_push(done, e);
                if let Ok((es, r)) = entries_spec(rest@, seen_keys.insert(key@)) {
                    assert(done + (seq![e] + es) =~= done.push(e) + es);
                }
            }
            entries.push((key, object));
            cur = rest;
        }
    }

    /// Decodes the items of an array, up to and including its end marker.
    fn parse_items(input: &[u8]) -> (r: Result<(Vec<Object>, &[u8]), DecodeError>)
        ensures
            items_decoded_as(r, items_spec(input@)),
        decreases input@.len(), 0nat,
    {
        let mut items: Vec<Object> = Vec::new();
        let mut cur = input;
        proof {
            if let Ok((vs, rest)) = items_spec(input@) {
                assert(items_of(items@) + vs =~= vs);
            }
        }
        loop
            invariant
                cur@.len() <= input@.len(),
                items_spec(input@) == prepend_items(items_of(items@), items_spec(cur@)),
            decreases cur@.len(),
        {
            let ghost done = items_of(items@);
            let (t, after_tag) = match read_tag(cur) {
                Some(p) => p,
                None => return Err(DecodeError::MissingEndMarker),
            };
            if t == obj_types::END {
                proof {
                    assert(done + Seq::empty() =~= done);
                }
                return Ok((items, after_tag));
            }
            let (object, rest) = match Object::parse_value(t, after_tag) {
                Ok(p) => p,
                Err(e) => return Err(e),
            };
            proof {
                lemma_value_shrinks(t, after_tag@);
                lemma_items_of_push(items@, object);
                if let Ok((vs, r)) = items_spec(rest@) {
                    assert(done + (seq![object@] + vs) =~= done.push(object@) + vs);
                }
            }
            items.push(object);
            cur = rest;
        }
    }

    /// Decodes what follows a tag: `None` when the tag is the end marker, otherwise the
    /// value and the bytes after it.
    pub fn parse(obj_type: u8, input: &[u8]) -> (r: Result<Option<(Self, &[u8])>, DecodeError>)
        ensures
            match (r, parse_spec(obj_type, input@)) {
                (Ok(None), Ok(None)) => true,
                (Ok(Some((o, rest))), Ok(Some((v, mrest)))) => o@ == v && rest@ == mrest,
                (Err(e), Err(f)) => e == f,
                _ => false,
            },
    {
        if obj_type == obj_types::END {
            return Ok(None);
        }
        match Object::parse_value(obj_type, input) {
            Ok(p) => Ok(Some(p)),
            Err(e) => Err(e),
        }
    }

    /// Decodes a whole buffer: the signature `"formulae"`, then the root's entries up to
    /// its end marker. Bytes after that marker are not read.
    pub fn parse_root(input: &[u8]) -> (r: Result<Self, DecodeError>)
        ensures
            match (r, root_spec(input@)) {
                (Ok(o), Ok(v)) => o@ == v,
                (Err(e), Err(f)) => e == f,
                _ => false,
            },
    {
        let (sig, rest) = match read_bytes::<8>(input) {
            Some(p) => p,
            None => return Err(short_input(Field::Magic, 8, input)),
        };
        if !is_magic(&sig) {
            return Err(DecodeError::InvalidMagic);
        }
        match Object::parse_entries(rest) {
            Ok((entries, _)) => Ok(Object::Root(entries)),
            Err(e) => Err(e),
        }
    }
}

} // verus!
