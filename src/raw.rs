use vstd::prelude::*;

use crate::cursor::{u16_le, u32_le, u64_le};
use crate::obj_types;

verus! {

/// A value that has a fixed little-endian wire form.
pub trait AnyToBytes: Sized {
    /// The bytes that stand for this value on the wire.
    spec fn spec_bytes(&self) -> Seq<u8>;

    /// Writes out the wire form.
    fn to_bytes(&self) -> (r: Vec<u8>)
        ensures
            r@ == self.spec_bytes(),
    ;
}

/// The kind of a node, as written in its one-byte tag.
#[derive(Debug, PartialEq, Eq, Clone, Copy, Structural)]
pub enum NodeType {
    Bool,
    Int32,
    Int64,
    String,
    Array,
    Dictionary,
    End,
}

impl NodeType {
    /// The tag byte of each node type.
    pub open spec fn spec_tag(self) -> u8 {
        match self {
            NodeType::Bool => obj_types::BOOL,
            NodeType::Int32 => obj_types::INT32,
            NodeType::Int64 => obj_types::INT64,
            NodeType::String => obj_types::STR,
            NodeType::Array => obj_types::ARRAY,
            NodeType::Dictionary => obj_types::DICT,
            NodeType::End => obj_types::END,
        }
    }

    /// The tag byte of this node type.
    pub fn tag(self) -> (r: u8)
        ensures
            r == self.spec_tag(),
    {
        match self {
            NodeType::Bool => obj_types::BOOL,
            NodeType::Int32 => obj_types::INT32,
            NodeType::Int64 => obj_types::INT64,
            NodeType::String => obj_types::STR,
            NodeType::Array => obj_types::ARRAY,
            NodeType::Dictionary => obj_types::DICT,
            NodeType::End => obj_types::END,
        }
    }

    /// The node type that a tag byte names, if any.
    pub fn from_tag(tag: u8) -> (r: Option<NodeType>)
        ensures
            r matches Some(t) ==> t.spec_tag() == tag,
            r is None ==> forall|t: NodeType| t.spec_tag() != tag,
    {
        let r = if tag == obj_types::BOOL {
            Some(NodeType::Bool)
        } else if tag == obj_types::INT32 {
            Some(NodeType::Int32)
        } else if tag == obj_types::INT64 {
            Some(NodeType::Int64)
        } else if tag == obj_types::STR {
            Some(NodeType::String)
        } else if tag == obj_types::ARRAY {
            Some(NodeType::Array)
        } else if tag == obj_types::DICT {
            Some(NodeType::Dictionary)
        } else if tag == obj_types::END {
            Some(NodeType::End)
        } else {
            None
        };
        proof {
            if r is None {
                assert forall|t: NodeType| t.spec_tag() != tag by {
                    match t {
                        NodeType::Bool => {},
                        NodeType::Int32 => {},
                        NodeType::Int64 => {},
                        NodeType::String => {},
                        NodeType::Array => {},
                        NodeType::Dictionary => {},
                        NodeType::End => {},
                    }
                }
            }
        }
        r
    }
}

impl AnyToBytes for NodeType {
    open spec fn spec_bytes(&self) -> Seq<u8> {
        seq![self.spec_tag()]
    }

    fn to_bytes(&self) -> (r: Vec<u8>) {
        vec![self.tag()]
    }
}

/// The header of a keyed entry: its node type and the byte length of its key.
#[derive(Debug, PartialEq, Eq, Clone, Copy, Structural)]
pub struct NodeHeader {
    pub node_type: NodeType,
    pub key_len: u16,
}

impl NodeHeader {
    pub fn new(node_type: NodeType, key_len: u16) -> (r: Self)
        ensures
            r.node_type == node_type,
            r.key_len == key_len,
    {
        Self { node_type, key_len }
    }
}

impl AnyToBytes for NodeHeader {
    open spec fn spec_bytes(&self) -> Seq<u8> {
        seq![self.node_type.spec_tag()] + u16_le(self.key_len)
    }

    fn to_bytes(&self) -> (r: Vec<u8>) {
        let r = vec![self.node_type.tag(), self.key_len as u8, (self.key_len >> 8u16) as u8];
        assert(r@ =~= self.spec_bytes());
        r
    }
}

/// The payload of a boolean node.
#[derive(Debug, PartialEq, Eq, Clone, Copy, Structural)]
pub struct BoolNode {
    pub value: bool,
}

impl BoolNode {
    pub fn new(value: bool) -> (r: Self)
        ensures
            r.value == value,
    {
        Self { value }
    }
}

impl AnyToBytes for BoolNode {
    open spec fn spec_bytes(&self) -> Seq<u8> {
        seq![if self.value { 1u8 } else { 0u8 }]
    }

    fn to_bytes(&self) -> (r: Vec<u8>) {
        vec![if self.value { 1u8 } else { 0u8 }]
    }
}

/// The payload of a 32-bit integer node.
#[derive(Debug, PartialEq, Eq, Clone, Copy, Structural)]
pub struct Int32Node {
    pub value: u32,
}

impl Int32Node {
    pub fn new(value: u32) -> (r: Self)
        ensures
            r.value == value,
    {
        Self { value }
    }
}

impl AnyToBytes for Int32Node {
    open spec fn spec_bytes(&self) -> Seq<u8> {
        u32_le(self.value)
    }

    fn to_bytes(&self) -> (r: Vec<u8>) {
        let v = self.value;
        let r = vec![v as u8, (v >> 8u32) as u8, (v >> 16u32) as u8, (v >> 24u32) as u8];
        assert(r@ =~= self.spec_bytes());
        r
    }
}

/// The payload of a 64-bit integer node.
#[derive(Debug, PartialEq, Eq, Clone, Copy, Structural)]
pub struct Int64Node {
    pub value: u64,
}

impl Int64Node {
    pub fn new(value: u64) -> (r: Self)
        ensures
            r.value == value,
    {
        Self { value }
    }
}

/// The eight little-endian bytes of `v`, as a vector.
fn u64_bytes(v: u64) -> (r: Vec<u8>)
    ensures
        r@ == u64_le(v),
{
    let r = vec![
        v as u8,
        (v >> 8u64) as u8,
        (v >> 16u64) as u8,
        (v >> 24u64) as u8,
        (v >> 32u64) as u8,
        (v >> 40u64) as u8,
        (v >> 48u64) as u8,
        (v >> 56u64) as u8,
    ];
    assert(r@ =~= u64_le(v));
    r
}

impl AnyToBytes for Int64Node {
    open spec fn spec_bytes(&self) -> Seq<u8> {
        u64_le(self.value)
    }

    fn to_bytes(&self) -> (r: Vec<u8>) {
        u64_bytes(self.value)
    }
}

/// The length prefix of a string node: the byte length of its text.
#[derive(Debug, PartialEq, Eq, Clone, Copy, Structural)]
pub struct StringNode {
    pub len: u64,
}

impl StringNode {
    pub fn new(len: u64) -> (r: Self)
        ensures
            r.len == len,
    {
        Self { len }
    }
}

impl AnyToBytes for StringNode {
    open spec fn spec_bytes(&self) -> Seq<u8> {
        u64_le(self.len)
    }

    fn to_bytes(&self) -> (r: Vec<u8>) {
        u64_bytes(self.len)
    }
}

} // verus!
