use vstd::prelude::*;

verus! {

/// The field that was being read when the input ran out.
#[derive(Debug, Clone, Copy, PartialEq, Eq, Structural)]
pub enum Field {
    /// The 8-byte signature at the start of a root buffer.
    Magic,
    /// The 2-byte length in front of an entry's key.
    KeyLength,
    /// The bytes of an entry's key.
    Key,
    /// The single byte of a boolean.
    Bool,
    /// The 4 bytes of a 32-bit integer.
    Int32,
    /// The 8 bytes of a 64-bit integer.
    Int64,
    /// The 8-byte length in front of a string.
    StringLength,
    /// The bytes of a string.
    StringBytes,
}

/// Why a buffer could not be decoded.
#[derive(Debug, Clone, Copy, PartialEq, Eq, Structural)]
pub enum DecodeError {
    /// The buffer does not start with the format signature.
    InvalidMagic,
    /// Fewer bytes remain than the named field needs: how many it needs, and how many
    /// were left.
    UnexpectedEof { field: Field, needed: u64, available: u64 },
    /// A key or a string is not well-formed UTF-8.
    InvalidEncoding,
    /// A boolean byte other than `0` or `1`; the byte that was found.
    InvalidScalarValue(u8),
    /// A tag byte outside the known set; the byte that was found.
    UnknownTag(u8),
    /// A key that is already present in the enclosing mapping.
    DuplicateKey,
    /// The buffer ended where a tag, possibly the end marker, was expected.
    MissingEndMarker,
}

impl DecodeError {
    /// Whether this error says that the input stopped too early.
    pub open spec fn is_truncation(self) -> bool {
        self is UnexpectedEof || self is MissingEndMarker
    }
}

} // verus!
