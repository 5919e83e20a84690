use vstd::prelude::*;

verus! {

/// The signature in front of every root buffer: the bytes of `"formulae"`.
pub const FORMULAE_MAGIC: [u8; 8] = [0x66, 0x6f, 0x72, 0x6d, 0x75, 0x6c, 0x61, 0x65];

/// Wire tag of a boolean value.
pub const BOOL: u8 = 0;

/// Wire tag of an unsigned 32-bit integer.
pub const INT32: u8 = 1;

/// Wire tag of an unsigned 64-bit integer.
pub const INT64: u8 = 2;

/// Wire tag of a UTF-8 string.
pub const STR: u8 = 3;

/// Wire tag of a keyed dictionary.
pub const DICT: u8 = 4;

/// Wire tag of an ordered array.
pub const ARRAY: u8 = 5;

/// Sentinel tag that closes a root, dictionary or array.
pub const END: u8 = 0xFF;

} // verus!
