//! A codec for a compact binary configuration format: a tree of typed values is written
//! as tagged, length-prefixed fields behind the signature `"formulae"`, and read back
//! with every field checked.

pub mod cursor;
pub mod decode;
pub mod encode;
pub mod error;
pub mod format;
pub mod keys;
pub mod laws;
pub mod obj_types;
pub mod raw;
pub mod value;

pub use error::{DecodeError, Field};
pub use value::{Object, Value};
