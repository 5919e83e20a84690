use vstd::prelude::*;
use vstd::utf8::{decode_utf8, valid_utf8};

use crate::error::{DecodeError, Field};

verus! {

/// The unsigned integer held by two little-endian bytes.
pub open spec fn le_u16(b: Seq<u8>) -> u16 {
    (b[0] as u16) | ((b[1] as u16) << 8u16)
}

/// The unsigned integer held by four little-endian bytes.
pub open spec fn le_u32(b: Seq<u8>) -> u32 {
    (b[0] as u32) | ((b[1] as u32) << 8u32) | ((b[2] as u32) << 16u32) | ((b[3] as u32) << 24u32)
}

/// The unsigned integer held by eight little-endian bytes.
pub open spec fn le_u64(b: Seq<u8>) -> u64 {
    (b[0] as u64) | ((b[1] as u64) << 8u64) | ((b[2] as u64) << 16u64) | ((b[3] as u64) << 24u64)
        | ((b[4] as u64) << 32u64) | ((b[5] as u64) << 40u64) | ((b[6] as u64) << 48u64) | ((
    b[7] as u64) << 56u64)
}

/// The two little-endian bytes of `n`.
pub open spec fn u16_le(n: u16) -> Seq<u8> {
    seq![n as u8, (n >> 8u16) as u8]
}

/// The four little-endian bytes of `n`.
pub open spec fn u32_le(n: u32) -> Seq<u8> {
    seq![n as u8, (n >> 8u32) as u8, (n >> 16u32) as u8, (n >> 24u32) as u8]
}

/// The eight little-endian bytes of `n`.
pub open spec fn u64_le(n: u64) -> Seq<u8> {
    seq![
        n as u8,
        (n >> 8u64) as u8,
        (n >> 16u64) as u8,
        (n >> 24u64) as u8,
        (n >> 32u64) as u8,
        (n >> 40u64) as u8,
        (n >> 48u64) as u8,
        (n >> 56u64) as u8,
    ]
}

/// Two little-endian bytes read back give the number they were written from.
pub proof fn lemma_le_u16(n: u16, rest: Seq<u8>)
    ensures
        le_u16(u16_le(n) + rest) == n,
{
    let b = u16_le(n) + rest;
    assert(b[0] == n as u8 && b[1] == (n >> 8u16) as u8);
    assert(((n as u8) as u16) | ((((n >> 8u16) as u8) as u16) << 8u16) == n) by (bit_vector);
}

/// Four little-endian bytes read back give the number they were written from.
pub proof fn lemma_le_u32(n: u32, rest: Seq<u8>)
    ensures
        le_u32(u32_le(n) + rest) == n,
{
    let b = u32_le(n) + rest;
    assert(b[0] == n as u8 && b[1] == (n >> 8u32) as u8 && b[2] == (n >> 16u32) as u8 && b[3] == (n
        >> 24u32) as u8);
    assert(((n as u8) as u32) | ((((n >> 8u32) as u8) as u32) << 8u32) | ((((n >> 16u32) as u8)
        as u32) << 16u32) | ((((n >> 24u32) as u8) as u32) << 24u32) == n) by (bit_vector);
}

/// Eight little-endian bytes read back give the number they were written from.
pub proof fn lemma_le_u64(n: u64, rest: Seq<u8>)
    ensures
        le_u64(u64_le(n) + rest) == n,
{
    let b = u64_le(n) + rest;
    assert(b[0] == n as u8 && b[1] == (n >> 8u64) as u8 && b[2] == (n >> 16u64) as u8 && b[3] == (n
        >> 24u64) as u8);
    assert(b[4] == (n >> 32u64) as u8 && b[5] == (n >> 40u64) as u8 && b[6] == (n >> 48u64) as u8
        && b[7] == (n >> 56u64) as u8);
    assert(((n as u8) as u64) | ((((n >> 8u64) as u8) as u64) << 8u64) | ((((n >> 16u64) as u8)
        as u64) << 16u64) | ((((n >> 24u64) as u8) as u64) << 24u64) | ((((n >> 32u64) as u8) as u64)
        << 32u64) | ((((n >> 40u64) as u8) as u64) << 40u64) | ((((n >> 48u64) as u8) as u64)
        << 48u64) | ((((n >> 56u64) as u8) as u64) << 56u64) == n) by (bit_vector);
}

/// The error for a field of `needed` bytes where only `s` is left.
pub open spec fn eof_spec(field: Field, needed: u64, s: Seq<u8>) -> DecodeError {
    DecodeError::UnexpectedEof { field, needed, available: s.len() as u64 }
}

/// Reading a UTF-8 payload of `n` bytes from the front of `s`: the text and what follows it.
pub open spec fn text_spec(s: Seq<u8>, n: u64, short: Field) -> Result<
    (Seq<char>, Seq<u8>),
    DecodeError,
> {
    if s.len() < n {
        Err(eof_spec(short, n, s))
    } else if !valid_utf8(s.take(n as int)) {
        Err(DecodeError::InvalidEncoding)
    } else {
        Ok((decode_utf8(s.take(n as int)), s.skip(n as int)))
    }
}

/// Reading a key: a 2-byte little-endian length, then that many UTF-8 bytes.
pub open spec fn key_spec(s: Seq<u8>) -> Result<(Seq<char>, Seq<u8>), DecodeError> {
    if s.len() < 2 {
        Err(eof_spec(Field::KeyLength, 2, s))
    } else {
        text_spec(s.skip(2), le_u16(s) as u64, Field::Key)
    }
}

/// Reading a string: an 8-byte little-endian length, then that many UTF-8 bytes.
pub open spec fn string_spec(s: Seq<u8>) -> Result<(Seq<char>, Seq<u8>), DecodeError> {
    if s.len() < 8 {
        Err(eof_spec(Field::StringLength, 8, s))
    } else {
        text_spec(s.skip(8), le_u64(s), Field::StringBytes)
    }
}

/// The number held by two little-endian bytes.
pub fn u16_from_le(b: [u8; 2]) -> (r: u16)
    ensures
        r == le_u16(b@),
{
    (b[0] as u16) | ((b[1] as u16) << 8u16)
}

/// The number held by four little-endian bytes.
pub fn u32_from_le(b: [u8; 4]) -> (r: u32)
    ensures
        r == le_u32(b@),
{
    (b[0] as u32) | ((b[1] as u32) << 8u32) | ((b[2] as u32) << 16u32) | ((b[3] as u32) << 24u32)
}

/// The number held by eight little-endian bytes.
pub fn u64_from_le(b: [u8; 8]) -> (r: u64)
    ensures
        r == le_u64(b@),
{
    (b[0] as u64) | ((b[1] as u64) << 8u64) | ((b[2] as u64) << 16u64) | ((b[3] as u64) << 24u64)
        | ((b[4] as u64) << 32u64) | ((b[5] as u64) << 40u64) | ((b[6] as u64) << 48u64) | ((
    b[7] as u64) << 56u64)
}

/// The error for a field of `needed` bytes that `input` is too short to hold.
pub(crate) fn short_input(field: Field, needed: u64, input: &[u8]) -> (r: DecodeError)
    ensures
        r == eof_spec(field, needed, input@),
{
    DecodeError::UnexpectedEof { field, needed, available: input.len() as u64 }
}

/// Splits the first `N` bytes off `input`, or returns `None` when it is shorter.
pub fn read_bytes<const N: usize>(input: &[u8]) -> (r: Option<([u8; N], &[u8])>)
    ensures
        r is Some <==> input@.len() >= N,
        r matches Some((head, rest)) ==> head@ == input@.take(N as int) && rest@ == input@.skip(
            N as int,
        ),
{
    if input.len() < N {
        return None;
    }
    let (head, rest) = input.split_at(N);
    let mut bytes = [0u8; N];
    let mut i: usize = 0;
    while i < N
        invariant
            i <= N,
            head@.len() == N,
            bytes@.len() == N,
            forall|j: int| 0 <= j < i ==> bytes@[j] == head@[j],
        decreases N - i,
    {
        bytes[i] = head[i];
        i += 1;
    }
    assert(bytes@ =~= input@.take(N as int));
    assert(rest@ =~= input@.skip(N as int));
    Some((bytes, rest))
}

/// Relies on `core::str::from_utf8`: it accepts exactly the well-formed UTF-8 byte
/// sequences, and the text it returns is made of the same bytes.
#[verifier::external_body]
fn utf8_text(bytes: &[u8]) -> (r: Option<&str>)
    ensures
        r is Some <==> valid_utf8(bytes@),
        r matches Some(t) ==> t@ == decode_utf8(bytes@),
{
    core::str::from_utf8(bytes).ok()
}

/// Reads `n` bytes of UTF-8 text from the front of `input`.
fn read_text(input: &[u8], n: u64, short: Field) -> (r: Result<(String, &[u8]), DecodeError>)
    ensures
        match (r, text_spec(input@, n, short)) {
            (Ok((t, rest)), Ok((u, srest))) => t@ == u && rest@ == srest,
            (Err(e), Err(f)) => e == f,
            _ => false,
        },
{
    if (input.len() as u64) < n {
        return Err(short_input(short, n, input));
    }
    let (head, rest) = input.split_at(n as usize);
    assert(head@ == input@.take(n as int));
    match utf8_text(head) {
        Some(t) => Ok((t.to_owned(), rest)),
        None => Err(DecodeError::InvalidEncoding),
    }
}

/// Reads a key: a 2-byte little-endian length, then that many bytes of UTF-8 text.
pub fn read_key(input: &[u8]) -> (r: Result<(String, &[u8]), DecodeError>)
    ensures
        match (r, key_spec(input@)) {
            (Ok((t, rest)), Ok((u, srest))) => t@ == u && rest@ == srest,
            (Err(e), Err(f)) => e == f,
            _ => false,
        },
{
    let (len, input2) = match read_bytes::<2>(input) {
        Some(p) => p,
        None => return Err(short_input(Field::KeyLength, 2, input)),
    };
    let n = u16_from_le(len);
    proof {
        assert(len@ =~= input@.take(2));
    }
    read_text(input2, n as u64, Field::Key)
}

/// Reads a string: an 8-byte little-endian length, then that many bytes of UTF-8 text.
pub fn read_string(input: &[u8]) -> (r: Result<(String, &[u8]), DecodeError>)
    ensures
        match (r, string_spec(input@)) {
            (Ok((t, rest)), Ok((u, srest))) => t@ == u && rest@ == srest,
            (Err(e), Err(f)) => e == f,
            _ => false,
        },
{
    let (len, input2) = match read_bytes::<8>(input) {
        Some(p) => p,
        None => return Err(short_input(Field::StringLength, 8, input)),
    };
    let n = u64_from_le(len);
    read_text(input2, n, Field::StringBytes)
}

} // verus!
