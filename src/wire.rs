//! Big-endian integers and raw byte runs on the wire.
use vstd::prelude::*;
use vstd::slice::slice_to_vec;

verus! {

/// Why a decode attempt stopped.
#[derive(Clone, Copy, Debug, PartialEq, Eq, Structural)]
pub enum DecodeError {
    /// The buffer ends before a fixed-size field or a declared region.
    InsufficientData,
    /// A record type or class tag names no known variant.
    InvalidTag,
}

/// The outcome of reading a value of model type `T` from the front of a byte sequence:
/// how many bytes were consumed, and the value read.
pub type Parsed<T> = Result<(int, T), DecodeError>;

/// Puts the values `xs`, read from `k` bytes, before the outcome of reading the rest.
pub open spec fn prefixed<T>(xs: Seq<T>, k: int, p: Parsed<Seq<T>>) -> Parsed<Seq<T>> {
    match p {
        Ok((n, v)) => Ok((k + n, xs + v)),
        Err(e) => Err(e),
    }
}

pub proof fn lemma_prefixed_twice<T>(a: Seq<T>, k: int, b: Seq<T>, j: int, p: Parsed<Seq<T>>)
    ensures
        prefixed(a, k, prefixed(b, j, p)) == prefixed(a + b, k + j, p),
{
    if let Ok((n, v)) = p {
        assert(a + (b + v) =~= (a + b) + v);
    }
}

/// Two bytes, most significant first.
pub open spec fn be16(v: u16) -> Seq<u8> {
    seq![(v / 256) as u8, (v % 256) as u8]
}

/// Four bytes, most significant first.
pub open spec fn be32(v: u32) -> Seq<u8> {
    seq![(v / 0x100_0000) as u8, ((v / 0x1_0000) % 256) as u8, ((v / 256) % 256) as u8, (v % 256) as u8]
}

pub open spec fn read16(s: Seq<u8>) -> u16
    recommends
        s.len() >= 2,
{
    (s[0] as int * 256 + s[1] as int) as u16
}

pub open spec fn read32(s: Seq<u8>) -> u32
    recommends
        s.len() >= 4,
{
    (s[0] as int * 0x100_0000 + s[1] as int * 0x1_0000 + s[2] as int * 256 + s[3] as int) as u32
}

pub open spec fn parse_u8(s: Seq<u8>) -> Parsed<u8> {
    if s.len() < 1 {
        Err(DecodeError::InsufficientData)
    } else {
        Ok((1, s[0]))
    }
}

pub open spec fn parse_u16(s: Seq<u8>) -> Parsed<u16> {
    if s.len() < 2 {
        Err(DecodeError::InsufficientData)
    } else {
        Ok((2, read16(s)))
    }
}

pub open spec fn parse_u32(s: Seq<u8>) -> Parsed<u32> {
    if s.len() < 4 {
        Err(DecodeError::InsufficientData)
    } else {
        Ok((4, read32(s)))
    }
}

pub open spec fn parse_bytes(s: Seq<u8>, n: int) -> Parsed<Seq<u8>> {
    if s.len() < n {
        Err(DecodeError::InsufficientData)
    } else {
        Ok((n, s.take(n)))
    }
}

/// What an exec decoder returns matches the model parse `p` of `input`: on success the
/// remaining input is what follows the consumed bytes and the value's model is `v`.
pub open spec fn decoded<T>(
    input: Seq<u8>,
    p: Parsed<T>,
    r: Result<(Seq<u8>, T), DecodeError>,
) -> bool {
    match p {
        Ok((n, v)) => 0 <= n <= input.len() && r == Ok::<(Seq<u8>, T), DecodeError>((input.skip(n), v)),
        Err(e) => r == Err::<(Seq<u8>, T), DecodeError>(e),
    }
}

/// The model of an exec decoder's result: the rest of the input as bytes, the value by its view.
pub open spec fn viewed<T: View>(r: Result<(&[u8], T), DecodeError>) -> Result<(Seq<u8>, T::V), DecodeError> {
    match r {
        Ok((rest, v)) => Ok((rest@, v@)),
        Err(e) => Err(e),
    }
}

/// A value with a byte encoding that reads back from the front of a buffer.
pub trait Bincode: Sized + View {
    /// The bytes that a value with model `v` encodes to.
    spec fn wire_of(v: Self::V) -> Seq<u8>;

    /// Reading a value from the front of `s`.
    spec fn parse_of(s: Seq<u8>) -> Parsed<Self::V>;

    /// Appends the encoding of `self`.
    fn encode(&self, buf: &mut Vec<u8>)
        ensures
            final(buf)@ == old(buf)@ + Self::wire_of(self@),
    ;

    /// Reads a value from the front of `buf`, returning what follows it; the first part
    /// that fails decides the error.
    fn decode(buf: &[u8]) -> (r: Result<(&[u8], Self), DecodeError>)
        ensures
            decoded(buf@, Self::parse_of(buf@), viewed(r)),
    ;
}

pub proof fn lemma_be16_read(v: u16, t: Seq<u8>)
    ensures
        parse_u16(be16(v) + t) == Ok::<(int, u16), DecodeError>((2, v)),
        (be16(v) + t).skip(2) == t,
        be16(v).len() == 2,
{
    let s = be16(v) + t;
    assert(s.skip(2) =~= t);
}

pub proof fn lemma_be32_read(v: u32, t: Seq<u8>)
    ensures
        parse_u32(be32(v) + t) == Ok::<(int, u32), DecodeError>((4, v)),
        (be32(v) + t).skip(4) == t,
        be32(v).len() == 4,
{
    let s = be32(v) + t;
    assert(s.skip(4) =~= t);
}

pub fn put_u16(buf: &mut Vec<u8>, v: u16)
    ensures
        final(buf)@ == old(buf)@ + be16(v),
{
    buf.push((v / 256) as u8);
    buf.push((v % 256) as u8);
    assert(final(buf)@ =~= old(buf)@ + be16(v));
}

pub fn put_u32(buf: &mut Vec<u8>, v: u32)
    ensures
        final(buf)@ == old(buf)@ + be32(v),
{
    buf.push((v / 0x100_0000) as u8);
    buf.push(((v / 0x1_0000) % 256) as u8);
    buf.push(((v / 256) % 256) as u8);
    buf.push((v % 256) as u8);
    assert(final(buf)@ =~= old(buf)@ + be32(v));
}

pub fn put_bytes(buf: &mut Vec<u8>, bytes: &[u8])
    ensures
        final(buf)@ == old(buf)@ + bytes@,
{
    let mut i: usize = 0;
    while i < bytes.len()
        invariant
            i <= bytes@.len(),
            buf@ == old(buf)@ + bytes@.take(i as int),
        decreases bytes@.len() - i,
    {
        buf.push(bytes[i]);
        i += 1;
        assert(buf@ =~= old(buf)@ + bytes@.take(i as int));
    }
    assert(bytes@.take(i as int) =~= bytes@);
}

pub fn take_u8(input: &[u8]) -> (r: Result<(&[u8], u8), DecodeError>)
    ensures
        decoded(input@, parse_u8(input@), viewed(r)),
{
    if input.len() < 1 {
        return Err(DecodeError::InsufficientData);
    }
    let rest = &input[1..input.len()];
    Ok((rest, input[0]))
}

pub fn take_u16(input: &[u8]) -> (r: Result<(&[u8], u16), DecodeError>)
    ensures
        decoded(input@, parse_u16(input@), viewed(r)),
{
    if input.len() < 2 {
        return Err(DecodeError::InsufficientData);
    }
    let v: u16 = input[0] as u16 * 256 + input[1] as u16;
    let rest = &input[2..input.len()];
    Ok((rest, v))
}

pub fn take_u32(input: &[u8]) -> (r: Result<(&[u8], u32), DecodeError>)
    ensures
        decoded(input@, parse_u32(input@), viewed(r)),
{
    if input.len() < 4 {
        return Err(DecodeError::InsufficientData);
    }
    let v: u32 = input[0] as u32 * 0x100_0000 + input[1] as u32 * 0x1_0000 + input[2] as u32 * 256
        + input[3] as u32;
    let rest = &input[4..input.len()];
    Ok((rest, v))
}

pub fn take_bytes(input: &[u8], n: usize) -> (r: Result<(&[u8], Vec<u8>), DecodeError>)
    ensures
        decoded(input@, parse_bytes(input@, n as int), viewed(r)),
{
    if input.len() < n {
        return Err(DecodeError::InsufficientData);
    }
    let bytes = slice_to_vec(&input[0..n]);
    let rest = &input[n..input.len()];
    Ok((rest, bytes))
}

} // verus!
