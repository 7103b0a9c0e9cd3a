//! Big-endian integer encoding, through the `byteorder` crate.
use byteorder::{BigEndian, ByteOrder};
use vstd::prelude::*;

verus! {

/// The four bytes of `n`, most significant first.
pub open spec fn be_u32_bytes(n: u32) -> Seq<u8> {
    seq![(n >> 24u32) as u8, (n >> 16u32) as u8, (n >> 8u32) as u8, n as u8]
}

/// The `u32` whose big-endian bytes are the first four of `b`.
pub open spec fn be_u32_value(b: Seq<u8>) -> u32 {
    ((b[0] as u32) << 24u32) | ((b[1] as u32) << 16u32) | ((b[2] as u32) << 8u32) | (b[3] as u32)
}

/// The eight bytes of `n`, most significant first.
pub open spec fn be_u64_bytes(n: u64) -> Seq<u8> {
    seq![
        (n >> 56u64) as u8,
        (n >> 48u64) as u8,
        (n >> 40u64) as u8,
        (n >> 32u64) as u8,
        (n >> 24u64) as u8,
        (n >> 16u64) as u8,
        (n >> 8u64) as u8,
        n as u8,
    ]
}

/// The `u64` whose big-endian bytes are the first eight of `b`.
pub open spec fn be_u64_value(b: Seq<u8>) -> u64 {
    ((b[0] as u64) << 56u64) | ((b[1] as u64) << 48u64) | ((b[2] as u64) << 40u64) | ((b[3] as u64)
        << 32u64) | ((b[4] as u64) << 24u64) | ((b[5] as u64) << 16u64) | ((b[6] as u64) << 8u64)
        | (b[7] as u64)
}

/// `s` with the bytes from `at` on replaced by `t`.
pub open spec fn splice(s: Seq<u8>, at: int, t: Seq<u8>) -> Seq<u8> {
    s.take(at) + t + s.skip(at + t.len())
}

/// Decoding the encoding of a `u32` gives it back.
pub proof fn lemma_be_u32_roundtrip(n: u32)
    ensures
        be_u32_value(be_u32_bytes(n)) == n,
{
    let b = be_u32_bytes(n);
    let b0 = b[0];
    let b1 = b[1];
    let b2 = b[2];
    let b3 = b[3];
    assert(((b0 as u32) << 24u32) | ((b1 as u32) << 16u32) | ((b2 as u32) << 8u32) | (b3 as u32)
        == n) by (bit_vector)
        requires
            b0 == (n >> 24u32) as u8,
            b1 == (n >> 16u32) as u8,
            b2 == (n >> 8u32) as u8,
            b3 == n as u8,
    ;
}

/// Decoding the encoding of a `u64` gives it back.
pub proof fn lemma_be_u64_roundtrip(n: u64)
    ensures
        be_u64_value(be_u64_bytes(n)) == n,
{
    let b = be_u64_bytes(n);
    let b0 = b[0];
    let b1 = b[1];
    let b2 = b[2];
    let b3 = b[3];
    let b4 = b[4];
    let b5 = b[5];
    let b6 = b[6];
    let b7 = b[7];
    assert(((b0 as u64) << 56u64) | ((b1 as u64) << 48u64) | ((b2 as u64) << 40u64) | ((b3 as u64)
        << 32u64) | ((b4 as u64) << 24u64) | ((b5 as u64) << 16u64) | ((b6 as u64) << 8u64) | (
    b7 as u64) == n) by (bit_vector)
        requires
            b0 == (n >> 56u64) as u8,
            b1 == (n >> 48u64) as u8,
            b2 == (n >> 40u64) as u8,
            b3 == (n >> 32u64) as u8,
            b4 == (n >> 24u64) as u8,
            b5 == (n >> 16u64) as u8,
            b6 == (n >> 8u64) as u8,
            b7 == n as u8,
    ;
}

/// `BigEndian::write_u32` of `byteorder`, on the four bytes of `buf` from `at`:
/// they become the bytes of `n`, most significant first; the others stay.
#[verifier::external_body]
pub(crate) fn write_u32_at<const N: usize>(buf: &mut [u8; N], at: usize, n: u32)
    requires
        at + 4 <= N,
    ensures
        final(buf)@ == splice(old(buf)@, at as int, be_u32_bytes(n)),
{
    BigEndian::write_u32(&mut buf[at..at + 4], n);
}

/// `BigEndian::write_u64` of `byteorder`, on the eight bytes of `buf` from `at`:
/// they become the bytes of `n`, most significant first; the others stay.
#[verifier::external_body]
pub(crate) fn write_u64_at<const N: usize>(buf: &mut [u8; N], at: usize, n: u64)
    requires
        at + 8 <= N,
    ensures
        final(buf)@ == splice(old(buf)@, at as int, be_u64_bytes(n)),
{
    BigEndian::write_u64(&mut buf[at..at + 8], n);
}

/// `BigEndian::read_u32` of `byteorder`, on the four bytes of `buf` from `at`:
/// the `u32` whose bytes they are, most significant first.
#[verifier::external_body]
pub(crate) fn read_u32_at<const N: usize>(buf: &[u8; N], at: usize) -> (r: u32)
    requires
        at + 4 <= N,
    ensures
        r == be_u32_value(buf@.subrange(at as int, at + 4)),
{
    BigEndian::read_u32(&buf[at..at + 4])
}

/// `BigEndian::read_u64` of `byteorder`, on the eight bytes of `buf` from `at`:
/// the `u64` whose bytes they are, most significant first.
#[verifier::external_body]
pub(crate) fn read_u64_at<const N: usize>(buf: &[u8; N], at: usize) -> (r: u64)
    requires
        at + 8 <= N,
    ensures
        r == be_u64_value(buf@.subrange(at as int, at + 8)),
{
    BigEndian::read_u64(&buf[at..at + 8])
}

} // verus!
