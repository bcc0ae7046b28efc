//! Big-endian (network order) integer fields inside byte buffers.
use byteorder::{ByteOrder, NetworkEndian};
use vstd::prelude::*;

verus! {

/// The two bytes of `n`, most significant first.
pub open spec fn be16_bytes(n: u16) -> Seq<u8> {
    seq![(n >> 8u16) as u8, n as u8]
}

/// The four bytes of `n`, most significant first.
pub open spec fn be32_bytes(n: u32) -> Seq<u8> {
    seq![(n >> 24u32) as u8, (n >> 16u32) as u8, (n >> 8u32) as u8, n as u8]
}

/// The integer stored most significant byte first at `s[at]`, `s[at + 1]`.
pub open spec fn be16_at(s: Seq<u8>, at: int) -> u16 {
    ((s[at] as u16) << 8u16) | (s[at + 1] as u16)
}

/// The integer stored most significant byte first at `s[at]` .. `s[at + 3]`.
pub open spec fn be32_at(s: Seq<u8>, at: int) -> u32 {
    ((s[at] as u32) << 24u32) | ((s[at + 1] as u32) << 16u32) | ((s[at + 2] as u32) << 8u32) | (
    s[at + 3] as u32)
}

/// Reading back the bytes written for `n` gives `n`.
pub proof fn lemma_be16_round_trip(n: u16, s: Seq<u8>, at: int)
    requires
        0 <= at,
        at + 2 <= s.len(),
        s.subrange(at, at + 2) == be16_bytes(n),
    ensures
        be16_at(s, at) == n,
{
    assert(s[at] == s.subrange(at, at + 2)[0]);
    assert(s[at + 1] == s.subrange(at, at + 2)[1]);
    let hi: u8 = s[at];
    let lo: u8 = s[at + 1];
    assert(hi == (n >> 8u16) as u8 && lo == n as u8 ==> ((hi as u16) << 8u16) | (lo as u16) == n)
        by (bit_vector);
}

/// Reading back the bytes written for `n` gives `n`.
pub proof fn lemma_be32_round_trip(n: u32, s: Seq<u8>, at: int)
    requires
        0 <= at,
        at + 4 <= s.len(),
        s.subrange(at, at + 4) == be32_bytes(n),
    ensures
        be32_at(s, at) == n,
{
    let w = s.subrange(at, at + 4);
    assert(s[at] == w[0] && s[at + 1] == w[1] && s[at + 2] == w[2] && s[at + 3] == w[3]);
    let (b0, b1, b2, b3) = (s[at], s[at + 1], s[at + 2], s[at + 3]);
    assert(b0 == (n >> 24u32) as u8 && b1 == (n >> 16u32) as u8 && b2 == (n >> 8u32) as u8 && b3
        == n as u8 ==> ((b0 as u32) << 24u32) | ((b1 as u32) << 16u32) | ((b2 as u32) << 8u32) | (
    b3 as u32) == n) by (bit_vector);
}

/// Relies on byteorder's `NetworkEndian::read_u16`: the first two bytes of the
/// slice it is given, most significant first; it panics on fewer than two.
#[verifier::external_body]
pub(crate) fn read_be16(buf: &[u8], at: usize) -> (r: u16)
    requires
        at + 2 <= buf@.len(),
    ensures
        r == be16_at(buf@, at as int),
{
    NetworkEndian::read_u16(&buf[at..])
}

/// Relies on byteorder's `NetworkEndian::read_u32`: the first four bytes of the
/// slice it is given, most significant first; it panics on fewer than four.
#[verifier::external_body]
pub(crate) fn read_be32(buf: &[u8], at: usize) -> (r: u32)
    requires
        at + 4 <= buf@.len(),
    ensures
        r == be32_at(buf@, at as int),
{
    NetworkEndian::read_u32(&buf[at..])
}

/// Relies on byteorder's `NetworkEndian::write_u16`: it overwrites the first two
/// bytes of the slice it is given with `n`, most significant first, and no others.
#[verifier::external_body]
pub(crate) fn write_be16(buf: &mut Vec<u8>, at: usize, n: u16)
    requires
        at + 2 <= old(buf)@.len(),
    ensures
        final(buf)@ == old(buf)@.subrange(0, at as int) + be16_bytes(n) + old(buf)@.subrange(
            at + 2,
            old(buf)@.len() as int,
        ),
{
    NetworkEndian::write_u16(&mut buf[at..], n)
}

/// Relies on byteorder's `NetworkEndian::write_u32`: it overwrites the first four
/// bytes of the slice it is given with `n`, most significant first, and no others.
#[verifier::external_body]
pub(crate) fn write_be32(buf: &mut Vec<u8>, at: usize, n: u32)
    requires
        at + 4 <= old(buf)@.len(),
    ensures
        final(buf)@ == old(buf)@.subrange(0, at as int) + be32_bytes(n) + old(buf)@.subrange(
            at + 4,
            old(buf)@.len() as int,
        ),
{
    NetworkEndian::write_u32(&mut buf[at..], n)
}

} // verus!
