//! Big-endian integers on the wire, read and written through `byteorder`.

use byteorder::{BigEndian, ByteOrder};
use vstd::prelude::*;

verus! {

/// The `u16` stored big-endian in the first two bytes of `s`.
pub open spec fn be_u16(s: Seq<u8>) -> u16 {
    ((s[0] as u16) << 8u16) | (s[1] as u16)
}

/// The `u32` stored big-endian in the first four bytes of `s`.
pub open spec fn be_u32(s: Seq<u8>) -> u32 {
    ((s[0] as u32) << 24u32) | ((s[1] as u32) << 16u32) | ((s[2] as u32) << 8u32) | (s[3] as u32)
}

/// The `u64` stored big-endian in the first eight bytes of `s`.
pub open spec fn be_u64(s: Seq<u8>) -> u64 {
    ((s[0] as u64) << 56u64) | ((s[1] as u64) << 48u64) | ((s[2] as u64) << 40u64) | ((s[3] as u64)
        << 32u64) | ((s[4] as u64) << 24u64) | ((s[5] as u64) << 16u64) | ((s[6] as u64) << 8u64)
        | (s[7] as u64)
}

/// The two bytes of `n`, most significant first.
pub open spec fn u16_be_bytes(n: u16) -> Seq<u8> {
    seq![(n >> 8u16) as u8, n as u8]
}

/// The eight bytes of `n`, most significant first.
pub open spec fn u64_be_bytes(n: u64) -> Seq<u8> {
    seq![
        (n >> 56u64) as u8,
        (n >> 48u64) as u8,
        (n >> 40u64) as u8,
        (n >> 32u64) as u8,
        (n >> 24u64) as u8,
        (n >> 16u64) as u8,
        (n >> 8u64) as u8,
        n as u8,
    ]
}

/// Reads the `u16` stored big-endian in the first two bytes of `buf`.
///
/// Trusted: `<BigEndian as ByteOrder>::read_u16`, which the crate writes as
/// `u16::from_be_bytes` of `buf[..2]`, and which panics on a shorter buffer.
#[verifier::external_body]
pub(crate) fn read_be_u16(buf: &[u8]) -> (r: u16)
    requires
        buf@.len() >= 2,
    ensures
        r == be_u16(buf@),
{
    BigEndian::read_u16(buf)
}

/// Reads the `i16` stored big-endian (two's complement) in the first two bytes of `buf`.
///
/// Trusted: `<BigEndian as ByteOrder>::read_i16`, which the crate writes as
/// `read_u16(buf) as i16`, and which panics on a shorter buffer.
#[verifier::external_body]
pub(crate) fn read_be_i16(buf: &[u8]) -> (r: i16)
    requires
        buf@.len() >= 2,
    ensures
        r == be_u16(buf@) as i16,
{
    BigEndian::read_i16(buf)
}

/// Reads the `u32` stored big-endian in the first four bytes of `buf`.
///
/// Trusted: `<BigEndian as ByteOrder>::read_u32`, which the crate writes as
/// `u32::from_be_bytes` of `buf[..4]`, and which panics on a shorter buffer.
#[verifier::external_body]
pub(crate) fn read_be_u32(buf: &[u8]) -> (r: u32)
    requires
        buf@.len() >= 4,
    ensures
        r == be_u32(buf@),
{
    BigEndian::read_u32(buf)
}

/// Reads the `i32` stored big-endian (two's complement) in the first four bytes of `buf`.
///
/// Trusted: `<BigEndian as ByteOrder>::read_i32`, which the crate writes as
/// `read_u32(buf) as i32`, and which panics on a shorter buffer.
#[verifier::external_body]
pub(crate) fn read_be_i32(buf: &[u8]) -> (r: i32)
    requires
        buf@.len() >= 4,
    ensures
        r == be_u32(buf@) as i32,
{
    BigEndian::read_i32(buf)
}

/// Reads the `u64` stored big-endian in the first eight bytes of `buf`.
///
/// Trusted: `<BigEndian as ByteOrder>::read_u64`, which the crate writes as
/// `u64::from_be_bytes` of `buf[..8]`, and which panics on a shorter buffer.
#[verifier::external_body]
pub(crate) fn read_be_u64(buf: &[u8]) -> (r: u64)
    requires
        buf@.len() >= 8,
    ensures
        r == be_u64(buf@),
{
    BigEndian::read_u64(buf)
}

/// Reads the `i64` stored big-endian (two's complement) in the first eight bytes of `buf`.
///
/// Trusted: `<BigEndian as ByteOrder>::read_i64`, which the crate writes as
/// `read_u64(buf) as i64`, and which panics on a shorter buffer.
#[verifier::external_body]
pub(crate) fn read_be_i64(buf: &[u8]) -> (r: i64)
    requires
        buf@.len() >= 8,
    ensures
        r == be_u64(buf@) as i64,
{
    BigEndian::read_i64(buf)
}

/// Writes `n` big-endian into the two bytes of `buf`.
///
/// Trusted: `<BigEndian as ByteOrder>::write_u16`, which the crate writes as
/// copying `n.to_be_bytes()` into `buf[..2]`.
#[verifier::external_body]
pub(crate) fn write_be_u16(buf: &mut [u8; 2], n: u16)
    ensures
        final(buf)@ == u16_be_bytes(n),
{
    BigEndian::write_u16(buf, n)
}

/// Writes `n` big-endian into the eight bytes of `buf`.
///
/// Trusted: `<BigEndian as ByteOrder>::write_u64`, which the crate writes as
/// copying `n.to_be_bytes()` into `buf[..8]`.
#[verifier::external_body]
pub(crate) fn write_be_u64(buf: &mut [u8; 8], n: u64)
    ensures
        final(buf)@ == u64_be_bytes(n),
{
    BigEndian::write_u64(buf, n)
}

/// The `u16` of two big-endian bytes is `256 * first + second`.
pub proof fn lemma_be_u16_value(s: Seq<u8>)
    requires
        s.len() >= 2,
    ensures
        be_u16(s) as int == s[0] * 0x100 + s[1],
{
    let (a, b) = (s[0], s[1]);
    assert(((a as u16) << 8u16) | (b as u16) == a * 0x100 + b) by (bit_vector);
}

/// The `u32` of four big-endian bytes is their base-256 value, most
/// significant first.
pub proof fn lemma_be_u32_value(s: Seq<u8>)
    requires
        s.len() >= 4,
    ensures
        be_u32(s) as int == s[0] * 0x100_0000 + s[1] * 0x1_0000 + s[2] * 0x100 + s[3],
{
    let (a, b, c, d) = (s[0], s[1], s[2], s[3]);
    assert(((a as u32) << 24u32) | ((b as u32) << 16u32) | ((c as u32) << 8u32) | (d as u32) == a
        * 0x100_0000 + b * 0x1_0000 + c * 0x100 + d) by (bit_vector);
}

/// The `u64` of eight big-endian bytes is their base-256 value, most
/// significant first.
pub proof fn lemma_be_u64_value(s: Seq<u8>)
    requires
        s.len() >= 8,
    ensures
        be_u64(s) as int == s[0] * 0x100_0000_0000_0000 + s[1] * 0x1_0000_0000_0000 + s[2]
            * 0x100_0000_0000 + s[3] * 0x1_0000_0000 + s[4] * 0x100_0000 + s[5] * 0x1_0000 + s[6]
            * 0x100 + s[7],
{
    let (a, b, c, d, e, f, g, h) = (s[0], s[1], s[2], s[3], s[4], s[5], s[6], s[7]);
    assert(((a as u64) << 56u64) | ((b as u64) << 48u64) | ((c as u64) << 40u64) | ((d as u64)
        << 32u64) | ((e as u64) << 24u64) | ((f as u64) << 16u64) | ((g as u64) << 8u64) | (h as u64)
        == a * 0x100_0000_0000_0000 + b * 0x1_0000_0000_0000 + c * 0x100_0000_0000 + d
        * 0x1_0000_0000 + e * 0x100_0000 + f * 0x1_0000 + g * 0x100 + h) by (bit_vector);
}

} // verus!
