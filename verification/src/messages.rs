//! The message header that precedes every message of a telemetry log, and the
//! body of the `SEQN` (sequence number) message.

use crate::wire::{
    be_u16, be_u32, be_u64, lemma_be_u16_value, lemma_be_u32_value, lemma_be_u64_value,
    read_be_u16, read_be_u32, u16_be_bytes, u64_be_bytes, write_be_u16,
    write_be_u64,
};
use vstd::prelude::*;
use vstd::slice::slice_subrange;

verus! {

/// The number of bytes of a message header: the four character code, a
/// six-byte timestamp and a two-byte body size.
pub const SIZE_OF_HEADER: usize = 4 + 6 + 2;

/// A message header.
#[derive(Clone, Copy, Debug, PartialEq, Eq)]
pub struct Header {
    /// The four character code, determines the type of message
    pub fourcc: [u8; 4],
    /// Time received in nanoseconds from message epoch
    pub timestamp: u64,
    /// The size of the upcoming message body, in bytes
    pub size: usize,
}

/// Why a header could not be read.
#[derive(Clone, Copy, Debug, PartialEq, Eq, Structural)]
pub enum ReadError {
    /// Fewer than `SIZE_OF_HEADER` bytes were left.
    UnexpectedEof,
}

/// The largest timestamp plus one that a header can carry (48 bits).
pub open spec fn timestamp_limit() -> int {
    0x1_0000_0000_0000
}

/// The largest body size plus one that a header can carry (16 bits).
pub open spec fn size_limit() -> int {
    0x1_0000
}

/// The header stored in the first `SIZE_OF_HEADER` bytes of `s`: the four
/// character code, then the timestamp as a 48-bit big-endian number, then the
/// body size as a 16-bit big-endian number.
pub open spec fn header_from_bytes(s: Seq<u8>) -> Header {
    Header {
        fourcc: [s[0], s[1], s[2], s[3]],
        timestamp: be_u64(seq![0u8, 0u8] + s.subrange(4, 10)),
        size: be_u16(s.subrange(10, 12)) as usize,
    }
}

/// The bytes that encode `h`: the timestamp keeps its low 48 bits and the
/// size its low 16 bits.
pub open spec fn header_bytes(h: Header) -> Seq<u8> {
    h.fourcc@ + u64_be_bytes(h.timestamp).subrange(2, 8) + u16_be_bytes(h.size as u16)
}

/// A header whose fields fit the bits that the wire gives them.
pub open spec fn header_fits(h: Header) -> bool {
    &&& h.timestamp < timestamp_limit()
    &&& h.size < size_limit()
}

/// Whether `fourcc` is `SEQN`, the code of the sequence number message.
pub open spec fn is_seqn(fourcc: [u8; 4]) -> bool {
    fourcc[0] == 0x53 && fourcc[1] == 0x45 && fourcc[2] == 0x51 && fourcc[3] == 0x4e
}

/// The sequence number that a `SEQN` body holds: its first four bytes, big-endian.
pub open spec fn seqn_of_body(body: Seq<u8>) -> u32 {
    be_u32(body)
}

/// Reads a message header from the first `SIZE_OF_HEADER` bytes of `bytes`,
/// assuming they stand at the boundary of a message.
pub fn read_header(bytes: &[u8]) -> (r: Result<Header, ReadError>)
    ensures
        r is Err <==> bytes@.len() < SIZE_OF_HEADER,
        r matches Ok(h) ==> h == header_from_bytes(bytes@),
        r matches Ok(h) ==> {
            let s = bytes@;
            &&& h.fourcc@ == s.subrange(0, 4)
            &&& h.timestamp as int == s[4] * 0x100_0000_0000 + s[5] * 0x1_0000_0000 + s[6]
                * 0x100_0000 + s[7] * 0x1_0000 + s[8] * 0x100 + s[9]
            &&& h.size as int == s[10] * 0x100 + s[11]
        },
        r matches Err(e) ==> e == ReadError::UnexpectedEof,
{
    if bytes.len() < SIZE_OF_HEADER {
        return Err(ReadError::UnexpectedEof);
    }
    let fourcc = [bytes[0], bytes[1], bytes[2], bytes[3]];
    let hi = read_be_u16(slice_subrange(bytes, 4, 6));
    let lo = read_be_u32(slice_subrange(bytes, 6, 10));
    let size = read_be_u16(slice_subrange(bytes, 10, 12));
    let timestamp: u64 = (hi as u64) << 32u64 | (lo as u64);
    proof {
        let s = bytes@;
        let t = seq![0u8, 0u8] + s.subrange(4, 10);
        assert(t[0] == 0 && t[1] == 0 && t[2] == s[4] && t[3] == s[5] && t[4] == s[6] && t[5]
            == s[7] && t[6] == s[8] && t[7] == s[9]);
        lemma_join_u48(s[4], s[5], s[6], s[7], s[8], s[9]);
        assert(fourcc@ =~= seq![s[0], s[1], s[2], s[3]]);
        lemma_header_fields_of_bytes(s);
    }
    Ok(Header { fourcc, timestamp, size: size as usize })
}

/// Joining a 16-bit high part and a 32-bit low part gives the 48-bit number
/// of the six bytes.
proof fn lemma_join_u48(b0: u8, b1: u8, b2: u8, b3: u8, b4: u8, b5: u8)
    ensures
        ((((b0 as u16) << 8u16) | (b1 as u16)) as u64) << 32u64 | ((((b2 as u32) << 24u32) | ((
        b3 as u32) << 16u32) | ((b4 as u32) << 8u32) | (b5 as u32)) as u64) == ((0u8 as u64)
            << 56u64) | ((0u8 as u64) << 48u64) | ((b0 as u64) << 40u64) | ((b1 as u64) << 32u64)
            | ((b2 as u64) << 24u64) | ((b3 as u64) << 16u64) | ((b4 as u64) << 8u64) | (b5 as u64),
{
    assert(((((b0 as u16) << 8u16) | (b1 as u16)) as u64) << 32u64 | ((((b2 as u32) << 24u32) | ((
    b3 as u32) << 16u32) | ((b4 as u32) << 8u32) | (b5 as u32)) as u64) == ((0u8 as u64) << 56u64)
        | ((0u8 as u64) << 48u64) | ((b0 as u64) << 40u64) | ((b1 as u64) << 32u64) | ((b2 as u64)
        << 24u64) | ((b3 as u64) << 16u64) | ((b4 as u64) << 8u64) | (b5 as u64)) by (bit_vector);
}

impl Header {
    /// Writes the header to the end of `buffer`: the four character code, the
    /// low six bytes of the timestamp and the low two bytes of the size, all
    /// big-endian.
    pub fn write(&self, buffer: &mut Vec<u8>)
        ensures
            final(buffer)@ == old(buffer)@ + header_bytes(*self),
    {
        buffer.push(self.fourcc[0]);
        buffer.push(self.fourcc[1]);
        buffer.push(self.fourcc[2]);
        buffer.push(self.fourcc[3]);
        let mut time_buffer = [0u8; 8];
        write_be_u64(&mut time_buffer, self.timestamp);
        buffer.push(time_buffer[2]);
        buffer.push(time_buffer[3]);
        buffer.push(time_buffer[4]);
        buffer.push(time_buffer[5]);
        buffer.push(time_buffer[6]);
        buffer.push(time_buffer[7]);
        let mut size_buffer = [0u8; 2];
        write_be_u16(&mut size_buffer, self.size as u16);
        buffer.push(size_buffer[0]);
        buffer.push(size_buffer[1]);
        assert(buffer@ =~= old(buffer)@ + header_bytes(*self));
    }
}

/// Reads the sequence number of a `SEQN` message from its body.
pub fn read_seqn_body(body: &Vec<u8>) -> (r: u32)
    requires
        body@.len() >= 4,
    ensures
        r == seqn_of_body(body@),
        r as int == body@[0] * 0x100_0000 + body@[1] * 0x1_0000 + body@[2] * 0x100 + body@[3],
{
    proof {
        lemma_seqn_of_body_value(body@);
    }
    read_be_u32(body.as_slice())
}

/// The sequence number of a `SEQN` body is the base-256 value of its first
/// four bytes, most significant first.
pub proof fn lemma_seqn_of_body_value(body: Seq<u8>)
    requires
        body.len() >= 4,
    ensures
        seqn_of_body(body) as int == body[0] * 0x100_0000 + body[1] * 0x1_0000 + body[2] * 0x100
            + body[3],
{
    lemma_be_u32_value(body);
}

/// An encoded header is `SIZE_OF_HEADER` bytes long.
pub proof fn lemma_header_bytes_len(h: Header)
    ensures
        header_bytes(h).len() == SIZE_OF_HEADER,
{
}

/// Reading back an encoded header gives the header with its timestamp cut to
/// 48 bits and its size cut to 16 bits.
pub proof fn lemma_read_written_header(h: Header)
    ensures
        header_from_bytes(header_bytes(h)) == (Header {
            fourcc: h.fourcc,
            timestamp: ((h.timestamp as int) % timestamp_limit()) as u64,
            size: ((h.size as int) % size_limit()) as usize,
        }),
{
    let b = header_bytes(h);
    let t = h.timestamp;
    let n = h.size;
    let r = header_from_bytes(b);
    assert(r.fourcc =~= h.fourcc);
    let ts = seq![0u8, 0u8] + b.subrange(4, 10);
    assert(ts[2] == (t >> 40u64) as u8 && ts[3] == (t >> 32u64) as u8 && ts[4] == (t >> 24u64) as u8
        && ts[5] == (t >> 16u64) as u8 && ts[6] == (t >> 8u64) as u8 && ts[7] == t as u8);
    assert(((0u8 as u64) << 56u64) | ((0u8 as u64) << 48u64) | ((((t >> 40u64) as u8) as u64)
        << 40u64) | ((((t >> 32u64) as u8) as u64) << 32u64) | ((((t >> 24u64) as u8) as u64)
        << 24u64) | ((((t >> 16u64) as u8) as u64) << 16u64) | ((((t >> 8u64) as u8) as u64)
        << 8u64) | ((t as u8) as u64) == t % 0x1_0000_0000_0000) by (bit_vector);
    let ss = b.subrange(10, 12);
    let m = n as u16;
    assert(ss[0] == (m >> 8u16) as u8 && ss[1] == m as u8);
    assert((((((m >> 8u16) as u8) as u16) << 8u16) | ((m as u8) as u16)) == m) by (bit_vector);
    assert((n as u16) as usize == n % 0x1_0000) by (bit_vector);
}

/// A header whose timestamp and size fit their bits reads back unchanged
/// from its encoding.
pub proof fn lemma_header_roundtrip(h: Header)
    requires
        header_fits(h),
    ensures
        header_from_bytes(header_bytes(h)) == h,
{
    lemma_read_written_header(h);
}

/// Encoding a header read from bytes gives back those bytes, and such a
/// header always fits its bits.
pub proof fn lemma_bytes_roundtrip(s: Seq<u8>)
    requires
        s.len() >= SIZE_OF_HEADER,
    ensures
        header_fits(header_from_bytes(s)),
        header_bytes(header_from_bytes(s)) == s.subrange(0, SIZE_OF_HEADER as int),
{
    let h = header_from_bytes(s);
    let (b0, b1, b2, b3, b4, b5) = (s[4], s[5], s[6], s[7], s[8], s[9]);
    let t = h.timestamp;
    assert(t == ((0u8 as u64) << 56u64) | ((0u8 as u64) << 48u64) | ((b0 as u64) << 40u64) | ((
    b1 as u64) << 32u64) | ((b2 as u64) << 24u64) | ((b3 as u64) << 16u64) | ((b4 as u64) << 8u64)
        | (b5 as u64));
    assert(t == ((0u8 as u64) << 56u64) | ((0u8 as u64) << 48u64) | ((b0 as u64) << 40u64) | ((
    b1 as u64) << 32u64) | ((b2 as u64) << 24u64) | ((b3 as u64) << 16u64) | ((b4 as u64) << 8u64)
        | (b5 as u64) ==> {
        &&& t < 0x1_0000_0000_0000
        &&& (t >> 40u64) as u8 == b0
        &&& (t >> 32u64) as u8 == b1
        &&& (t >> 24u64) as u8 == b2
        &&& (t >> 16u64) as u8 == b3
        &&& (t >> 8u64) as u8 == b4
        &&& t as u8 == b5
    }) by (bit_vector);
    let (c0, c1) = (s[10], s[11]);
    let m: u16 = ((c0 as u16) << 8u16) | (c1 as u16);
    assert(((m as usize) as u16) == m && (m as usize) < 0x1_0000 && (m >> 8u16) as u8 == c0
        && m as u8 == c1) by (bit_vector)
        requires
            m == ((c0 as u16) << 8u16) | (c1 as u16),
    ;
    assert(header_bytes(h) =~= s.subrange(0, SIZE_OF_HEADER as int));
}

/// A header is read from its bytes as: the code is the first four bytes,
/// the timestamp the base-256 value of the next six, and the size that of
/// the two after them, most significant first.
pub proof fn lemma_header_fields_of_bytes(s: Seq<u8>)
    requires
        s.len() >= SIZE_OF_HEADER,
    ensures
        header_from_bytes(s).fourcc@ == s.subrange(0, 4),
        header_from_bytes(s).timestamp as int == s[4] * 0x100_0000_0000 + s[5] * 0x1_0000_0000
            + s[6] * 0x100_0000 + s[7] * 0x1_0000 + s[8] * 0x100 + s[9],
        header_from_bytes(s).size as int == s[10] * 0x100 + s[11],
{
    let h = header_from_bytes(s);
    assert(h.fourcc@ =~= s.subrange(0, 4));
    let t = seq![0u8, 0u8] + s.subrange(4, 10);
    assert(t.len() == 8 && t[0] == 0 && t[1] == 0 && t[2] == s[4] && t[3] == s[5] && t[4] == s[6]
        && t[5] == s[7] && t[6] == s[8] && t[7] == s[9]);
    lemma_be_u64_value(t);
    let z = s.subrange(10, 12);
    assert(z[0] == s[10] && z[1] == s[11]);
    lemma_be_u16_value(z);
}

} // verus!
