//! Framing of messages on a stream: each message is preceded by its length
//! as a big-endian 32-bit number.

use vstd::prelude::*;

verus! {

/// The four bytes of `n`, most significant first.
pub open spec fn be_bytes(n: u32) -> Seq<u8> {
    seq![(n >> 24u32) as u8, (n >> 16u32) as u8, (n >> 8u32) as u8, n as u8]
}

/// The number whose big-endian bytes are `b`.
pub open spec fn be_value(b: Seq<u8>) -> u32 {
    ((b[0] as u32) << 24u32) | ((b[1] as u32) << 16u32) | ((b[2] as u32) << 8u32) | (b[3] as u32)
}

/// The length prefix of a message of `payload_len` bytes. A message longer
/// than a 32-bit length can state cannot be framed.
pub fn frame_header(payload_len: usize) -> (header: [u8; 4])
    requires
        payload_len <= u32::MAX,
    ensures
        header@ == be_bytes(payload_len as u32),
{
    let len: u32 = payload_len as u32;
    let header = [(len >> 24u32) as u8, (len >> 16u32) as u8, (len >> 8u32) as u8, len as u8];
    assert(header@ =~= be_bytes(len));
    header
}

/// The payload length a length prefix announces.
pub fn frame_length(header: [u8; 4]) -> (len: usize)
    ensures
        len == be_value(header@),
{
    let value: u32 = ((header[0] as u32) << 24u32) | ((header[1] as u32) << 16u32) | ((header[2] as u32) << 8u32)
        | (header[3] as u32);
    value as usize
}

/// Reading the length prefix of a message gives back the length it was
/// framed with.
pub proof fn frame_length_of_header(n: u32)
    ensures
        be_value(be_bytes(n)) == n,
{
    let b0 = (n >> 24u32) as u8;
    let b1 = (n >> 16u32) as u8;
    let b2 = (n >> 8u32) as u8;
    let b3 = n as u8;
    assert(be_bytes(n)[0] == b0 && be_bytes(n)[1] == b1 && be_bytes(n)[2] == b2 && be_bytes(n)[3] == b3);
    assert(((b0 as u32) << 24u32) | ((b1 as u32) << 16u32) | ((b2 as u32) << 8u32) | (b3 as u32) == n) by (bit_vector)
        requires
            b0 == (n >> 24u32) as u8,
            b1 == (n >> 16u32) as u8,
            b2 == (n >> 8u32) as u8,
            b3 == n as u8,
    ;
}

} // verus!
