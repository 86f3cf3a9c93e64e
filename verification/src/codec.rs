//! Fixed-width big-endian encoding of sequence-counter values.
//!
//! A counter value is held durably as exactly 4 big-endian bytes;
//! anything else stored under a counter's name decodes to nothing.

use vstd::prelude::*;

verus! {

/// The counter value that 4 big-endian bytes hold.
pub open spec fn be32(s: Seq<u8>) -> u32
    recommends
        s.len() == 4,
{
    (s[0] * 0x100_0000 + s[1] * 0x1_0000 + s[2] * 0x100 + s[3]) as u32
}

/// Decodes a 4-byte big-endian value.
pub fn from_be4(s: &[u8]) -> (r: u32)
    requires
        s@.len() == 4,
    ensures
        r == be32(s@),
{
    (s[0] as u32) * 0x100_0000 + (s[1] as u32) * 0x1_0000 + (s[2] as u32) * 0x100 + (s[3] as u32)
}

/// Encodes a counter value as exactly 4 big-endian bytes; decoding
/// gives the value back.
pub fn to_be4(x: u32) -> (r: Vec<u8>)
    ensures
        r@.len() == 4,
        be32(r@) == x,
{
    let b0: u8 = (x >> 24) as u8;
    let b1: u8 = (x >> 16) as u8;
    let b2: u8 = (x >> 8) as u8;
    let b3: u8 = x as u8;
    proof {
        assert(((x >> 24) as u8) as u32 * 0x100_0000 + ((x >> 16) as u8) as u32 * 0x1_0000
            + ((x >> 8) as u8) as u32 * 0x100 + (x as u8) as u32 == x) by (bit_vector);
    }
    let r: Vec<u8> = vec![b0, b1, b2, b3];
    assert(r@ =~= seq![b0, b1, b2, b3]);
    r
}

} // verus!
