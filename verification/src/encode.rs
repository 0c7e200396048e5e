use vstd::prelude::*;

verus! {

/// Little-endian bytes of a 16-bit value.
pub open spec fn le16(x: u16) -> Seq<u8> {
    seq![(x & 0xff) as u8, ((x >> 8) & 0xff) as u8]
}

/// Little-endian bytes of a 32-bit value.
pub open spec fn le32(x: u32) -> Seq<u8> {
    seq![(x & 0xff) as u8, ((x >> 8) & 0xff) as u8, ((x >> 16) & 0xff) as u8, ((x >> 24) & 0xff) as u8]
}

/// The value that four little-endian bytes stand for.
pub open spec fn from_le32(b: Seq<u8>) -> u32
    recommends b.len() == 4,
{
    (b[0] as u32) | (b[1] as u32) << 8 | (b[2] as u32) << 16 | (b[3] as u32) << 24
}

/// The value that two little-endian bytes stand for.
pub open spec fn from_le16(b: Seq<u8>) -> u16
    recommends b.len() == 2,
{
    (b[0] as u16) | (b[1] as u16) << 8
}

/// Reading back two little-endian bytes gives the value that was written.
pub proof fn lemma_le16_roundtrip(x: u16)
    ensures
        le16(x).len() == 2,
        from_le16(le16(x)) == x,
{
    let b0 = (x & 0xff) as u8;
    let b1 = ((x >> 8) & 0xff) as u8;
    assert((b0 as u16) | (b1 as u16) << 8 == x) by (bit_vector)
        requires
            b0 == (x & 0xff) as u8,
            b1 == ((x >> 8) & 0xff) as u8,
    ;
}

/// Reading back four little-endian bytes gives the value that was written.
pub proof fn lemma_le32_roundtrip(x: u32)
    ensures
        le32(x).len() == 4,
        from_le32(le32(x)) == x,
{
    let b0 = (x & 0xff) as u8;
    let b1 = ((x >> 8) & 0xff) as u8;
    let b2 = ((x >> 16) & 0xff) as u8;
    let b3 = ((x >> 24) & 0xff) as u8;
    assert((b0 as u32) | (b1 as u32) << 8 | (b2 as u32) << 16 | (b3 as u32) << 24 == x) by (bit_vector)
        requires
            b0 == (x & 0xff) as u8,
            b1 == ((x >> 8) & 0xff) as u8,
            b2 == ((x >> 16) & 0xff) as u8,
            b3 == ((x >> 24) & 0xff) as u8,
    ;
}

/// Appends the little-endian bytes of `x`.
pub fn push_le16(buf: &mut Vec<u8>, x: u16)
    ensures
        final(buf)@ == old(buf)@ + le16(x),
{
    buf.push((x & 0xff) as u8);
    buf.push(((x >> 8) & 0xff) as u8);
}

/// Appends the little-endian bytes of `x`.
pub fn push_le32(buf: &mut Vec<u8>, x: u32)
    ensures
        final(buf)@ == old(buf)@ + le32(x),
{
    buf.push((x & 0xff) as u8);
    buf.push(((x >> 8) & 0xff) as u8);
    buf.push(((x >> 16) & 0xff) as u8);
    buf.push(((x >> 24) & 0xff) as u8);
}

} // verus!
