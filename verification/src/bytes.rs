//! Big-endian encoding and decoding of the fixed-width integers used
//! by the on-disk record layout.

use vstd::prelude::*;

verus! {

/// The two big-endian bytes of a `u16`.
pub open spec fn be16_of(x: u16) -> Seq<u8> {
    seq![(x >> 8) as u8, x as u8]
}

/// The four big-endian bytes of a `u32`.
pub open spec fn be32_of(x: u32) -> Seq<u8> {
    seq![(x >> 24) as u8, (x >> 16) as u8, (x >> 8) as u8, x as u8]
}

/// The `u16` read from two big-endian bytes.
pub open spec fn be16_val(s: Seq<u8>) -> u16
    recommends
        s.len() == 2,
{
    (((s[0] as u16) << 8) | (s[1] as u16)) as u16
}

/// The `u32` read from four big-endian bytes.
pub open spec fn be32_val(s: Seq<u8>) -> u32
    recommends
        s.len() == 4,
{
    (((s[0] as u32) << 24) | ((s[1] as u32) << 16) | ((s[2] as u32) << 8) | (s[3] as u32)) as u32
}

/// Decoding the two big-endian bytes of a `u16` gives the value back.
pub proof fn lemma_be16_roundtrip(x: u16)
    ensures
        be16_val(be16_of(x)) == x,
{
    let a = (x >> 8) as u8;
    let b = x as u8;
    assert((((a as u16) << 8) | (b as u16)) == x) by (bit_vector)
        requires
            a == (x >> 8) as u8,
            b == x as u8,
    ;
}

/// Decoding the four big-endian bytes of a `u32` gives the value back.
pub proof fn lemma_be32_roundtrip(x: u32)
    ensures
        be32_val(be32_of(x)) == x,
{
    let a = (x >> 24) as u8;
    let b = (x >> 16) as u8;
    let c = (x >> 8) as u8;
    let d = x as u8;
    assert((((a as u32) << 24) | ((b as u32) << 16) | ((c as u32) << 8) | (d as u32)) == x)
        by (bit_vector)
        requires
            a == (x >> 24) as u8,
            b == (x >> 16) as u8,
            c == (x >> 8) as u8,
            d == x as u8,
    ;
}

/// Appends the two big-endian bytes of `x` to `buf`.
pub fn push_u16_be(buf: &mut Vec<u8>, x: u16)
    ensures
        final(buf)@ == old(buf)@ + be16_of(x),
{
    buf.push((x >> 8) as u8);
    buf.push(x as u8);
    assert(buf@ =~= old(buf)@ + be16_of(x));
}

/// Appends the four big-endian bytes of `x` to `buf`.
pub fn push_u32_be(buf: &mut Vec<u8>, x: u32)
    ensures
        final(buf)@ == old(buf)@ + be32_of(x),
{
    buf.push((x >> 24) as u8);
    buf.push((x >> 16) as u8);
    buf.push((x >> 8) as u8);
    buf.push(x as u8);
    assert(buf@ =~= old(buf)@ + be32_of(x));
}

/// Reads a big-endian `u16` from `buf` at `pos`.
pub fn read_u16_be(buf: &[u8], pos: usize) -> (r: u16)
    requires
        pos + 2 <= buf@.len(),
    ensures
        r == be16_val(buf@.subrange(pos as int, pos + 2)),
{
    let b0 = buf[pos];
    let b1 = buf[pos + 1];
    let r: u16 = ((b0 as u16) << 8) | (b1 as u16);
    proof {
        let s = buf@.subrange(pos as int, pos + 2);
        assert(s[0] == b0 && s[1] == b1);
    }
    r
}

/// Reads a big-endian `u32` from `buf` at `pos`.
pub fn read_u32_be(buf: &[u8], pos: usize) -> (r: u32)
    requires
        pos + 4 <= buf@.len(),
    ensures
        r == be32_val(buf@.subrange(pos as int, pos + 4)),
{
    let b0 = buf[pos];
    let b1 = buf[pos + 1];
    let b2 = buf[pos + 2];
    let b3 = buf[pos + 3];
    let r: u32 = ((b0 as u32) << 24) | ((b1 as u32) << 16) | ((b2 as u32) << 8) | (b3 as u32);
    proof {
        let s = buf@.subrange(pos as int, pos + 4);
        assert(s[0] == b0 && s[1] == b1 && s[2] == b2 && s[3] == b3);
    }
    r
}

} // verus!
