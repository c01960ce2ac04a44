//! Little-endian encoding of the fixed-width integers used by the table
//! format, together with the spec-level byte images that the contracts of
//! the whole crate are stated over.

use vstd::prelude::*;

verus! {

/// The two little-endian bytes of a `u16`.
pub open spec fn u16_le(x: u16) -> Seq<u8> {
    seq![(x & 0xff) as u8, ((x >> 8) & 0xff) as u8]
}

/// The four little-endian bytes of a `u32`.
pub open spec fn u32_le(x: u32) -> Seq<u8> {
    seq![
        (x & 0xff) as u8,
        ((x >> 8) & 0xff) as u8,
        ((x >> 16) & 0xff) as u8,
        ((x >> 24) & 0xff) as u8,
    ]
}

/// The eight little-endian bytes of a `u64`.
pub open spec fn u64_le(x: u64) -> Seq<u8> {
    seq![
        (x & 0xff) as u8,
        ((x >> 8) & 0xff) as u8,
        ((x >> 16) & 0xff) as u8,
        ((x >> 24) & 0xff) as u8,
        ((x >> 32) & 0xff) as u8,
        ((x >> 40) & 0xff) as u8,
        ((x >> 48) & 0xff) as u8,
        ((x >> 56) & 0xff) as u8,
    ]
}

/// Appends the two little-endian bytes of `x` to `buf`.
pub fn put_u16_le(buf: &mut Vec<u8>, x: u16)
    ensures
        final(buf)@ == old(buf)@ + u16_le(x),
{
    buf.push((x & 0xff) as u8);
    buf.push(((x >> 8) & 0xff) as u8);
    proof {
        assert(buf@ =~= old(buf)@ + u16_le(x));
    }
}

/// Appends the four little-endian bytes of `x` to `buf`.
pub fn put_u32_le(buf: &mut Vec<u8>, x: u32)
    ensures
        final(buf)@ == old(buf)@ + u32_le(x),
{
    buf.push((x & 0xff) as u8);
    buf.push(((x >> 8) & 0xff) as u8);
    buf.push(((x >> 16) & 0xff) as u8);
    buf.push(((x >> 24) & 0xff) as u8);
    proof {
        assert(buf@ =~= old(buf)@ + u32_le(x));
    }
}

/// Appends the eight little-endian bytes of `x` to `buf`.
pub fn put_u64_le(buf: &mut Vec<u8>, x: u64)
    ensures
        final(buf)@ == old(buf)@ + u64_le(x),
{
    buf.push((x & 0xff) as u8);
    buf.push(((x >> 8) & 0xff) as u8);
    buf.push(((x >> 16) & 0xff) as u8);
    buf.push(((x >> 24) & 0xff) as u8);
    buf.push(((x >> 32) & 0xff) as u8);
    buf.push(((x >> 40) & 0xff) as u8);
    buf.push(((x >> 48) & 0xff) as u8);
    buf.push(((x >> 56) & 0xff) as u8);
    proof {
        assert(buf@ =~= old(buf)@ + u64_le(x));
    }
}

/// Overwrites the four bytes of `buf` at `off` with the little-endian
/// image of `x`, leaving everything else in place.
pub fn set_u32_le(buf: &mut Vec<u8>, off: usize, x: u32)
    requires
        off + 4 <= old(buf)@.len(),
    ensures
        final(buf)@.len() == old(buf)@.len(),
        final(buf)@ == old(buf)@.subrange(0, off as int) + u32_le(x)
            + old(buf)@.subrange(off + 4, old(buf)@.len() as int),
{
    let n = buf.len();
    proof {
        assert(off + 4 <= n);
    }
    buf.set(off, (x & 0xff) as u8);
    buf.set(off + 1, ((x >> 8) & 0xff) as u8);
    buf.set(off + 2, ((x >> 16) & 0xff) as u8);
    buf.set(off + 3, ((x >> 24) & 0xff) as u8);
    proof {
        assert(buf@ =~= old(buf)@.subrange(0, off as int) + u32_le(x)
            + old(buf)@.subrange(off + 4, old(buf)@.len() as int));
    }
}

/// Reads the `u16` whose little-endian image stands at `off` in `data`.
pub fn get_u16_le(data: &[u8], off: usize) -> (r: u16)
    requires
        off + 2 <= data@.len(),
    ensures
        u16_le(r) == data@.subrange(off as int, off + 2),
{
    let b0 = data[off];
    let b1 = data[off + 1];
    let r: u16 = (b0 as u16) | ((b1 as u16) << 8);
    proof {
        assert((r & 0xff) as u8 == b0 && ((r >> 8) & 0xff) as u8 == b1) by (bit_vector)
            requires r == (b0 as u16) | ((b1 as u16) << 8);
        assert(u16_le(r) =~= data@.subrange(off as int, off + 2));
    }
    r
}

/// Reads the `u64` whose little-endian image stands at `off` in `data`.
pub fn get_u64_le(data: &[u8], off: usize) -> (r: u64)
    requires
        off + 8 <= data@.len(),
    ensures
        u64_le(r) == data@.subrange(off as int, off + 8),
{
    let b0 = data[off];
    let b1 = data[off + 1];
    let b2 = data[off + 2];
    let b3 = data[off + 3];
    let b4 = data[off + 4];
    let b5 = data[off + 5];
    let b6 = data[off + 6];
    let b7 = data[off + 7];
    let r: u64 = (b0 as u64) | ((b1 as u64) << 8) | ((b2 as u64) << 16) | ((b3 as u64) << 24)
        | ((b4 as u64) << 32) | ((b5 as u64) << 40) | ((b6 as u64) << 48) | ((b7 as u64) << 56);
    proof {
        assert((r & 0xff) as u8 == b0 && ((r >> 8) & 0xff) as u8 == b1
            && ((r >> 16) & 0xff) as u8 == b2 && ((r >> 24) & 0xff) as u8 == b3
            && ((r >> 32) & 0xff) as u8 == b4 && ((r >> 40) & 0xff) as u8 == b5
            && ((r >> 48) & 0xff) as u8 == b6 && ((r >> 56) & 0xff) as u8 == b7) by (bit_vector)
            requires r == (b0 as u64) | ((b1 as u64) << 8) | ((b2 as u64) << 16)
                | ((b3 as u64) << 24) | ((b4 as u64) << 32) | ((b5 as u64) << 40)
                | ((b6 as u64) << 48) | ((b7 as u64) << 56);
        assert(u64_le(r) =~= data@.subrange(off as int, off + 8));
    }
    r
}

/// Reads the `u32` whose little-endian image stands at `off` in `data`.
pub fn get_u32_le(data: &[u8], off: usize) -> (r: u32)
    requires
        off + 4 <= data@.len(),
    ensures
        u32_le(r) == data@.subrange(off as int, off + 4),
{
    let b0 = data[off];
    let b1 = data[off + 1];
    let b2 = data[off + 2];
    let b3 = data[off + 3];
    let r: u32 = (b0 as u32) | ((b1 as u32) << 8) | ((b2 as u32) << 16) | ((b3 as u32) << 24);
    proof {
        assert((r & 0xff) as u8 == b0 && ((r >> 8) & 0xff) as u8 == b1
            && ((r >> 16) & 0xff) as u8 == b2 && ((r >> 24) & 0xff) as u8 == b3) by (bit_vector)
            requires r == (b0 as u32) | ((b1 as u32) << 8) | ((b2 as u32) << 16)
                | ((b3 as u32) << 24);
        assert(u32_le(r) =~= data@.subrange(off as int, off + 4));
    }
    r
}

} // verus!
