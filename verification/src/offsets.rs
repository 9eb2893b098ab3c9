//! Little-endian offsets: the fixed-width pointers from a fixed region into
//! a variable region.
//!
//! Every offset on the wire is `BYTES_PER_LENGTH_OFFSET` bytes wide,
//! little-endian. This module gives the one spec-level reading of such an
//! offset and the executable functions that read and write it.
use vstd::bytes::lemma_auto_spec_u32_to_from_le_bytes;
use vstd::bytes::spec_u32_from_le_bytes;
use vstd::bytes::spec_u32_to_le_bytes;
use vstd::bytes::u32_from_le_bytes;
use vstd::bytes::u32_to_le_bytes;
use vstd::prelude::*;
use vstd::slice::slice_subrange;

verus! {

/// Byte width of every offset in an encoding.
pub const BYTES_PER_LENGTH_OFFSET: usize = 4;

/// The bytes that an offset of value `v` occupies on the wire.
pub open spec fn spec_offset_bytes(v: usize) -> Seq<u8>
    recommends
        v <= u32::MAX,
{
    spec_u32_to_le_bytes(v as u32)
}

/// The value of the `i`th offset of the offset table at the front of `b`.
pub open spec fn spec_offset_at(b: Seq<u8>, i: int) -> usize
    recommends
        0 <= i,
        4 * i + 4 <= b.len(),
{
    spec_u32_from_le_bytes(b.subrange(4 * i, 4 * i + 4)) as usize
}

/// Writing an offset and reading it back yields the same value, and the
/// written bytes are exactly 4.
pub proof fn lemma_offset_bytes_roundtrip(v: usize)
    requires
        v <= u32::MAX,
    ensures
        spec_offset_bytes(v).len() == 4,
        spec_u32_from_le_bytes(spec_offset_bytes(v)) == v,
{
    lemma_auto_spec_u32_to_from_le_bytes();
    assert(spec_u32_to_le_bytes(v as u32).len() == 4);
    assert(spec_u32_from_le_bytes(spec_u32_to_le_bytes(v as u32)) == v as u32);
}

/// Writing back the offset read from a table slot reproduces that slot's
/// bytes.
pub proof fn lemma_offset_at_bytes(b: Seq<u8>, i: int)
    requires
        0 <= i,
        4 * i + 4 <= b.len(),
    ensures
        spec_offset_bytes(spec_offset_at(b, i)) == b.subrange(4 * i, 4 * i + 4),
{
    lemma_auto_spec_u32_to_from_le_bytes();
    let s = b.subrange(4 * i, 4 * i + 4);
    assert(s.len() == 4);
    assert(spec_u32_to_le_bytes(spec_u32_from_le_bytes(s)) == s);
}

/// Reads the `i`th entry of the offset table at the front of `b`.
pub fn read_offset_at(b: &[u8], i: usize) -> (v: usize)
    requires
        4 * i + 4 <= b@.len(),
    ensures
        v == spec_offset_at(b@, i as int),
        v <= u32::MAX,
{
    proof {
        // the slice's length is a usize, so `4 * i + 4` cannot overflow
        assert(b.len() == b@.len());
    }
    let chunk = slice_subrange(b, 4 * i, 4 * i + 4);
    u32_from_le_bytes(chunk) as usize
}

/// The value of the offset stored at byte position `pos` of `b`.
pub open spec fn spec_offset_at_pos(b: Seq<u8>, pos: int) -> usize
    recommends
        0 <= pos,
        pos + 4 <= b.len(),
{
    spec_u32_from_le_bytes(b.subrange(pos, pos + 4)) as usize
}

/// Writing back the offset read at a byte position reproduces the bytes
/// there.
pub proof fn lemma_offset_at_pos_bytes(b: Seq<u8>, pos: int)
    requires
        0 <= pos,
        pos + 4 <= b.len(),
    ensures
        spec_offset_bytes(spec_offset_at_pos(b, pos)) == b.subrange(pos, pos + 4),
{
    lemma_auto_spec_u32_to_from_le_bytes();
    let s = b.subrange(pos, pos + 4);
    assert(s.len() == 4);
    assert(spec_u32_to_le_bytes(spec_u32_from_le_bytes(s)) == s);
}

/// Reads the offset stored at byte position `pos` of `b`.
pub fn read_offset_at_pos(b: &[u8], pos: usize) -> (v: usize)
    requires
        pos + 4 <= b@.len(),
    ensures
        v == spec_offset_at_pos(b@, pos as int),
        v <= u32::MAX,
{
    proof {
        // the slice's length is a usize, so `pos + 4` cannot overflow
        assert(b.len() == b@.len());
    }
    let chunk = slice_subrange(b, pos, pos + 4);
    u32_from_le_bytes(chunk) as usize
}

/// Appends the 4-byte little-endian form of `v` to `buf`.
pub fn write_offset(buf: &mut Vec<u8>, v: usize)
    requires
        v <= u32::MAX,
    ensures
        final(buf)@ == old(buf)@ + spec_offset_bytes(v),
{
    let mut bytes = u32_to_le_bytes(v as u32);
    buf.append(&mut bytes);
}

} // verus!
