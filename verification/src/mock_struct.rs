//! A small concrete record run through the container codec: a fixed
//! 2-byte field, a variable byte-string field, and another fixed 2-byte
//! field.
//!
//! Its encoding is the container layout at its smallest interesting
//! instance: a 8-byte fixed region — `a`, the offset of `b`'s payload,
//! `c` — followed by `b`'s bytes as the whole variable region.
use crate::classify::spec_fixed_region_len;
use crate::classify::Classification;
use crate::container::decode_container;
use crate::container::encode_container;
use crate::container::spec_container_decode;
use crate::container::spec_container_encoding;
use crate::container::spec_field_pos;
use crate::container::spec_fixed_region_upto;
use crate::container::spec_var_count_upto;
use crate::container::spec_var_len_upto;
use crate::container::spec_var_offs_upto;
use crate::container::spec_var_region_upto;
use crate::container::spec_voff_fault;
use crate::container::spec_voffs_first_fault;
use crate::errors::DecodeError;
use crate::offsets::lemma_offset_bytes_roundtrip;
use crate::offsets::spec_offset_bytes;
use vstd::bytes::lemma_auto_spec_u16_to_from_le_bytes;
use vstd::bytes::spec_u16_from_le_bytes;
use vstd::bytes::spec_u16_to_le_bytes;
use vstd::bytes::u16_from_le_bytes;
use vstd::bytes::u16_to_le_bytes;
use vstd::prelude::*;
use vstd::slice::slice_to_vec;

verus! {

/// A record with two fixed-size fields around one variable-size field.
#[derive(Debug, Clone, PartialEq)]
pub struct Foo {
    pub a: u16,
    pub b: Vec<u8>,
    pub c: u16,
}

/// The schema of [`Foo`], in declared field order.
pub open spec fn spec_foo_schema() -> Seq<Classification> {
    seq![Classification::Fixed(2), Classification::Variable, Classification::Fixed(2)]
}

/// What decoding a [`Foo`] from bytes yields: its three field values, or
/// the first fault the container decoder finds.
pub open spec fn spec_foo_decode(b: Seq<u8>) -> Result<(u16, Seq<u8>, u16), DecodeError> {
    match spec_container_decode(spec_foo_schema(), b) {
        Ok(fs) => Ok(
            (spec_u16_from_le_bytes(fs[0]), fs[1], spec_u16_from_le_bytes(fs[2])),
        ),
        Err(e) => Err(e),
    }
}

/// The schema of [`Foo`] as a runtime value.
fn foo_schema() -> (s: Vec<Classification>)
    ensures
        s@ == spec_foo_schema(),
{
    let mut s: Vec<Classification> = Vec::new();
    s.push(Classification::Fixed(2));
    s.push(Classification::Variable);
    s.push(Classification::Fixed(2));
    proof {
        assert(s@ =~= spec_foo_schema());
    }
    s
}

/// The fixed region of a [`Foo`] is always 8 bytes: two 2-byte fields and
/// one 4-byte offset.
pub proof fn lemma_foo_fixed_region_len()
    ensures
        spec_fixed_region_len(spec_foo_schema()) == 8,
{
    let s = spec_foo_schema();
    assert(s.drop_first() =~= seq![Classification::Variable, Classification::Fixed(2usize)]);
    assert(s.drop_first().drop_first() =~= seq![Classification::Fixed(2usize)]);
    assert(s.drop_first().drop_first().drop_first() =~= Seq::<Classification>::empty());
    assert(spec_fixed_region_len(s.drop_first().drop_first().drop_first()) == 0);
    assert(spec_fixed_region_len(s.drop_first().drop_first()) == 2);
    assert(spec_fixed_region_len(s.drop_first()) == 6);
}

impl Foo {
    /// The bytes this record encodes to: `a`, the offset of `b`'s payload
    /// (always 8, the fixed region's length), `c`, then `b`'s bytes.
    pub open spec fn spec_encoding(self) -> Seq<u8> {
        spec_u16_to_le_bytes(self.a) + spec_offset_bytes(8) + spec_u16_to_le_bytes(self.c)
            + self.b@
    }

    /// A record of this type never has one fixed encoded length: its `b`
    /// field is variable-size.
    pub fn is_ssz_fixed_len() -> (r: bool)
        ensures
            !r,
    {
        false
    }

    /// Exact byte length of this record's encoding.
    pub fn ssz_bytes_len(&self) -> (n: usize)
        requires
            8 + self.b@.len() <= usize::MAX,
        ensures
            n == 8 + self.b@.len(),
    {
        2 + crate::offsets::BYTES_PER_LENGTH_OFFSET + 2 + self.b.len()
    }

    /// Appends this record's encoding to `buf` through the container
    /// engine: fixed fields and `b`'s offset first, `b`'s payload after.
    pub fn ssz_append(&self, buf: &mut Vec<u8>)
        requires
            8 + self.b@.len() <= u32::MAX,
        ensures
            final(buf)@ == old(buf)@ + self.spec_encoding(),
    {
        let schema = foo_schema();
        let mut fields: Vec<Vec<u8>> = Vec::new();
        fields.push(u16_to_le_bytes(self.a));
        fields.push(slice_to_vec(self.b.as_slice()));
        fields.push(u16_to_le_bytes(self.c));
        proof {
            lemma_foo_fixed_region_len();
            lemma_auto_spec_u16_to_from_le_bytes();
            let s = spec_foo_schema();
            let vf = fields.deep_view();
            assert(vf.len() == 3);
            assert(vf[0] =~= spec_u16_to_le_bytes(self.a));
            assert(vf[1] =~= self.b@);
            assert(vf[2] =~= spec_u16_to_le_bytes(self.c));
            assert(spec_var_len_upto(s, vf, 0) == 0);
            assert(spec_var_len_upto(s, vf, 1) == 0);
            assert(spec_var_len_upto(s, vf, 2) == self.b@.len());
            assert(spec_var_len_upto(s, vf, 3) == self.b@.len());
        }
        let mut out = encode_container(&schema, &fields);
        proof {
            let s = spec_foo_schema();
            let vf = fields.deep_view();
            assert(spec_fixed_region_upto(s, vf, 8, 0) =~= Seq::<u8>::empty());
            assert(spec_fixed_region_upto(s, vf, 8, 1) =~= spec_u16_to_le_bytes(self.a));
            assert(spec_fixed_region_upto(s, vf, 8, 2) =~= spec_u16_to_le_bytes(self.a)
                + spec_offset_bytes(8));
            assert(spec_fixed_region_upto(s, vf, 8, 3) =~= spec_u16_to_le_bytes(self.a)
                + spec_offset_bytes(8) + spec_u16_to_le_bytes(self.c));
            assert(spec_var_region_upto(s, vf, 0) =~= Seq::<u8>::empty());
            assert(spec_var_region_upto(s, vf, 1) =~= Seq::<u8>::empty());
            assert(spec_var_region_upto(s, vf, 2) =~= self.b@);
            assert(spec_var_region_upto(s, vf, 3) =~= self.b@);
            assert(spec_container_encoding(s, vf) =~= self.spec_encoding());
        }
        buf.append(&mut out);
    }

    /// Decodes a record from untrusted bytes through the container engine,
    /// yielding exactly what [`spec_foo_decode`] states for this input.
    pub fn from_ssz_bytes(bytes: &[u8]) -> (r: Result<Foo, DecodeError>)
        ensures
            match r {
                Ok(foo) => spec_foo_decode(bytes@) == Ok::<(u16, Seq<u8>, u16), DecodeError>(
                    (foo.a, foo.b@, foo.c),
                ),
                Err(e) => spec_foo_decode(bytes@) == Err::<(u16, Seq<u8>, u16), DecodeError>(e),
            },
    {
        let schema = foo_schema();
        proof {
            lemma_foo_fixed_region_len();
        }
        match decode_container(&schema, bytes) {
            Err(e) => Err(e),
            Ok(fields) => {
                proof {
                    assert(fields.deep_view().len() == 3);
                    assert(fields@.len() == 3);
                    assert(fields.deep_view()[0] =~= fields@[0]@);
                    assert(fields.deep_view()[2] =~= fields@[2]@);
                    assert(fields.deep_view()[1] =~= fields@[1]@);
                    lemma_foo_field_lens(bytes@);
                }
                let a = u16_from_le_bytes(fields[0].as_slice());
                let c = u16_from_le_bytes(fields[2].as_slice());
                let b_field = slice_to_vec(fields[1].as_slice());
                Ok(Foo { a, b: b_field, c })
            },
        }
    }
}

/// When container decoding of a [`Foo`] succeeds, its two fixed fields are
/// 2 bytes each.
proof fn lemma_foo_field_lens(b: Seq<u8>)
    requires
        spec_container_decode(spec_foo_schema(), b) is Ok,
    ensures
        spec_container_decode(spec_foo_schema(), b)->Ok_0.len() == 3,
        spec_container_decode(spec_foo_schema(), b)->Ok_0[0].len() == 2,
        spec_container_decode(spec_foo_schema(), b)->Ok_0[2].len() == 2,
{
    let s = spec_foo_schema();
    lemma_foo_fixed_region_len();
    assert(b.len() >= 8);
    assert(s.subrange(0, 0) =~= Seq::<Classification>::empty());
    assert(spec_field_pos(s, 0) == 0);
    assert(s.subrange(0, 2) =~= seq![Classification::Fixed(2usize), Classification::Variable]);
    assert(s.subrange(0, 2).drop_first() =~= seq![Classification::Variable]);
    assert(s.subrange(0, 2).drop_first().drop_first() =~= Seq::<Classification>::empty());
    assert(spec_fixed_region_len(s.subrange(0, 2).drop_first().drop_first()) == 0);
    assert(spec_fixed_region_len(s.subrange(0, 2).drop_first()) == 4);
    assert(spec_field_pos(s, 2) == 6);
}

/// Round trip: decoding the encoding of any record of this type yields
/// the same three field values.
pub proof fn lemma_foo_roundtrip(foo: Foo)
    requires
        8 + foo.b@.len() <= u32::MAX,
    ensures
        spec_foo_decode(foo.spec_encoding()) == Ok::<(u16, Seq<u8>, u16), DecodeError>(
            (foo.a, foo.b@, foo.c),
        ),
{
    let s = spec_foo_schema();
    let b = foo.spec_encoding();
    lemma_foo_fixed_region_len();
    lemma_auto_spec_u16_to_from_le_bytes();
    lemma_offset_bytes_roundtrip(8);
    assert(b.len() == 8 + foo.b@.len());
    // the one stored offset is read at position 2 and holds 8
    assert(s.subrange(0, 1) =~= seq![Classification::Fixed(2usize)]);
    assert(s.subrange(0, 1).drop_first() =~= Seq::<Classification>::empty());
    assert(spec_fixed_region_len(s.subrange(0, 1).drop_first()) == 0);
    assert(spec_field_pos(s, 1) == 2);
    let full = spec_var_offs_upto(s, b, 3);
    assert(spec_var_offs_upto(s, b, 0) =~= Seq::<usize>::empty());
    assert(spec_var_offs_upto(s, b, 1) =~= Seq::<usize>::empty());
    assert(spec_var_offs_upto(s, b, 2) =~= seq![crate::offsets::spec_offset_at_pos(b, 2)]);
    assert(full =~= seq![crate::offsets::spec_offset_at_pos(b, 2)]);
    assert(b.subrange(2, 6) =~= spec_offset_bytes(8));
    assert(crate::offsets::spec_offset_at_pos(b, 2) == 8) by {
        vstd::bytes::lemma_auto_spec_u32_to_from_le_bytes();
    }
    assert(spec_voff_fault(full, 8, b.len() as int, 0) is None);
    assert(spec_voffs_first_fault(full, 8, b.len() as int, 1) is None);
    assert(spec_voffs_first_fault(full, 8, b.len() as int, 0) is None);
    // field contents
    assert(s.subrange(0, 0) =~= Seq::<Classification>::empty());
    assert(spec_field_pos(s, 0) == 0);
    assert(s.subrange(0, 2) =~= seq![Classification::Fixed(2usize), Classification::Variable]);
    assert(s.subrange(0, 2).drop_first() =~= seq![Classification::Variable]);
    assert(s.subrange(0, 2).drop_first().drop_first() =~= Seq::<Classification>::empty());
    assert(spec_fixed_region_len(s.subrange(0, 2).drop_first().drop_first()) == 0);
    assert(spec_fixed_region_len(s.subrange(0, 2).drop_first()) == 4);
    assert(spec_field_pos(s, 2) == 6);
    assert(spec_var_count_upto(s, 0) == 0);
    assert(spec_var_count_upto(s, 1) == 0);
    assert(b.subrange(0, 2) =~= spec_u16_to_le_bytes(foo.a));
    assert(b.subrange(6, 8) =~= spec_u16_to_le_bytes(foo.c));
    assert(b.subrange(8, b.len() as int) =~= foo.b@);
    match spec_container_decode(s, b) {
        Ok(fs) => {
            assert(fs[0] == b.subrange(0, 2));
            assert(fs[1] == b.subrange(8, b.len() as int));
            assert(fs[2] == b.subrange(6, 8));
        },
        Err(_) => {
            assert(false);
        },
    }
}

/// Inverse round trip: whenever decoding a record of this type succeeds
/// on some input, the encoding of the decoded field values reproduces that
/// input byte for byte.
pub proof fn lemma_foo_decode_encode(b: Seq<u8>)
    requires
        spec_foo_decode(b) is Ok,
    ensures
        ({
            let m = spec_foo_decode(b)->Ok_0;
            spec_u16_to_le_bytes(m.0) + spec_offset_bytes(8) + spec_u16_to_le_bytes(m.2) + m.1 == b
        }),
{
    let s = spec_foo_schema();
    let m = spec_foo_decode(b)->Ok_0;
    let fs = spec_container_decode(s, b)->Ok_0;
    lemma_foo_field_lens(b);
    crate::container::lemma_container_decode_encode(s, b);
    lemma_foo_fixed_region_len();
    lemma_auto_spec_u16_to_from_le_bytes();
    assert(spec_var_len_upto(s, fs, 0) == 0);
    assert(spec_var_len_upto(s, fs, 1) == 0);
    assert(crate::container::spec_fixed_region_upto(s, fs, 8, 0) =~= Seq::<u8>::empty());
    assert(crate::container::spec_fixed_region_upto(s, fs, 8, 1) =~= fs[0]);
    assert(crate::container::spec_fixed_region_upto(s, fs, 8, 2) =~= fs[0] + spec_offset_bytes(8));
    assert(crate::container::spec_fixed_region_upto(s, fs, 8, 3) =~= fs[0] + spec_offset_bytes(8)
        + fs[2]);
    assert(spec_var_region_upto(s, fs, 0) =~= Seq::<u8>::empty());
    assert(spec_var_region_upto(s, fs, 1) =~= Seq::<u8>::empty());
    assert(spec_var_region_upto(s, fs, 2) =~= fs[1]);
    assert(spec_var_region_upto(s, fs, 3) =~= fs[1]);
    assert(spec_u16_to_le_bytes(spec_u16_from_le_bytes(fs[0])) == fs[0]);
    assert(spec_u16_to_le_bytes(spec_u16_from_le_bytes(fs[2])) == fs[2]);
    assert(spec_u16_to_le_bytes(m.0) + spec_offset_bytes(8) + spec_u16_to_le_bytes(m.2) + m.1
        =~= spec_container_encoding(s, fs));
}

} // verus!
