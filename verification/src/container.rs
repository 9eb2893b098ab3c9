//! The container codec: encoding and decoding of heterogeneous records.
//!
//! A container's fields are processed in declared order. Its encoding is a
//! fixed region — fixed-size fields verbatim, a wire offset for each
//! variable-size field — followed by a variable region holding the
//! variable payloads back to back, in the same order as their offsets.
//! Offsets are absolute: they count from the start of the whole encoding,
//! so the first one always equals the fixed region's length.
//!
//! The engine is type-erased: a schema is the sequence of field
//! classifications, and fields travel as their encoded bytes. Typed
//! records put their own codecs on top of it.
use crate::byteseq::append_bytes;
use crate::classify::lemma_fixed_region_len_nonneg;
use crate::classify::lemma_fixed_region_len_push;
use crate::classify::lemma_fixed_region_prefix_bound;
use crate::classify::spec_fixed_region_len;
use crate::classify::Classification;
use crate::errors::DecodeError;
use crate::offsets::read_offset_at_pos;
use crate::offsets::spec_offset_at_pos;
use crate::offsets::spec_offset_bytes;
use crate::offsets::write_offset;
use crate::offsets::BYTES_PER_LENGTH_OFFSET;
use vstd::bytes::spec_u32_from_le_bytes;
use vstd::prelude::*;
use vstd::slice::slice_subrange;
use vstd::slice::slice_to_vec;

verus! {

/// Total byte length of the variable payloads among the first `i` fields.
pub open spec fn spec_var_len_upto(
    schema: Seq<Classification>,
    fields: Seq<Seq<u8>>,
    i: int,
) -> int
    decreases i,
{
    if i <= 0 {
        0
    } else {
        spec_var_len_upto(schema, fields, i - 1) + if schema[i - 1] is Variable {
            fields[i - 1].len() as int
        } else {
            0
        }
    }
}

/// The fixed region of the first `i` fields: fixed fields verbatim, and for
/// each variable field a wire offset equal to `base` plus the length of the
/// variable payloads before it.
pub open spec fn spec_fixed_region_upto(
    schema: Seq<Classification>,
    fields: Seq<Seq<u8>>,
    base: int,
    i: int,
) -> Seq<u8>
    decreases i,
{
    if i <= 0 {
        Seq::empty()
    } else {
        spec_fixed_region_upto(schema, fields, base, i - 1) + match schema[i - 1] {
            Classification::Fixed(_) => fields[i - 1],
            Classification::Variable => spec_offset_bytes(
                (base + spec_var_len_upto(schema, fields, i - 1)) as usize,
            ),
        }
    }
}

/// The variable region of the first `i` fields: their variable payloads
/// back to back.
pub open spec fn spec_var_region_upto(
    schema: Seq<Classification>,
    fields: Seq<Seq<u8>>,
    i: int,
) -> Seq<u8>
    decreases i,
{
    if i <= 0 {
        Seq::empty()
    } else {
        spec_var_region_upto(schema, fields, i - 1) + if schema[i - 1] is Variable {
            fields[i - 1]
        } else {
            Seq::empty()
        }
    }
}

/// The full encoding of a container: fixed region, then variable region.
/// Offsets count from the start of the encoding, so their base is the
/// fixed region's length.
pub open spec fn spec_container_encoding(
    schema: Seq<Classification>,
    fields: Seq<Seq<u8>>,
) -> Seq<u8> {
    spec_fixed_region_upto(schema, fields, spec_fixed_region_len(schema), schema.len() as int)
        + spec_var_region_upto(schema, fields, schema.len() as int)
}

/// Variable-payload lengths are never negative.
pub proof fn lemma_var_len_upto_nonneg(schema: Seq<Classification>, fields: Seq<Seq<u8>>, i: int)
    ensures
        spec_var_len_upto(schema, fields, i) >= 0,
    decreases i,
{
    if i > 0 {
        lemma_var_len_upto_nonneg(schema, fields, i - 1);
    }
}

/// Variable-payload lengths accumulate and never decrease.
pub proof fn lemma_var_len_upto_monotonic(
    schema: Seq<Classification>,
    fields: Seq<Seq<u8>>,
    i: int,
    j: int,
)
    requires
        i <= j,
    ensures
        spec_var_len_upto(schema, fields, i) <= spec_var_len_upto(schema, fields, j),
    decreases j - i,
{
    if i < j {
        lemma_var_len_upto_monotonic(schema, fields, i, j - 1);
    }
}

/// True when every fixed-size field's encoding has exactly its stated
/// width.
pub open spec fn spec_fields_sized(schema: Seq<Classification>, fields: Seq<Seq<u8>>) -> bool {
    forall|i: int|
        0 <= i < schema.len() ==> ((#[trigger] schema[i]) matches Classification::Fixed(n)
            ==> fields[i].len() == n)
}

/// The fixed region of the first `i` fields is exactly as long as their
/// fixed widths say.
pub proof fn lemma_fixed_region_upto_len(
    schema: Seq<Classification>,
    fields: Seq<Seq<u8>>,
    base: int,
    i: int,
)
    requires
        0 <= i <= schema.len(),
        schema.len() == fields.len(),
        spec_fields_sized(schema, fields),
    ensures
        spec_fixed_region_upto(schema, fields, base, i).len() == spec_fixed_region_len(
            schema.subrange(0, i),
        ),
    decreases i,
{
    if i == 0 {
        assert(spec_fixed_region_len(schema.subrange(0, 0)) == 0);
    } else {
        lemma_fixed_region_upto_len(schema, fields, base, i - 1);
        lemma_fixed_region_len_push(schema.subrange(0, i - 1), schema[i - 1]);
        assert(schema.subrange(0, i) =~= schema.subrange(0, i - 1).push(schema[i - 1]));
        if schema[i - 1] is Variable {
            assert(spec_offset_bytes(
                (base + spec_var_len_upto(schema, fields, i - 1)) as usize,
            ).len() == 4) by {
                vstd::bytes::lemma_auto_spec_u32_to_from_le_bytes();
            }
        }
    }
}

/// The variable region of the first `i` fields is exactly as long as their
/// payload lengths say.
pub proof fn lemma_var_region_upto_len(schema: Seq<Classification>, fields: Seq<Seq<u8>>, i: int)
    requires
        0 <= i,
    ensures
        spec_var_region_upto(schema, fields, i).len() == spec_var_len_upto(schema, fields, i),
    decreases i,
{
    if i > 0 {
        lemma_var_region_upto_len(schema, fields, i - 1);
    }
}

/// Computes the byte length of the fixed region of a container with these
/// fields: the sum of each field's width there.
pub fn fixed_region_length(schema: &Vec<Classification>) -> (n: usize)
    requires
        spec_fixed_region_len(schema@) <= u32::MAX,
    ensures
        n == spec_fixed_region_len(schema@),
{
    proof {
        lemma_fixed_region_len_nonneg(schema@);
    }
    let mut n: usize = 0;
    let mut i: usize = 0;
    while i < schema.len()
        invariant
            i <= schema@.len(),
            spec_fixed_region_len(schema@) <= u32::MAX,
            n == spec_fixed_region_len(schema@.subrange(0, i as int)),
        decreases schema@.len() - i,
    {
        proof {
            assert(schema@.subrange(0, i + 1) =~= schema@.subrange(0, i as int).push(
                schema@[i as int],
            ));
            lemma_fixed_region_len_push(schema@.subrange(0, i as int), schema@[i as int]);
            lemma_fixed_region_prefix_bound(schema@, i + 1);
        }
        match schema[i] {
            Classification::Fixed(w) => {
                n = n + w;
            },
            Classification::Variable => {
                n = n + BYTES_PER_LENGTH_OFFSET;
            },
        }
        i = i + 1;
    }
    proof {
        assert(schema@.subrange(0, schema@.len() as int) =~= schema@);
    }
    n
}

/// Encodes a container from its schema and its fields' encodings, in
/// declared order: fixed fields into the fixed region as they are, each
/// variable field as an offset there plus its payload in the variable
/// region.
pub fn encode_container(schema: &Vec<Classification>, fields: &Vec<Vec<u8>>) -> (out: Vec<u8>)
    requires
        schema@.len() == fields@.len(),
        spec_fields_sized(schema@, fields.deep_view()),
        spec_fixed_region_len(schema@) + spec_var_len_upto(
            schema@,
            fields.deep_view(),
            schema@.len() as int,
        ) <= u32::MAX,
    ensures
        out@ == spec_container_encoding(schema@, fields.deep_view()),
{
    let ghost vf = fields.deep_view();
    proof {
        assert(vf.len() == fields@.len());
        assert forall|j: int| 0 <= j < vf.len() implies #[trigger] vf[j] == fields@[j]@ by {
            assert(vf[j] =~= fields@[j]@);
        }
        lemma_fixed_region_len_nonneg(schema@);
        lemma_var_len_upto_nonneg(schema@, vf, schema@.len() as int);
    }
    let fixed_len = fixed_region_length(schema);
    let mut out: Vec<u8> = Vec::new();
    let mut var: Vec<u8> = Vec::new();
    let mut i: usize = 0;
    while i < schema.len()
        invariant
            vf == fields.deep_view(),
            schema@.len() == fields@.len(),
            vf.len() == fields@.len(),
            forall|j: int| 0 <= j < vf.len() ==> #[trigger] vf[j] == fields@[j]@,
            spec_fields_sized(schema@, vf),
            i <= schema@.len(),
            fixed_len == spec_fixed_region_len(schema@),
            spec_fixed_region_len(schema@) + spec_var_len_upto(schema@, vf, schema@.len() as int)
                <= u32::MAX,
            out@ == spec_fixed_region_upto(schema@, vf, fixed_len as int, i as int),
            var@ == spec_var_region_upto(schema@, vf, i as int),
            var@.len() == spec_var_len_upto(schema@, vf, i as int),
        decreases schema@.len() - i,
    {
        proof {
            lemma_var_len_upto_monotonic(schema@, vf, i + 1, schema@.len() as int);
        }
        match schema[i] {
            Classification::Fixed(_) => {
                append_bytes(&mut out, fields[i].as_slice());
            },
            Classification::Variable => {
                write_offset(&mut out, fixed_len + var.len());
                append_bytes(&mut var, fields[i].as_slice());
            },
        }
        i = i + 1;
    }
    out.append(&mut var);
    out
}

/// Byte position of field `i` within the fixed region: the widths of the
/// fields before it.
pub open spec fn spec_field_pos(schema: Seq<Classification>, i: int) -> int {
    spec_fixed_region_len(schema.subrange(0, i))
}

/// Number of variable-size fields among the first `i` fields.
pub open spec fn spec_var_count_upto(schema: Seq<Classification>, i: int) -> int
    decreases i,
{
    if i <= 0 {
        0
    } else {
        spec_var_count_upto(schema, i - 1) + if schema[i - 1] is Variable {
            1int
        } else {
            0int
        }
    }
}

/// The wire offsets stored at the variable fields among the first `i`
/// fields of `b`, in field order.
pub open spec fn spec_var_offs_upto(schema: Seq<Classification>, b: Seq<u8>, i: int) -> Seq<usize>
    decreases i,
{
    if i <= 0 {
        Seq::empty()
    } else {
        spec_var_offs_upto(schema, b, i - 1) + if schema[i - 1] is Variable {
            seq![spec_offset_at_pos(b, spec_field_pos(schema, i - 1))]
        } else {
            Seq::empty()
        }
    }
}

/// The fault, if any, in the `j`th entry of an offset table `voffs` read
/// from a buffer of length `blen` whose fixed region is `f` bytes: the
/// offset may not point into the fixed region nor past the buffer, the
/// first one must land exactly at the fixed region's end, and later ones
/// may not decrease.
pub open spec fn spec_voff_fault(voffs: Seq<usize>, f: int, blen: int, j: int) -> Option<
    DecodeError,
> {
    let off = voffs[j] as int;
    if off < f {
        Some(DecodeError::OffsetIntoFixedPortion(voffs[j]))
    } else if off > blen {
        Some(DecodeError::OffsetOutOfBounds(voffs[j]))
    } else if j == 0 && off != f {
        Some(DecodeError::InvalidFixedPortionLength(voffs[j]))
    } else if j > 0 && off < voffs[j - 1] {
        Some(DecodeError::OffsetsDecreasing(voffs[j]))
    } else {
        None
    }
}

/// The first fault among entries `j..` of an offset table, if any.
pub open spec fn spec_voffs_first_fault(voffs: Seq<usize>, f: int, blen: int, j: int) -> Option<
    DecodeError,
>
    decreases voffs.len() - j,
{
    if j >= voffs.len() {
        None
    } else {
        match spec_voff_fault(voffs, f, blen, j) {
            Some(e) => Some(e),
            None => spec_voffs_first_fault(voffs, f, blen, j + 1),
        }
    }
}

/// The decoded content of field `i`: a fixed field's bytes are read at its
/// position in the fixed region; a variable field's payload runs from its
/// offset to the next variable field's offset, or to the end of the buffer
/// for the last one.
pub open spec fn spec_field_content(schema: Seq<Classification>, b: Seq<u8>, i: int) -> Seq<u8> {
    match schema[i] {
        Classification::Fixed(n) => b.subrange(
            spec_field_pos(schema, i),
            spec_field_pos(schema, i) + n,
        ),
        Classification::Variable => {
            let voffs = spec_var_offs_upto(schema, b, schema.len() as int);
            let j = spec_var_count_upto(schema, i);
            let end = if j + 1 < voffs.len() {
                voffs[j + 1] as int
            } else {
                b.len() as int
            };
            b.subrange(voffs[j] as int, end)
        },
    }
}

/// What decoding a container from an arbitrary byte sequence yields: each
/// field's bytes, or the first fault found. The buffer must cover the
/// fixed region; every offset read there must pass [`spec_voff_fault`];
/// and a container without variable fields must consist of its fixed
/// region exactly.
pub open spec fn spec_container_decode(schema: Seq<Classification>, b: Seq<u8>) -> Result<
    Seq<Seq<u8>>,
    DecodeError,
> {
    let f = spec_fixed_region_len(schema);
    if b.len() < f {
        Err(DecodeError::InvalidLength(b.len() as usize))
    } else {
        let voffs = spec_var_offs_upto(schema, b, schema.len() as int);
        match spec_voffs_first_fault(voffs, f, b.len() as int, 0) {
            Some(e) => Err(e),
            None => if voffs.len() == 0 && f != b.len() {
                Err(DecodeError::TrailingBytes)
            } else {
                Ok(Seq::new(schema.len(), |i: int| spec_field_content(schema, b, i)))
            },
        }
    }
}

/// There are as many stored offsets as variable fields, and never a
/// negative count.
pub proof fn lemma_var_offs_upto_len(schema: Seq<Classification>, b: Seq<u8>, i: int)
    ensures
        spec_var_offs_upto(schema, b, i).len() == spec_var_count_upto(schema, i),
        spec_var_count_upto(schema, i) >= 0,
    decreases i,
{
    if i > 0 {
        lemma_var_offs_upto_len(schema, b, i - 1);
    }
}

/// Walking further fields only appends offsets: the table of a prefix of
/// the fields is a prefix of the full table.
pub proof fn lemma_var_offs_upto_prefix(schema: Seq<Classification>, b: Seq<u8>, i1: int, i2: int)
    requires
        0 <= i1 <= i2,
    ensures
        spec_var_offs_upto(schema, b, i1) == spec_var_offs_upto(schema, b, i2).subrange(
            0,
            spec_var_offs_upto(schema, b, i1).len() as int,
        ),
        spec_var_offs_upto(schema, b, i1).len() <= spec_var_offs_upto(schema, b, i2).len(),
    decreases i2 - i1,
{
    if i1 < i2 {
        lemma_var_offs_upto_prefix(schema, b, i1, i2 - 1);
        assert(spec_var_offs_upto(schema, b, i1) =~= spec_var_offs_upto(schema, b, i2).subrange(
            0,
            spec_var_offs_upto(schema, b, i1).len() as int,
        ));
    } else {
        assert(spec_var_offs_upto(schema, b, i1) =~= spec_var_offs_upto(schema, b, i2).subrange(
            0,
            spec_var_offs_upto(schema, b, i1).len() as int,
        ));
    }
}

/// When the first `j` table entries are fault-free, the first fault
/// overall is the first fault among the rest.
pub proof fn lemma_voffs_fault_skip(voffs: Seq<usize>, f: int, blen: int, j: int)
    requires
        0 <= j <= voffs.len(),
        forall|x: int| 0 <= x < j ==> #[trigger] spec_voff_fault(voffs, f, blen, x) is None,
    ensures
        spec_voffs_first_fault(voffs, f, blen, 0) == spec_voffs_first_fault(voffs, f, blen, j),
    decreases j,
{
    if j > 0 {
        lemma_voffs_fault_skip(voffs, f, blen, j - 1);
    }
}

/// Variable-field counts never decrease along the fields.
pub proof fn lemma_var_count_monotonic(schema: Seq<Classification>, i: int, j: int)
    requires
        i <= j,
    ensures
        spec_var_count_upto(schema, i) <= spec_var_count_upto(schema, j),
        spec_var_count_upto(schema, j) <= spec_var_count_upto(schema, i) + (j - i),
    decreases j - i,
{
    if i < j {
        lemma_var_count_monotonic(schema, i, j - 1);
    }
}

/// Fields that contribute no variable count contribute no variable length:
/// between two positions with the same count, the variable length is the
/// same too.
pub proof fn lemma_equal_count_equal_len(
    schema: Seq<Classification>,
    fields: Seq<Seq<u8>>,
    i: int,
    j: int,
)
    requires
        0 <= i <= j,
        spec_var_count_upto(schema, i) == spec_var_count_upto(schema, j),
    ensures
        spec_var_len_upto(schema, fields, i) == spec_var_len_upto(schema, fields, j),
    decreases j - i,
{
    if i < j {
        lemma_var_count_monotonic(schema, i, j - 1);
        lemma_var_count_monotonic(schema, i, j);
        lemma_equal_count_equal_len(schema, fields, i, j - 1);
    }
}

/// Before the first variable field there is no variable payload.
pub proof fn lemma_zero_count_zero_len(schema: Seq<Classification>, fields: Seq<Seq<u8>>, i: int)
    requires
        0 <= i,
        spec_var_count_upto(schema, i) == 0,
    ensures
        spec_var_len_upto(schema, fields, i) == 0,
    decreases i,
{
    if i > 0 {
        lemma_var_count_monotonic(schema, i - 1, i);
        assert(spec_var_count_upto(schema, i - 1) >= 0) by {
            lemma_var_count_monotonic(schema, 0, i - 1);
        }
        lemma_zero_count_zero_len(schema, fields, i - 1);
    }
}

/// Within the encoded fixed region, the slot of field `i` — its own bytes
/// when fixed, its wire offset when variable — sits at that field's
/// position.
pub proof fn lemma_fixed_region_slot(
    schema: Seq<Classification>,
    fields: Seq<Seq<u8>>,
    base: int,
    i: int,
    j: int,
)
    requires
        schema.len() == fields.len(),
        spec_fields_sized(schema, fields),
        0 <= i < j <= schema.len(),
    ensures
        spec_fixed_region_upto(schema, fields, base, j).subrange(
            spec_field_pos(schema, i),
            spec_field_pos(schema, i) + crate::classify::spec_fixed_region_width(schema[i]),
        ) == match schema[i] {
            Classification::Fixed(_) => fields[i],
            Classification::Variable => spec_offset_bytes(
                (base + spec_var_len_upto(schema, fields, i)) as usize,
            ),
        },
    decreases j,
{
    lemma_fixed_region_upto_len(schema, fields, base, i);
    lemma_fixed_region_upto_len(schema, fields, base, j);
    lemma_fixed_region_len_nonneg(schema.subrange(0, i));
    let w = crate::classify::spec_fixed_region_width(schema[i]);
    let slot = match schema[i] {
        Classification::Fixed(_) => fields[i],
        Classification::Variable => spec_offset_bytes(
            (base + spec_var_len_upto(schema, fields, i)) as usize,
        ),
    };
    assert(slot.len() == w) by {
        if schema[i] is Variable {
            vstd::bytes::lemma_auto_spec_u32_to_from_le_bytes();
            assert(spec_offset_bytes(
                (base + spec_var_len_upto(schema, fields, i)) as usize,
            ).len() == 4);
        }
    }
    if j == i + 1 {
        assert(spec_fixed_region_upto(schema, fields, base, j) == spec_fixed_region_upto(
            schema,
            fields,
            base,
            i,
        ) + slot);
        assert(spec_fixed_region_upto(schema, fields, base, j).subrange(
            spec_field_pos(schema, i),
            spec_field_pos(schema, i) + w,
        ) =~= slot);
    } else {
        lemma_fixed_region_slot(schema, fields, base, i, j - 1);
        lemma_fixed_region_upto_len(schema, fields, base, j - 1);
        assert(schema.subrange(0, i + 1) =~= schema.subrange(0, i).push(schema[i]));
        lemma_fixed_region_len_push(schema.subrange(0, i), schema[i]);
        assert(schema.subrange(0, j - 1).subrange(0, i + 1) =~= schema.subrange(0, i + 1));
        lemma_fixed_region_prefix_bound(schema.subrange(0, j - 1), i + 1);
        assert(spec_field_pos(schema, i) + w <= spec_fixed_region_upto(
            schema,
            fields,
            base,
            j - 1,
        ).len());
        assert(spec_fixed_region_upto(schema, fields, base, j).subrange(
            spec_field_pos(schema, i),
            spec_field_pos(schema, i) + w,
        ) =~= spec_fixed_region_upto(schema, fields, base, j - 1).subrange(
            spec_field_pos(schema, i),
            spec_field_pos(schema, i) + w,
        ));
    }
}

/// Within the encoded variable region, the payload of variable field `i`
/// spans from the variable length before it to the variable length after
/// it.
pub proof fn lemma_var_region_item(
    schema: Seq<Classification>,
    fields: Seq<Seq<u8>>,
    i: int,
    j: int,
)
    requires
        schema.len() == fields.len(),
        0 <= i < j <= schema.len(),
        schema[i] is Variable,
    ensures
        spec_var_region_upto(schema, fields, j).subrange(
            spec_var_len_upto(schema, fields, i),
            spec_var_len_upto(schema, fields, i + 1),
        ) == fields[i],
    decreases j,
{
    lemma_var_region_upto_len(schema, fields, i);
    lemma_var_len_upto_nonneg(schema, fields, i);
    if j == i + 1 {
        assert(spec_var_region_upto(schema, fields, j) == spec_var_region_upto(schema, fields, i)
            + fields[i]);
        assert(spec_var_region_upto(schema, fields, j).subrange(
            spec_var_len_upto(schema, fields, i),
            spec_var_len_upto(schema, fields, i + 1),
        ) =~= fields[i]);
    } else {
        lemma_var_region_item(schema, fields, i, j - 1);
        lemma_var_region_upto_len(schema, fields, j - 1);
        lemma_var_len_upto_monotonic(schema, fields, i + 1, j - 1);
        assert(spec_var_region_upto(schema, fields, j).subrange(
            spec_var_len_upto(schema, fields, i),
            spec_var_len_upto(schema, fields, i + 1),
        ) =~= spec_var_region_upto(schema, fields, j - 1).subrange(
            spec_var_len_upto(schema, fields, i),
            spec_var_len_upto(schema, fields, i + 1),
        ));
    }
}

/// The `j`th offset that decoding reads off an encoding is the one that
/// encoding wrote for some variable field: the fixed region's length plus
/// the variable payloads before that field.
pub open spec fn spec_entry_from_field(
    schema: Seq<Classification>,
    fields: Seq<Seq<u8>>,
    b: Seq<u8>,
    i: int,
    j: int,
) -> bool {
    exists|m: int|
        0 <= m < i && schema[m] is Variable && #[trigger] spec_var_count_upto(schema, m) == j
            && spec_var_offs_upto(schema, b, i)[j] as int == spec_fixed_region_len(schema)
            + spec_var_len_upto(schema, fields, m)
}

/// Reading the offset table back off an encoding: among the first `i`
/// fields there is one table entry per variable field, and each entry is
/// that field's wire offset.
pub proof fn lemma_encoding_var_offsets(schema: Seq<Classification>, fields: Seq<Seq<u8>>, i: int)
    requires
        schema.len() == fields.len(),
        spec_fields_sized(schema, fields),
        spec_fixed_region_len(schema) + spec_var_len_upto(schema, fields, schema.len() as int)
            <= u32::MAX,
        0 <= i <= schema.len(),
    ensures
        spec_var_offs_upto(schema, spec_container_encoding(schema, fields), i).len()
            == spec_var_count_upto(schema, i),
        forall|j: int|
            0 <= j < spec_var_count_upto(schema, i) ==> #[trigger] spec_entry_from_field(
                schema,
                fields,
                spec_container_encoding(schema, fields),
                i,
                j,
            ),
    decreases i,
{
    let b = spec_container_encoding(schema, fields);
    let n = schema.len() as int;
    let f = spec_fixed_region_len(schema);
    if i == 0 {
    } else {
        lemma_encoding_var_offsets(schema, fields, i - 1);
        let pre = spec_var_offs_upto(schema, b, i - 1);
        let cur = spec_var_offs_upto(schema, b, i);
        assert forall|j: int| 0 <= j < spec_var_count_upto(schema, i) implies
        #[trigger] spec_entry_from_field(schema, fields, b, i, j) by {
            if j < spec_var_count_upto(schema, i - 1) {
                assert(spec_entry_from_field(schema, fields, b, i - 1, j));
                let m = choose|m: int|
                    0 <= m < i - 1 && schema[m] is Variable && #[trigger] spec_var_count_upto(
                        schema,
                        m,
                    ) == j && spec_var_offs_upto(schema, b, i - 1)[j] as int
                        == spec_fixed_region_len(schema) + spec_var_len_upto(schema, fields, m);
                assert(cur[j] == pre[j]);
                assert(0 <= m < i && schema[m] is Variable && spec_var_count_upto(schema, m) == j
                    && cur[j] as int == f + spec_var_len_upto(schema, fields, m));
            } else {
                // the one entry this step appends, for variable field i - 1
                assert(schema[i - 1] is Variable);
                assert(spec_var_count_upto(schema, i - 1) == j);
                let pos = spec_field_pos(schema, i - 1);
                assert(cur[j] == spec_offset_at_pos(b, pos));
                lemma_read_back_offset(schema, fields, i - 1);
                assert(0 <= i - 1 < i && schema[i - 1] is Variable && spec_var_count_upto(
                    schema,
                    i - 1,
                ) == j && cur[j] as int == f + spec_var_len_upto(schema, fields, i - 1));
            }
        }
    }
}

/// Reading the offset slot of variable field `m` back off an encoding
/// yields the offset that encoding wrote there.
pub proof fn lemma_read_back_offset(schema: Seq<Classification>, fields: Seq<Seq<u8>>, m: int)
    requires
        schema.len() == fields.len(),
        spec_fields_sized(schema, fields),
        spec_fixed_region_len(schema) + spec_var_len_upto(schema, fields, schema.len() as int)
            <= u32::MAX,
        0 <= m < schema.len(),
        schema[m] is Variable,
    ensures
        spec_offset_at_pos(
            spec_container_encoding(schema, fields),
            spec_field_pos(schema, m),
        ) as int == spec_fixed_region_len(schema) + spec_var_len_upto(schema, fields, m),
{
    let b = spec_container_encoding(schema, fields);
    let n = schema.len() as int;
    let f = spec_fixed_region_len(schema);
    let slots = spec_fixed_region_upto(schema, fields, f, n);
    let pos = spec_field_pos(schema, m);
    lemma_fixed_region_upto_len(schema, fields, f, n);
    assert(schema.subrange(0, n) =~= schema);
    assert(slots.len() == f);
    lemma_fixed_region_len_nonneg(schema.subrange(0, m));
    assert(schema.subrange(0, m + 1) =~= schema.subrange(0, m).push(schema[m]));
    lemma_fixed_region_len_push(schema.subrange(0, m), schema[m]);
    lemma_fixed_region_prefix_bound(schema, m + 1);
    assert(pos + 4 <= f);
    lemma_fixed_region_slot(schema, fields, f, m, n);
    let v = (f + spec_var_len_upto(schema, fields, m)) as usize;
    assert(slots.subrange(pos, pos + 4) == spec_offset_bytes(v));
    assert(b.subrange(pos, pos + 4) =~= slots.subrange(pos, pos + 4));
    lemma_var_len_upto_nonneg(schema, fields, m);
    lemma_var_len_upto_monotonic(schema, fields, m, n);
    crate::offsets::lemma_offset_bytes_roundtrip(v);
    assert(spec_u32_from_le_bytes(spec_offset_bytes(v)) == v);
}

/// Round trip: decoding the encoding of any container yields its fields
/// back — every fixed field, every variable payload, in declared order.
pub proof fn lemma_container_roundtrip(schema: Seq<Classification>, fields: Seq<Seq<u8>>)
    requires
        schema.len() == fields.len(),
        spec_fields_sized(schema, fields),
        spec_fixed_region_len(schema) + spec_var_len_upto(schema, fields, schema.len() as int)
            <= u32::MAX,
    ensures
        spec_container_decode(schema, spec_container_encoding(schema, fields)) == Ok::<
            Seq<Seq<u8>>,
            DecodeError,
        >(fields),
{
    let b = spec_container_encoding(schema, fields);
    let n = schema.len() as int;
    let f = spec_fixed_region_len(schema);
    let vtot = spec_var_len_upto(schema, fields, n);
    let slots = spec_fixed_region_upto(schema, fields, f, n);
    let varreg = spec_var_region_upto(schema, fields, n);
    lemma_fixed_region_upto_len(schema, fields, f, n);
    assert(schema.subrange(0, n) =~= schema);
    lemma_var_region_upto_len(schema, fields, n);
    lemma_fixed_region_len_nonneg(schema);
    lemma_var_len_upto_nonneg(schema, fields, n);
    assert(b.len() == f + vtot);
    let voffs = spec_var_offs_upto(schema, b, n);
    let nv = spec_var_count_upto(schema, n);
    lemma_encoding_var_offsets(schema, fields, n);
    assert forall|j: int| 0 <= j < voffs.len() implies #[trigger] spec_voff_fault(
        voffs,
        f,
        b.len() as int,
        j,
    ) is None by {
        assert(spec_entry_from_field(schema, fields, b, n, j));
        let m = choose|m: int|
            0 <= m < n && schema[m] is Variable && #[trigger] spec_var_count_upto(schema, m) == j
                && spec_var_offs_upto(schema, b, n)[j] as int == f + spec_var_len_upto(
                schema,
                fields,
                m,
            );
        lemma_var_len_upto_nonneg(schema, fields, m);
        lemma_var_len_upto_monotonic(schema, fields, m, n);
        if j == 0 {
            lemma_zero_count_zero_len(schema, fields, m);
        }
        if j > 0 {
            assert(spec_entry_from_field(schema, fields, b, n, j - 1));
            let m2 = choose|m2: int|
                0 <= m2 < n && schema[m2] is Variable && #[trigger] spec_var_count_upto(
                    schema,
                    m2,
                ) == j - 1 && spec_var_offs_upto(schema, b, n)[j - 1] as int == f
                    + spec_var_len_upto(schema, fields, m2);
            if m <= m2 {
                lemma_var_count_monotonic(schema, m, m2);
                assert(false);
            }
            lemma_var_len_upto_monotonic(schema, fields, m2, m);
        }
    }
    lemma_voffs_fault_skip(voffs, f, b.len() as int, voffs.len() as int);
    if nv == 0 {
        lemma_zero_count_zero_len(schema, fields, n);
        assert(b.len() == f);
    }
    assert forall|i: int| 0 <= i < n implies #[trigger] spec_field_content(schema, b, i)
        == fields[i] by {
        assert(schema.subrange(0, i + 1) =~= schema.subrange(0, i).push(schema[i]));
        lemma_fixed_region_len_push(schema.subrange(0, i), schema[i]);
        lemma_fixed_region_prefix_bound(schema, i + 1);
        lemma_fixed_region_len_nonneg(schema.subrange(0, i));
        match schema[i] {
            Classification::Fixed(nn) => {
                lemma_fixed_region_slot(schema, fields, f, i, n);
                let pos = spec_field_pos(schema, i);
                assert(b.subrange(pos, pos + nn) =~= slots.subrange(pos, pos + nn));
            },
            Classification::Variable => {
                let j = spec_var_count_upto(schema, i);
                lemma_var_count_monotonic(schema, 0, i);
                lemma_var_count_monotonic(schema, i + 1, n);
                assert(j + 1 <= nv);
                assert(spec_entry_from_field(schema, fields, b, n, j));
                let m = choose|m: int|
                    0 <= m < n && schema[m] is Variable && #[trigger] spec_var_count_upto(
                        schema,
                        m,
                    ) == j && spec_var_offs_upto(schema, b, n)[j] as int == f + spec_var_len_upto(
                        schema,
                        fields,
                        m,
                    );
                if m <= i {
                    lemma_equal_count_equal_len(schema, fields, m, i);
                } else {
                    lemma_equal_count_equal_len(schema, fields, i, m);
                }
                assert(voffs[j] as int == f + spec_var_len_upto(schema, fields, i));
                let end = if j + 1 < voffs.len() {
                    voffs[j + 1] as int
                } else {
                    b.len() as int
                };
                if j + 1 < nv {
                    assert(spec_entry_from_field(schema, fields, b, n, j + 1));
                    let m2 = choose|m2: int|
                        0 <= m2 < n && schema[m2] is Variable && #[trigger] spec_var_count_upto(
                            schema,
                            m2,
                        ) == j + 1 && spec_var_offs_upto(schema, b, n)[j + 1] as int == f
                            + spec_var_len_upto(schema, fields, m2);
                    if m2 <= i + 1 {
                        lemma_equal_count_equal_len(schema, fields, m2, i + 1);
                    } else {
                        lemma_equal_count_equal_len(schema, fields, i + 1, m2);
                    }
                    assert(end == f + spec_var_len_upto(schema, fields, i + 1));
                } else {
                    lemma_equal_count_equal_len(schema, fields, i + 1, n);
                    assert(end == f + spec_var_len_upto(schema, fields, i + 1));
                }
                lemma_var_region_item(schema, fields, i, n);
                lemma_var_len_upto_nonneg(schema, fields, i);
                lemma_var_len_upto_monotonic(schema, fields, i + 1, n);
                assert(b.subrange(
                    f + spec_var_len_upto(schema, fields, i),
                    f + spec_var_len_upto(schema, fields, i + 1),
                ) =~= varreg.subrange(
                    spec_var_len_upto(schema, fields, i),
                    spec_var_len_upto(schema, fields, i + 1),
                ));
            },
        }
    }
    assert(Seq::new(n as nat, |i: int| spec_field_content(schema, b, i)) =~= fields);
}

/// When no entry from `j` on is at fault, every entry from `j` on is
/// fault-free.
pub proof fn lemma_first_fault_none(voffs: Seq<usize>, f: int, blen: int, j: int)
    requires
        0 <= j <= voffs.len(),
        spec_voffs_first_fault(voffs, f, blen, j) is None,
    ensures
        forall|x: int| j <= x < voffs.len() ==> #[trigger] spec_voff_fault(voffs, f, blen, x) is None,
    decreases voffs.len() - j,
{
    if j < voffs.len() {
        lemma_first_fault_none(voffs, f, blen, j + 1);
    }
}

/// The variable lengths of a decoded container's fields retrace its offset
/// table: the payloads before position `i` end where the next offset (or
/// the buffer) says.
proof fn lemma_decoded_var_lens(schema: Seq<Classification>, b: Seq<u8>, i: int)
    requires
        spec_container_decode(schema, b) is Ok,
        0 <= i <= schema.len(),
    ensures
        ({
            let f = spec_fixed_region_len(schema);
            let n = schema.len() as int;
            let voffs = spec_var_offs_upto(schema, b, n);
            let fields = spec_container_decode(schema, b)->Ok_0;
            let j = spec_var_count_upto(schema, i);
            spec_var_len_upto(schema, fields, i) == if j < voffs.len() {
                voffs[j] - f
            } else {
                b.len() - f
            }
        }),
    decreases i,
{
    let f = spec_fixed_region_len(schema);
    let n = schema.len() as int;
    let voffs = spec_var_offs_upto(schema, b, n);
    let fields = spec_container_decode(schema, b)->Ok_0;
    lemma_var_offs_upto_len(schema, b, n);
    lemma_first_fault_none(voffs, f, b.len() as int, 0);
    lemma_var_count_monotonic(schema, 0, i);
    if i == 0 {
        if voffs.len() > 0 {
            assert(spec_voff_fault(voffs, f, b.len() as int, 0) is None);
        }
    } else {
        lemma_decoded_var_lens(schema, b, i - 1);
        lemma_var_count_monotonic(schema, 0, i - 1);
        lemma_var_count_monotonic(schema, i, n);
        if schema[i - 1] is Variable {
            let j = spec_var_count_upto(schema, i - 1);
            assert(spec_voff_fault(voffs, f, b.len() as int, j) is None);
            if j + 1 < voffs.len() {
                assert(spec_voff_fault(voffs, f, b.len() as int, j + 1) is None);
            }
            assert(fields[i - 1] == spec_field_content(schema, b, i - 1));
            assert(fields[i - 1].len() == (if j + 1 < voffs.len() {
                voffs[j + 1] as int
            } else {
                b.len() as int
            }) - voffs[j]);
        }
    }
}

/// Re-encoding the fields of a decoded container reproduces the input
/// byte for byte: decoding never invents a value, and two different
/// accepted inputs decode to two different field sequences.
pub proof fn lemma_container_decode_encode(schema: Seq<Classification>, b: Seq<u8>)
    requires
        spec_container_decode(schema, b) is Ok,
    ensures
        spec_container_encoding(schema, spec_container_decode(schema, b)->Ok_0) == b,
{
    let f = spec_fixed_region_len(schema);
    let n = schema.len() as int;
    let voffs = spec_var_offs_upto(schema, b, n);
    let nv = spec_var_count_upto(schema, n);
    let fields = spec_container_decode(schema, b)->Ok_0;
    lemma_var_offs_upto_len(schema, b, n);
    lemma_first_fault_none(voffs, f, b.len() as int, 0);
    lemma_fixed_region_len_nonneg(schema);
    assert(fields.len() == n);
    assert(spec_fields_sized(schema, fields)) by {
        assert forall|i: int| 0 <= i < n implies (schema[i] matches Classification::Fixed(nn)
            ==> (#[trigger] fields[i]).len() == nn) by {
            lemma_field_pos_bounds(schema, i);
        }
    }
    lemma_slots_retrace(schema, b, n);
    lemma_var_region_retrace(schema, b, n);
    lemma_decoded_var_lens(schema, b, n);
    lemma_fixed_region_upto_len(schema, fields, f, n);
    assert(schema.subrange(0, n) =~= schema);
    if nv == 0 {
        assert(b.len() == f);
    } else {
        assert(spec_voff_fault(voffs, f, b.len() as int, 0) is None);
    }
    assert(spec_field_pos(schema, n) == f);
    assert(spec_fixed_region_upto(schema, fields, f, n) == b.subrange(0, f));
    assert(spec_var_region_upto(schema, fields, n) == b.subrange(f, b.len() as int));
    assert(spec_container_encoding(schema, fields) =~= b);
}

/// Field positions stay within the fixed region, and the fixed region
/// within a decodable buffer.
proof fn lemma_field_pos_bounds(schema: Seq<Classification>, i: int)
    requires
        0 <= i < schema.len(),
    ensures
        0 <= spec_field_pos(schema, i),
        spec_field_pos(schema, i) + crate::classify::spec_fixed_region_width(schema[i])
            == spec_field_pos(schema, i + 1),
        spec_field_pos(schema, i + 1) <= spec_fixed_region_len(schema),
{
    lemma_fixed_region_len_nonneg(schema.subrange(0, i));
    assert(schema.subrange(0, i + 1) =~= schema.subrange(0, i).push(schema[i]));
    lemma_fixed_region_len_push(schema.subrange(0, i), schema[i]);
    lemma_fixed_region_prefix_bound(schema, i + 1);
    assert(schema.subrange(0, schema.len() as int) =~= schema);
}

/// Re-encoding the fixed slots of a decoded container reproduces the
/// fixed region of the input.
proof fn lemma_slots_retrace(schema: Seq<Classification>, b: Seq<u8>, i: int)
    requires
        spec_container_decode(schema, b) is Ok,
        0 <= i <= schema.len(),
    ensures
        spec_fixed_region_upto(
            schema,
            spec_container_decode(schema, b)->Ok_0,
            spec_fixed_region_len(schema),
            i,
        ) == b.subrange(0, spec_field_pos(schema, i)),
    decreases i,
{
    let f = spec_fixed_region_len(schema);
    let n = schema.len() as int;
    let voffs = spec_var_offs_upto(schema, b, n);
    let fields = spec_container_decode(schema, b)->Ok_0;
    lemma_var_offs_upto_len(schema, b, n);
    lemma_first_fault_none(voffs, f, b.len() as int, 0);
    if i == 0 {
        assert(schema.subrange(0, 0) =~= Seq::<Classification>::empty());
        assert(b.subrange(0, 0) =~= Seq::<u8>::empty());
    } else {
        lemma_slots_retrace(schema, b, i - 1);
        lemma_field_pos_bounds(schema, i - 1);
        let slot = match schema[i - 1] {
            Classification::Fixed(_) => fields[i - 1],
            Classification::Variable => spec_offset_bytes(
                (f + spec_var_len_upto(schema, fields, i - 1)) as usize,
            ),
        };
        match schema[i - 1] {
            Classification::Fixed(nn) => {
                assert(fields[i - 1] == spec_field_content(schema, b, i - 1));
                assert(slot == b.subrange(
                    spec_field_pos(schema, i - 1),
                    spec_field_pos(schema, i - 1) + nn,
                ));
            },
            Classification::Variable => {
                let j = spec_var_count_upto(schema, i - 1);
                lemma_var_count_monotonic(schema, 0, i - 1);
                lemma_var_count_monotonic(schema, i, n);
                lemma_decoded_var_lens(schema, b, i - 1);
                assert(spec_voff_fault(voffs, f, b.len() as int, j) is None);
                // the slot re-encodes the very offset the table held
                assert(spec_var_len_upto(schema, fields, i - 1) == voffs[j] - f);
                assert((f + spec_var_len_upto(schema, fields, i - 1)) as usize == voffs[j]);
                lemma_read_forward(schema, b, i - 1, j);
            },
        }
        assert(spec_fixed_region_upto(schema, fields, f, i) == spec_fixed_region_upto(
            schema,
            fields,
            f,
            i - 1,
        ) + slot);
        assert(spec_fixed_region_upto(schema, fields, f, i) =~= b.subrange(
            0,
            spec_field_pos(schema, i),
        ));
    }
}

/// The wire bytes of table entry `j` — read at the position of the
/// variable field it belongs to — are that entry's offset re-serialized.
proof fn lemma_read_forward(schema: Seq<Classification>, b: Seq<u8>, m: int, j: int)
    requires
        spec_container_decode(schema, b) is Ok,
        0 <= m < schema.len(),
        schema[m] is Variable,
        j == spec_var_count_upto(schema, m),
    ensures
        b.subrange(spec_field_pos(schema, m), spec_field_pos(schema, m) + 4) == spec_offset_bytes(
            spec_var_offs_upto(schema, b, schema.len() as int)[j],
        ),
{
    let n = schema.len() as int;
    let f = spec_fixed_region_len(schema);
    let voffs = spec_var_offs_upto(schema, b, n);
    lemma_field_pos_bounds(schema, m);
    lemma_var_offs_upto_len(schema, b, m + 1);
    lemma_var_offs_upto_prefix(schema, b, m + 1, n);
    assert(voffs[j] == spec_var_offs_upto(schema, b, m + 1)[j]);
    assert(spec_var_offs_upto(schema, b, m + 1)[j] == spec_offset_at_pos(
        b,
        spec_field_pos(schema, m),
    )) by {
        lemma_var_offs_upto_len(schema, b, m);
    }
    crate::offsets::lemma_offset_at_pos_bytes(b, spec_field_pos(schema, m));
}

/// Re-encoding the variable payloads of a decoded container reproduces
/// the variable region of the input.
proof fn lemma_var_region_retrace(schema: Seq<Classification>, b: Seq<u8>, i: int)
    requires
        spec_container_decode(schema, b) is Ok,
        0 <= i <= schema.len(),
    ensures
        spec_var_region_upto(schema, spec_container_decode(schema, b)->Ok_0, i) == b.subrange(
            spec_fixed_region_len(schema),
            spec_fixed_region_len(schema) + spec_var_len_upto(
                schema,
                spec_container_decode(schema, b)->Ok_0,
                i,
            ),
        ),
    decreases i,
{
    let f = spec_fixed_region_len(schema);
    let n = schema.len() as int;
    let voffs = spec_var_offs_upto(schema, b, n);
    let fields = spec_container_decode(schema, b)->Ok_0;
    lemma_var_offs_upto_len(schema, b, n);
    lemma_first_fault_none(voffs, f, b.len() as int, 0);
    lemma_fixed_region_len_nonneg(schema);
    if i == 0 {
        assert(spec_var_region_upto(schema, fields, 0) =~= b.subrange(f, f));
    } else {
        lemma_var_region_retrace(schema, b, i - 1);
        lemma_var_len_upto_nonneg(schema, fields, i - 1);
        if schema[i - 1] is Variable {
            let j = spec_var_count_upto(schema, i - 1);
            lemma_var_count_monotonic(schema, 0, i - 1);
            lemma_var_count_monotonic(schema, i, n);
            lemma_decoded_var_lens(schema, b, i - 1);
            lemma_decoded_var_lens(schema, b, i);
            assert(spec_voff_fault(voffs, f, b.len() as int, j) is None);
            if j + 1 < voffs.len() {
                assert(spec_voff_fault(voffs, f, b.len() as int, j + 1) is None);
            }
            assert(fields[i - 1] == spec_field_content(schema, b, i - 1));
            assert(spec_var_region_upto(schema, fields, i) =~= b.subrange(
                f,
                f + spec_var_len_upto(schema, fields, i),
            ));
        } else {
            assert(spec_var_region_upto(schema, fields, i) =~= b.subrange(
                f,
                f + spec_var_len_upto(schema, fields, i),
            ));
        }
    }
}

/// Decodes a container from untrusted bytes, reading the fixed region
/// field by field and validating every offset as it is read. Returns
/// exactly what [`spec_container_decode`] states for this schema and
/// input: every field's bytes, or the first fault, with nothing partial.
pub fn decode_container(schema: &Vec<Classification>, bytes: &[u8]) -> (r: Result<
    Vec<Vec<u8>>,
    DecodeError,
>)
    requires
        spec_fixed_region_len(schema@) <= u32::MAX,
    ensures
        match r {
            Ok(fields) => spec_container_decode(schema@, bytes@) == Ok::<
                Seq<Seq<u8>>,
                DecodeError,
            >(fields.deep_view()),
            Err(e) => spec_container_decode(schema@, bytes@) == Err::<Seq<Seq<u8>>, DecodeError>(
                e,
            ),
        },
{
    let ghost b = bytes@;
    let ghost nf = schema@.len() as int;
    let fixed_len = fixed_region_length(schema);
    let ghost f = fixed_len as int;
    if bytes.len() < fixed_len {
        return Err(DecodeError::InvalidLength(bytes.len()));
    }
    let ghost full = spec_var_offs_upto(schema@, b, nf);
    let mut voffs: Vec<usize> = Vec::new();
    let mut pos: usize = 0;
    let mut i: usize = 0;
    while i < schema.len()
        invariant
            b == bytes@,
            nf == schema@.len() as int,
            full == spec_var_offs_upto(schema@, b, nf),
            f == fixed_len as int,
            f == spec_fixed_region_len(schema@),
            f <= u32::MAX,
            f <= b.len(),
            i <= nf,
            pos == spec_field_pos(schema@, i as int),
            0 <= pos <= f,
            voffs@ == spec_var_offs_upto(schema@, b, i as int),
            forall|x: int| 0 <= x < voffs@.len() ==> #[trigger] spec_voff_fault(full, f, b.len() as int, x) is None,
        decreases nf - i,
    {
        proof {
            assert(schema@.subrange(0, i + 1) =~= schema@.subrange(0, i as int).push(
                schema@[i as int],
            ));
            lemma_fixed_region_len_push(schema@.subrange(0, i as int), schema@[i as int]);
            lemma_fixed_region_prefix_bound(schema@, i + 1);
            lemma_var_offs_upto_prefix(schema@, b, i + 1, nf);
            lemma_var_offs_upto_len(schema@, b, i as int);
        }
        match schema[i] {
            Classification::Fixed(w) => {
                pos = pos + w;
            },
            Classification::Variable => {
                let off = read_offset_at_pos(bytes, pos);
                let ghost j = voffs@.len() as int;
                proof {
                    assert(spec_var_offs_upto(schema@, b, i + 1) =~= voffs@.push(off));
                    assert(spec_var_offs_upto(schema@, b, i + 1).len() == j + 1);
                    assert(full.subrange(0, j + 1) == voffs@.push(off));
                    assert(full[j] == full.subrange(0, j + 1)[j]);
                    assert(full[j] == off);
                    if j > 0 {
                        assert(full[j - 1] == full.subrange(0, j + 1)[j - 1]);
                        assert(full[j - 1] == voffs@[j - 1]);
                    }
                }
                if off < fixed_len {
                    proof {
                        lemma_voffs_fault_skip(full, f, b.len() as int, j);
                    }
                    return Err(DecodeError::OffsetIntoFixedPortion(off));
                }
                if off > bytes.len() {
                    proof {
                        lemma_voffs_fault_skip(full, f, b.len() as int, j);
                    }
                    return Err(DecodeError::OffsetOutOfBounds(off));
                }
                if voffs.len() == 0 {
                    if off != fixed_len {
                        proof {
                            lemma_voffs_fault_skip(full, f, b.len() as int, j);
                        }
                        return Err(DecodeError::InvalidFixedPortionLength(off));
                    }
                } else {
                    let prev = voffs[voffs.len() - 1];
                    if off < prev {
                        proof {
                            lemma_voffs_fault_skip(full, f, b.len() as int, j);
                        }
                        return Err(DecodeError::OffsetsDecreasing(off));
                    }
                }
                proof {
                    assert(spec_voff_fault(full, f, b.len() as int, j) is None);
                }
                voffs.push(off);
                pos = pos + BYTES_PER_LENGTH_OFFSET;
            },
        }
        i = i + 1;
    }
    proof {
        assert(voffs@ == full);
        lemma_voffs_fault_skip(full, f, b.len() as int, full.len() as int);
    }
    if voffs.len() == 0 {
        if fixed_len != bytes.len() {
            return Err(DecodeError::TrailingBytes);
        }
    }
    let ghost contents = Seq::new(nf as nat, |x: int| spec_field_content(schema@, b, x));
    let mut fields: Vec<Vec<u8>> = Vec::new();
    let mut pos2: usize = 0;
    let mut vj: usize = 0;
    let mut i2: usize = 0;
    while i2 < schema.len()
        invariant
            b == bytes@,
            nf == schema@.len() as int,
            full == spec_var_offs_upto(schema@, b, nf),
            voffs@ == full,
            f == fixed_len as int,
            f == spec_fixed_region_len(schema@),
            f <= u32::MAX,
            f <= b.len(),
            contents == Seq::new(nf as nat, |x: int| spec_field_content(schema@, b, x)),
            forall|x: int| 0 <= x < full.len() ==> #[trigger] spec_voff_fault(full, f, b.len() as int, x) is None,
            i2 <= nf,
            pos2 == spec_field_pos(schema@, i2 as int),
            0 <= pos2 <= f,
            vj == spec_var_count_upto(schema@, i2 as int),
            0 <= vj <= full.len(),
            fields.deep_view() == contents.subrange(0, i2 as int),
        decreases nf - i2,
    {
        proof {
            assert(schema@.subrange(0, i2 + 1) =~= schema@.subrange(0, i2 as int).push(
                schema@[i2 as int],
            ));
            lemma_fixed_region_len_push(schema@.subrange(0, i2 as int), schema@[i2 as int]);
            lemma_fixed_region_prefix_bound(schema@, i2 + 1);
            lemma_var_offs_upto_len(schema@, b, i2 + 1);
            lemma_var_offs_upto_prefix(schema@, b, i2 + 1, nf);
        }
        let fld: Vec<u8>;
        match schema[i2] {
            Classification::Fixed(w) => {
                fld = slice_to_vec(slice_subrange(bytes, pos2, pos2 + w));
                pos2 = pos2 + w;
            },
            Classification::Variable => {
                proof {
                    assert(spec_voff_fault(full, f, b.len() as int, vj as int) is None);
                    if vj + 1 < full.len() {
                        assert(spec_voff_fault(full, f, b.len() as int, vj + 1) is None);
                    }
                }
                let nv = voffs.len();
                proof {
                    assert(vj < nv);
                }
                let start = voffs[vj];
                let end: usize = if vj + 1 < nv {
                    voffs[vj + 1]
                } else {
                    bytes.len()
                };
                fld = slice_to_vec(slice_subrange(bytes, start, end));
                pos2 = pos2 + BYTES_PER_LENGTH_OFFSET;
                vj = vj + 1;
            },
        }
        proof {
            assert(contents[i2 as int] == fld@);
        }
        let ghost pre = fields.deep_view();
        let ghost fldv = fld@;
        fields.push(fld);
        proof {
            assert(fields.deep_view() =~~= pre.push(fldv));
            assert(contents.subrange(0, i2 + 1) =~= contents.subrange(0, i2 as int).push(
                contents[i2 as int],
            ));
            assert(fields.deep_view() == contents.subrange(0, i2 + 1));
        }
        i2 = i2 + 1;
    }
    proof {
        assert(contents.subrange(0, nf) =~= contents);
        assert(fields.deep_view() == contents);
    }
    Ok(fields)
}

} // verus!
