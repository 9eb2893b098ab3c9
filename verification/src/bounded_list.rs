//! The bounded-list codec: variable-length homogeneous sequences with a
//! static maximum capacity.
//!
//! The capacity is a property of the type and never appears on the wire.
//! A list of fixed-size elements encodes as their encodings back to back,
//! and decodes by dividing the input length; a list of variable-size
//! elements encodes exactly like a container whose fields are the
//! elements — an offset table as the fixed region, the payloads after —
//! with the element count recovered from the first offset. Decoding
//! rejects element counts over the capacity in either layout.
use crate::classify::spec_fixed_region_len;
use crate::classify::Classification;
use crate::container::decode_container;
use crate::container::encode_container;
use crate::container::spec_container_decode;
use crate::container::spec_container_encoding;
use crate::container::spec_fields_sized;
use crate::container::spec_var_len_upto;
use crate::errors::DecodeError;
use crate::fixed_vector::chunk_exact;
use crate::fixed_vector::encode_fixed_vector;
use crate::fixed_vector::lemma_chunks_of_concat;
use crate::fixed_vector::spec_chunks;
use crate::fixed_vector::spec_uniform;
use crate::byteseq::spec_concat;
use crate::byteseq::spec_prefix_len;
use crate::offsets::read_offset_at_pos;
use crate::offsets::spec_offset_at_pos;
use crate::offsets::BYTES_PER_LENGTH_OFFSET;
use vstd::prelude::*;

verus! {

/// The schema of a list of `k` variable-size elements: one variable field
/// per element.
pub open spec fn spec_all_var_schema(k: int) -> Seq<Classification> {
    Seq::new(k as nat, |i: int| Classification::Variable)
}

/// The fixed region of an all-variable schema is one offset per element.
pub proof fn lemma_all_var_fixed_len(k: int)
    requires
        k >= 0,
    ensures
        spec_fixed_region_len(spec_all_var_schema(k)) == 4 * k,
    decreases k,
{
    if k == 0 {
    } else {
        assert(spec_all_var_schema(k).drop_first() =~= spec_all_var_schema(k - 1));
        lemma_all_var_fixed_len(k - 1);
    }
}

/// Over an all-variable schema, the accumulated variable length is the
/// plain prefix length of the items.
pub proof fn lemma_all_var_len_upto(items: Seq<Seq<u8>>, i: int)
    requires
        0 <= i <= items.len(),
    ensures
        spec_var_len_upto(spec_all_var_schema(items.len() as int), items, i) == spec_prefix_len(
            items,
            i,
        ),
    decreases i,
{
    if i > 0 {
        lemma_all_var_len_upto(items, i - 1);
    }
}

/// What a bounded list encodes to: for fixed-size elements the
/// concatenation of their encodings, for variable-size elements the
/// container encoding with each element as one field.
pub open spec fn spec_bounded_list_encoding(elem: Classification, items: Seq<Seq<u8>>) -> Seq<
    u8,
> {
    match elem {
        Classification::Fixed(_) => spec_concat(items),
        Classification::Variable => spec_container_encoding(
            spec_all_var_schema(items.len() as int),
            items,
        ),
    }
}

/// What decoding a bounded list yields: the elements' encodings, or the
/// first fault found.
///
/// For fixed-size elements the input length must divide evenly and the
/// quotient may not exceed the capacity. For variable-size elements an
/// empty input is the empty list; otherwise the first offset must be a
/// whole number of offsets and leave room for at least one, the element
/// count it implies may not exceed the capacity, and the rest is container
/// decoding under the all-variable schema.
pub open spec fn spec_bounded_list_decode(
    max_len: usize,
    elem: Classification,
    b: Seq<u8>,
) -> Result<Seq<Seq<u8>>, DecodeError> {
    match elem {
        Classification::Fixed(n) => {
            if (b.len() as int) % (n as int) != 0 {
                Err(DecodeError::InvalidLength(b.len() as usize))
            } else if (b.len() as int) / (n as int) > max_len {
                Err(DecodeError::TooManyItems(((b.len() as int) / (n as int)) as usize))
            } else {
                Ok(spec_chunks(b, n as int, (b.len() as int) / (n as int)))
            }
        },
        Classification::Variable => {
            if b.len() == 0 {
                Ok(Seq::empty())
            } else if b.len() < 4 {
                Err(DecodeError::InvalidFixedPortionLength(b.len() as usize))
            } else {
                let f = spec_offset_at_pos(b, 0) as int;
                if f % 4 != 0 || f < 4 {
                    Err(DecodeError::InvalidFixedPortionLength(f as usize))
                } else if f / 4 > max_len {
                    Err(DecodeError::TooManyItems((f / 4) as usize))
                } else {
                    spec_container_decode(spec_all_var_schema(f / 4), b)
                }
            }
        },
    }
}

/// An ordered sequence of encoded elements with a static maximum length.
/// The capacity and the element classification are fixed when the list is
/// created; elements are refused, never truncated, when they do not fit.
#[derive(Debug, Clone, PartialEq)]
pub struct BoundedList {
    max_len: usize,
    elem: Classification,
    items: Vec<Vec<u8>>,
}

impl BoundedList {
    /// The list's capacity: the largest element count it may hold.
    pub closed spec fn spec_max(self) -> usize {
        self.max_len
    }

    /// The classification of the list's element type.
    pub closed spec fn spec_elem(self) -> Classification {
        self.elem
    }

    /// The encodings of the list's elements, in order.
    pub closed spec fn spec_items(self) -> Seq<Seq<u8>> {
        self.items.deep_view()
    }

    /// Structural validity, established by every constructor: the element
    /// count never exceeds the capacity, and fixed-size elements all have
    /// their stated size, which is at least one byte.
    pub open spec fn wf(self) -> bool {
        &&& self.spec_items().len() <= self.spec_max()
        &&& (self.spec_elem() matches Classification::Fixed(n) ==> n >= 1 && spec_uniform(
            self.spec_items(),
            n as int,
        ))
    }

    /// An empty list with the given capacity and element classification.
    pub fn new(max_len: usize, elem: Classification) -> (l: Self)
        requires
            elem matches Classification::Fixed(n) ==> n >= 1,
        ensures
            l.wf(),
            l.spec_max() == max_len,
            l.spec_elem() == elem,
            l.spec_items() == Seq::<Seq<u8>>::empty(),
    {
        let l = BoundedList { max_len, elem, items: Vec::new() };
        proof {
            assert(l.spec_items() =~= Seq::<Seq<u8>>::empty());
        }
        l
    }

    /// Number of elements in the list.
    pub fn len(&self) -> (n: usize)
        ensures
            n == self.spec_items().len(),
    {
        self.items.len()
    }

    /// The encoding of element `i`.
    pub fn item(&self, i: usize) -> (s: &Vec<u8>)
        requires
            i < self.spec_items().len(),
        ensures
            s@ == self.spec_items()[i as int],
    {
        proof {
            assert(self.spec_items()[i as int] =~= self.items@[i as int]@);
        }
        &self.items[i]
    }

    /// Appends one element's encoding. Refuses — leaving the list
    /// unchanged — an element that would exceed the capacity, or whose
    /// length does not match a fixed-size element type.
    pub fn push(&mut self, item: Vec<u8>) -> (r: Result<(), DecodeError>)
        requires
            old(self).wf(),
        ensures
            final(self).wf(),
            final(self).spec_max() == old(self).spec_max(),
            final(self).spec_elem() == old(self).spec_elem(),
            ({
                if old(self).spec_items().len() >= old(self).spec_max() {
                    &&& r == Err::<(), DecodeError>(
                        DecodeError::TooManyItems(old(self).spec_max()),
                    )
                    &&& final(self).spec_items() == old(self).spec_items()
                } else if (old(self).spec_elem() matches Classification::Fixed(n) && item@.len()
                    != n) {
                    &&& r == Err::<(), DecodeError>(DecodeError::InvalidLength(item@.len() as usize))
                    &&& final(self).spec_items() == old(self).spec_items()
                } else {
                    &&& r == Ok::<(), DecodeError>(())
                    &&& final(self).spec_items() == old(self).spec_items().push(item@)
                }
            }),
    {
        if self.items.len() >= self.max_len {
            return Err(DecodeError::TooManyItems(self.max_len));
        }
        match self.elem {
            Classification::Fixed(n) => {
                if item.len() != n {
                    return Err(DecodeError::InvalidLength(item.len()));
                }
            },
            Classification::Variable => {},
        }
        let ghost pre = self.items.deep_view();
        let ghost itemv = item@;
        self.items.push(item);
        proof {
            assert(self.items.deep_view() =~~= pre.push(itemv));
        }
        Ok(())
    }

    /// Appends this list's encoding to nothing — it builds and returns the
    /// encoding: element encodings back to back for fixed-size elements,
    /// the container layout (offset table, then payloads) for
    /// variable-size elements.
    pub fn encode(&self) -> (out: Vec<u8>)
        requires
            self.wf(),
            self.spec_elem() is Variable ==> 4 * self.spec_items().len() + spec_prefix_len(
                self.spec_items(),
                self.spec_items().len() as int,
            ) <= u32::MAX,
        ensures
            out@ == spec_bounded_list_encoding(self.spec_elem(), self.spec_items()),
    {
        match self.elem {
            Classification::Fixed(n) => encode_fixed_vector(&self.items, n),
            Classification::Variable => {
                let k = self.items.len();
                let ghost vitems = self.items.deep_view();
                let schema = all_var_schema_vec(k);
                proof {
                    assert(vitems.len() == k);
                    lemma_all_var_fixed_len(k as int);
                    lemma_all_var_len_upto(vitems, k as int);
                    crate::byteseq::lemma_prefix_len_nonneg(vitems, k as int);
                }
                encode_container(&schema, &self.items)
            },
        }
    }

    /// Decodes a bounded list from untrusted bytes, yielding exactly what
    /// [`spec_bounded_list_decode`] states for this capacity, element
    /// classification and input.
    pub fn decode(max_len: usize, elem: Classification, b: &[u8]) -> (r: Result<
        BoundedList,
        DecodeError,
    >)
        requires
            elem matches Classification::Fixed(n) ==> n >= 1,
        ensures
            match r {
                Ok(l) => l.wf() && l.spec_max() == max_len && l.spec_elem() == elem
                    && spec_bounded_list_decode(max_len, elem, b@) == Ok::<
                    Seq<Seq<u8>>,
                    DecodeError,
                >(l.spec_items()),
                Err(e) => spec_bounded_list_decode(max_len, elem, b@) == Err::<
                    Seq<Seq<u8>>,
                    DecodeError,
                >(e),
            },
    {
        match elem {
            Classification::Fixed(n) => {
                if b.len() % n != 0 {
                    return Err(DecodeError::InvalidLength(b.len()));
                }
                let count = b.len() / n;
                if count > max_len {
                    return Err(DecodeError::TooManyItems(count));
                }
                proof {
                    vstd::arithmetic::div_mod::lemma_fundamental_div_mod(b@.len() as int, n as int);
                    assert(b@.len() == (n as int) * (count as int));
                    assert((count as int) * (n as int) == (n as int) * (count as int)) by (
                    nonlinear_arith);
                }
                let items = chunk_exact(b, n, count);
                let l = BoundedList { max_len, elem, items };
                proof {
                    assert forall|i: int| 0 <= i < l.spec_items().len() implies (
                    #[trigger] l.spec_items()[i]).len() == n by {
                        let ni = n as int;
                        assert(ni * (i + 1) <= ni * (count as int)) by (nonlinear_arith)
                            requires
                                i + 1 <= count && ni >= 0,
                        ;
                        assert(ni * i >= 0) by (nonlinear_arith)
                            requires
                                i >= 0 && ni >= 0,
                        ;
                        assert(ni * (i + 1) == ni * i + ni) by (nonlinear_arith);
                        assert(l.spec_items()[i] == b@.subrange(ni * i, ni * i + ni));
                    }
                }
                Ok(l)
            },
            Classification::Variable => {
                if b.len() == 0 {
                    let l = BoundedList { max_len, elem, items: Vec::new() };
                    proof {
                        assert(l.spec_items() =~= Seq::<Seq<u8>>::empty());
                    }
                    return Ok(l);
                }
                if b.len() < BYTES_PER_LENGTH_OFFSET {
                    return Err(DecodeError::InvalidFixedPortionLength(b.len()));
                }
                let first = read_offset_at_pos(b, 0);
                if first % BYTES_PER_LENGTH_OFFSET != 0 || first < BYTES_PER_LENGTH_OFFSET {
                    return Err(DecodeError::InvalidFixedPortionLength(first));
                }
                let k = first / BYTES_PER_LENGTH_OFFSET;
                if k > max_len {
                    return Err(DecodeError::TooManyItems(k));
                }
                let schema = all_var_schema_vec(k);
                proof {
                    lemma_all_var_fixed_len(k as int);
                }
                match decode_container(&schema, b) {
                    Err(e) => Err(e),
                    Ok(items) => {
                        let l = BoundedList { max_len, elem, items };
                        proof {
                            assert(l.spec_items().len() == k);
                        }
                        Ok(l)
                    },
                }
            },
        }
    }
}

/// The all-variable schema of `k` elements, as a runtime value.
fn all_var_schema_vec(k: usize) -> (s: Vec<Classification>)
    ensures
        s@ == spec_all_var_schema(k as int),
{
    let mut s: Vec<Classification> = Vec::new();
    let mut i: usize = 0;
    while i < k
        invariant
            i <= k,
            s@ == spec_all_var_schema(i as int),
        decreases k - i,
    {
        s.push(Classification::Variable);
        proof {
            assert(s@ =~= spec_all_var_schema(i + 1));
        }
        i = i + 1;
    }
    s
}

/// Inverse round trip: whenever bounded-list decoding succeeds on some
/// input, re-encoding the decoded elements reproduces that input byte for
/// byte, in either element layout.
pub proof fn lemma_bounded_list_decode_encode(max_len: usize, elem: Classification, b: Seq<u8>)
    requires
        elem matches Classification::Fixed(n) ==> n >= 1,
        spec_bounded_list_decode(max_len, elem, b) is Ok,
    ensures
        spec_bounded_list_encoding(
            elem,
            spec_bounded_list_decode(max_len, elem, b)->Ok_0,
        ) == b,
{
    let items = spec_bounded_list_decode(max_len, elem, b)->Ok_0;
    match elem {
        Classification::Fixed(n) => {
            let count = (b.len() as int) / (n as int);
            vstd::arithmetic::div_mod::lemma_fundamental_div_mod(b.len() as int, n as int);
            assert(b.len() == (n as int) * count);
            crate::fixed_vector::lemma_concat_of_chunks(b, n as int, count);
        },
        Classification::Variable => {
            if b.len() == 0 {
                assert(items =~= Seq::<Seq<u8>>::empty());
                assert(spec_all_var_schema(0) =~= Seq::<Classification>::empty());
                assert(spec_bounded_list_encoding(elem, items) =~= b);
            } else {
                let f = spec_offset_at_pos(b, 0) as int;
                let k = f / 4;
                crate::container::lemma_container_decode_encode(spec_all_var_schema(k), b);
                assert(items.len() == k);
            }
        },
    }
}

/// Capacity round trip for variable-size elements: a list of up to
/// `max_len` elements whose encoding fits the offset width decodes from
/// its own encoding, to the same elements.
pub proof fn lemma_bounded_var_roundtrip(items: Seq<Seq<u8>>, max_len: usize)
    requires
        items.len() <= max_len,
        4 * items.len() + spec_prefix_len(items, items.len() as int) <= u32::MAX,
    ensures
        spec_bounded_list_decode(
            max_len,
            Classification::Variable,
            spec_bounded_list_encoding(Classification::Variable, items),
        ) == Ok::<Seq<Seq<u8>>, DecodeError>(items),
{
    let k = items.len() as int;
    let s = spec_all_var_schema(k);
    let b = spec_bounded_list_encoding(Classification::Variable, items);
    lemma_all_var_fixed_len(k);
    lemma_all_var_len_upto(items, k);
    crate::byteseq::lemma_prefix_len_nonneg(items, k);
    assert(spec_fields_sized(s, items));
    if k == 0 {
        assert(b =~= Seq::<u8>::empty());
        assert(items =~= Seq::<Seq<u8>>::empty());
    } else {
        crate::container::lemma_container_roundtrip(s, items);
        crate::container::lemma_fixed_region_upto_len(s, items, 4 * k, k);
        assert(s.subrange(0, k) =~= s);
        crate::container::lemma_var_region_upto_len(s, items, k);
        assert(b.len() == 4 * k + spec_prefix_len(items, k));
        crate::container::lemma_read_back_offset(s, items, 0);
        assert(s.subrange(0, 0) =~= Seq::<Classification>::empty());
        assert(crate::container::spec_field_pos(s, 0) == 0);
        assert(spec_var_len_upto(s, items, 0) == 0);
        assert(spec_offset_at_pos(b, 0) as int == 4 * k);
        vstd::arithmetic::div_mod::lemma_fundamental_div_mod_converse(4 * k, 4, k, 0);
        assert((4 * k) % 4 == 0 && (4 * k) / 4 == k);
    }
}

/// Capacity round trip for fixed-size elements: a list of up to `max_len`
/// uniform elements decodes from its own encoding, to the same elements.
pub proof fn lemma_bounded_fixed_roundtrip(items: Seq<Seq<u8>>, n: usize, max_len: usize)
    requires
        n >= 1,
        spec_uniform(items, n as int),
        items.len() <= max_len,
    ensures
        spec_bounded_list_decode(max_len, Classification::Fixed(n), spec_concat(items)) == Ok::<
            Seq<Seq<u8>>,
            DecodeError,
        >(items),
{
    lemma_chunks_of_concat(items, n as int);
    let b = spec_concat(items);
    let k = items.len() as int;
    assert(b.len() == (n as int) * k);
    assert((n as int) * k % (n as int) == 0 && (n as int) * k / (n as int) == k) by (
    nonlinear_arith)
        requires
            n >= 1 && k >= 0,
    ;
}

} // verus!
