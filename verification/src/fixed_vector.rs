//! The fixed-vector codec: fixed-arity homogeneous sequences of fixed-size
//! elements.
//!
//! The arity is part of the type, so nothing of it appears on the wire:
//! the encoding is the elements' encodings back to back, exactly
//! `arity * element_size` bytes, and decoding splits the input into that
//! many equal chunks, rejecting any other input length.
use crate::byteseq::append_bytes;
use crate::byteseq::lemma_concat_item;
use crate::byteseq::lemma_concat_len;
use crate::byteseq::lemma_concat_push;
use crate::byteseq::spec_concat;
use crate::byteseq::spec_prefix_len;
use crate::errors::DecodeError;
use vstd::prelude::*;
use vstd::slice::slice_subrange;
use vstd::slice::slice_to_vec;

verus! {

/// `count` chunks of `n` bytes each, split off the front of `b` in order.
pub open spec fn spec_chunks(b: Seq<u8>, n: int, count: int) -> Seq<Seq<u8>> {
    Seq::new(count as nat, |i: int| b.subrange(n * i, n * i + n))
}

/// True when every element's encoding is exactly `n` bytes.
pub open spec fn spec_uniform(items: Seq<Seq<u8>>, n: int) -> bool {
    forall|i: int| 0 <= i < items.len() ==> (#[trigger] items[i]).len() == n
}

/// With uniform `n`-byte items, item `i` starts at byte `n * i`.
pub proof fn lemma_uniform_prefix_len(items: Seq<Seq<u8>>, n: int, i: int)
    requires
        spec_uniform(items, n),
        0 <= i <= items.len(),
    ensures
        spec_prefix_len(items, i) == n * i,
    decreases i,
{
    if i > 0 {
        lemma_uniform_prefix_len(items, n, i - 1);
        assert(n * i == n * (i - 1) + n) by (nonlinear_arith);
    }
}

/// Round trip: splitting the concatenation of uniform `n`-byte items back
/// into `n`-byte chunks yields the same items.
pub proof fn lemma_chunks_of_concat(items: Seq<Seq<u8>>, n: int)
    requires
        spec_uniform(items, n),
        n >= 0,
    ensures
        spec_concat(items).len() == n * items.len(),
        spec_chunks(spec_concat(items), n, items.len() as int) == items,
{
    lemma_concat_len(items);
    lemma_uniform_prefix_len(items, n, items.len() as int);
    assert forall|i: int| 0 <= i < items.len() implies spec_chunks(
        spec_concat(items),
        n,
        items.len() as int,
    )[i] == items[i] by {
        lemma_concat_item(items, i);
        lemma_uniform_prefix_len(items, n, i);
        lemma_uniform_prefix_len(items, n, i + 1);
        assert(n * (i + 1) == n * i + n) by (nonlinear_arith);
    }
    assert(spec_chunks(spec_concat(items), n, items.len() as int) =~= items);
}

/// Inverse round trip: concatenating the chunks split off a buffer of
/// exact length reproduces that buffer — chunk decoding never invents or
/// drops a byte.
pub proof fn lemma_concat_of_chunks(b: Seq<u8>, n: int, count: int)
    requires
        n >= 1,
        count >= 0,
        b.len() == n * count,
    ensures
        spec_concat(spec_chunks(b, n, count)) == b,
{
    let chunks = spec_chunks(b, n, count);
    assert forall|i: int| 0 <= i < count implies (#[trigger] chunks[i]).len() == n by {
        assert(n * (i + 1) <= n * count) by (nonlinear_arith)
            requires
                i + 1 <= count && n >= 0,
        ;
        assert(n * i >= 0) by (nonlinear_arith)
            requires
                i >= 0 && n >= 0,
        ;
        assert(n * (i + 1) == n * i + n) by (nonlinear_arith);
    }
    lemma_concat_len(chunks);
    lemma_uniform_prefix_len(chunks, n, count);
    assert forall|m: int| 0 <= m < b.len() implies spec_concat(chunks)[m] == b[m] by {
        vstd::arithmetic::div_mod::lemma_fundamental_div_mod(m, n);
        let i = m / n;
        let r = m % n;
        assert(0 <= i < count) by (nonlinear_arith)
            requires
                m == n * i + r && 0 <= r < n && 0 <= m < n * count && n >= 1,
        ;
        lemma_concat_item(chunks, i);
        lemma_uniform_prefix_len(chunks, n, i);
        lemma_uniform_prefix_len(chunks, n, i + 1);
        assert(n * (i + 1) == n * i + n) by (nonlinear_arith);
        assert(n * (i + 1) <= n * count) by (nonlinear_arith)
            requires
                i + 1 <= count && n >= 0,
        ;
        assert(spec_concat(chunks)[m] == spec_concat(chunks).subrange(n * i, n * i + n)[m - n * i]);
        assert(b[m] == b.subrange(n * i, n * i + n)[m - n * i]);
    }
    assert(spec_concat(chunks) =~= b);
}

/// Encodes a fixed vector: the elements' encodings concatenated in order,
/// with nothing else on the wire.
pub fn encode_fixed_vector(items: &Vec<Vec<u8>>, elem_size: usize) -> (out: Vec<u8>)
    requires
        spec_uniform(items.deep_view(), elem_size as int),
    ensures
        out@ == spec_concat(items.deep_view()),
        out@.len() == elem_size * items.deep_view().len(),
{
    let ghost vitems = items.deep_view();
    proof {
        assert(vitems.len() == items@.len());
        lemma_chunks_of_concat(vitems, elem_size as int);
    }
    let mut out: Vec<u8> = Vec::new();
    let mut i: usize = 0;
    while i < items.len()
        invariant
            vitems == items.deep_view(),
            vitems.len() == items@.len(),
            i <= items@.len(),
            out@ == spec_concat(vitems.subrange(0, i as int)),
        decreases items@.len() - i,
    {
        proof {
            assert(vitems[i as int] =~= items@[i as int]@);
            lemma_concat_push(vitems.subrange(0, i as int), vitems[i as int]);
            assert(vitems.subrange(0, i + 1) =~= vitems.subrange(0, i as int).push(
                vitems[i as int],
            ));
        }
        append_bytes(&mut out, items[i].as_slice());
        i = i + 1;
    }
    proof {
        assert(vitems.subrange(0, vitems.len() as int) =~= vitems);
    }
    out
}

/// Splits `b` into `count` chunks of `n` bytes each.
pub(crate) fn chunk_exact(b: &[u8], n: usize, count: usize) -> (items: Vec<Vec<u8>>)
    requires
        n >= 1,
        b@.len() == count * n,
    ensures
        items.deep_view() == spec_chunks(b@, n as int, count as int),
        items@.len() == count,
{
    let mut items: Vec<Vec<u8>> = Vec::new();
    let mut i: usize = 0;
    while i < count
        invariant
            n >= 1,
            b@.len() == count * n,
            i <= count,
            items@.len() == i,
            items.deep_view() == spec_chunks(b@, n as int, count as int).subrange(0, i as int),
        decreases count - i,
    {
        proof {
            // the slice's length is a usize, bounding the chunk arithmetic
            assert(b.len() == b@.len());
            assert((i + 1) * n == i * n + n) by (nonlinear_arith);
            assert(i + 1 <= count ==> (i + 1) * n <= count * n) by (nonlinear_arith);
            assert(i * n >= 0) by (nonlinear_arith)
                requires
                    i >= 0 && n >= 0,
            ;
        }
        let chunk = slice_to_vec(slice_subrange(b, i * n, i * n + n));
        let ghost pre = items.deep_view();
        let ghost chunkv = chunk@;
        items.push(chunk);
        proof {
            assert(items.deep_view() =~~= pre.push(chunkv));
            assert(spec_chunks(b@, n as int, count as int).subrange(0, i + 1) =~= spec_chunks(
                b@,
                n as int,
                count as int,
            ).subrange(0, i as int).push(spec_chunks(b@, n as int, count as int)[i as int]));
            assert(chunkv == b@.subrange((i * n) as int, (i * n + n) as int));
            assert((i * n) as int == (n as int) * (i as int)) by (nonlinear_arith)
                requires
                    (i * n) as int == (i as int) * (n as int),
            ;
            assert(spec_chunks(b@, n as int, count as int)[i as int] == b@.subrange(
                (n as int) * (i as int),
                (n as int) * (i as int) + n,
            ));
            assert(chunkv == spec_chunks(b@, n as int, count as int)[i as int]);
        }
        i = i + 1;
    }
    proof {
        assert(spec_chunks(b@, n as int, count as int).subrange(0, count as int) =~= spec_chunks(
            b@,
            n as int,
            count as int,
        ));
    }
    items
}

/// Decodes a fixed vector of `arity` elements of `elem_size` bytes each:
/// succeeds exactly on inputs of `arity * elem_size` bytes, splitting them
/// into the elements' encodings; any other length is an
/// [`DecodeError::InvalidLength`].
pub fn decode_fixed_vector(b: &[u8], arity: usize, elem_size: usize) -> (r: Result<
    Vec<Vec<u8>>,
    DecodeError,
>)
    requires
        elem_size >= 1,
        arity * elem_size <= usize::MAX,
    ensures
        match r {
            Ok(items) => b@.len() == arity * elem_size && items.deep_view() == spec_chunks(
                b@,
                elem_size as int,
                arity as int,
            ),
            Err(e) => b@.len() != arity * elem_size && e == DecodeError::InvalidLength(
                b@.len() as usize,
            ),
        },
{
    let expected = arity * elem_size;
    if b.len() != expected {
        return Err(DecodeError::InvalidLength(b.len()));
    }
    Ok(chunk_exact(b, elem_size, arity))
}

} // verus!
