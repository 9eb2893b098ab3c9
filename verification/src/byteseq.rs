//! Concatenation of byte payloads, at the spec level and the exec level.
//!
//! Variable regions are always the payloads of a value laid back to back,
//! with no gaps and no overlap; these are the shared facts about such
//! concatenations that every codec in the crate leans on.
use vstd::prelude::*;

verus! {

/// All payloads of `items` laid back to back.
pub open spec fn spec_concat(items: Seq<Seq<u8>>) -> Seq<u8>
    decreases items.len(),
{
    if items.len() == 0 {
        Seq::empty()
    } else {
        items[0] + spec_concat(items.drop_first())
    }
}

/// Total length of the first `i` payloads of `items`: the start position of
/// payload `i` within the concatenation.
pub open spec fn spec_prefix_len(items: Seq<Seq<u8>>, i: int) -> int
    decreases i,
{
    if i <= 0 {
        0
    } else {
        spec_prefix_len(items, i - 1) + items[i - 1].len()
    }
}

/// Prefix lengths never decrease.
pub proof fn lemma_prefix_len_nonneg(items: Seq<Seq<u8>>, i: int)
    ensures
        spec_prefix_len(items, i) >= 0,
    decreases i,
{
    if i > 0 {
        lemma_prefix_len_nonneg(items, i - 1);
    }
}

/// A prefix of the items contributes a prefix of the bytes: prefix lengths
/// are monotone in `i`.
pub proof fn lemma_prefix_len_monotonic(items: Seq<Seq<u8>>, i: int, j: int)
    requires
        i <= j,
    ensures
        spec_prefix_len(items, i) <= spec_prefix_len(items, j),
    decreases j - i,
{
    if i < j {
        lemma_prefix_len_monotonic(items, i, j - 1);
    }
}

/// The concatenation is exactly as long as the sum of the payload lengths.
pub proof fn lemma_concat_len(items: Seq<Seq<u8>>)
    ensures
        spec_concat(items).len() == spec_prefix_len(items, items.len() as int),
    decreases items.len(),
{
    if items.len() == 0 {
    } else {
        lemma_concat_len(items.drop_first());
        lemma_prefix_len_shift(items, items.len() as int);
    }
}

/// Dropping the first item shifts every prefix length down by that item's
/// length.
pub proof fn lemma_prefix_len_shift(items: Seq<Seq<u8>>, i: int)
    requires
        1 <= i <= items.len(),
    ensures
        spec_prefix_len(items, i) == items[0].len() + spec_prefix_len(items.drop_first(), i - 1),
    decreases i,
{
    if i == 1 {
        assert(spec_prefix_len(items, 0) == 0);
        assert(spec_prefix_len(items.drop_first(), 0) == 0);
    } else {
        lemma_prefix_len_shift(items, i - 1);
    }
}

/// Payload `i` sits at its prefix length within the concatenation.
pub proof fn lemma_concat_item(items: Seq<Seq<u8>>, i: int)
    requires
        0 <= i < items.len(),
    ensures
        spec_concat(items).subrange(
            spec_prefix_len(items, i),
            spec_prefix_len(items, i + 1),
        ) == items[i],
    decreases i,
{
    lemma_concat_len(items);
    lemma_prefix_len_nonneg(items, i);
    lemma_prefix_len_monotonic(items, i + 1, items.len() as int);
    if i == 0 {
        assert(spec_prefix_len(items, 0) == 0);
        assert(spec_concat(items).subrange(0, items[0].len() as int) =~= items[0]);
    } else {
        lemma_concat_item(items.drop_first(), i - 1);
        lemma_prefix_len_shift(items, i);
        lemma_prefix_len_shift(items, i + 1);
        lemma_concat_len(items.drop_first());
        lemma_prefix_len_monotonic(items.drop_first(), i - 1, i);
        lemma_prefix_len_monotonic(items.drop_first(), i, items.drop_first().len() as int);
        lemma_prefix_len_nonneg(items.drop_first(), i - 1);
        assert(spec_concat(items).subrange(
            spec_prefix_len(items, i),
            spec_prefix_len(items, i + 1),
        ) =~= spec_concat(items.drop_first()).subrange(
            spec_prefix_len(items.drop_first(), i - 1),
            spec_prefix_len(items.drop_first(), i),
        ));
    }
}

/// Appending one item extends the concatenation by that item's bytes.
pub proof fn lemma_concat_push(items: Seq<Seq<u8>>, item: Seq<u8>)
    ensures
        spec_concat(items.push(item)) == spec_concat(items) + item,
    decreases items.len(),
{
    if items.len() == 0 {
        assert(items.push(item).drop_first() =~= items);
        assert(spec_concat(items.push(item)) =~= spec_concat(items) + item);
    } else {
        assert(items.push(item).drop_first() =~= items.drop_first().push(item));
        lemma_concat_push(items.drop_first(), item);
        assert(spec_concat(items.push(item)) =~= spec_concat(items) + item);
    }
}

/// Appends a copy of `other` to `buf`.
pub fn append_bytes(buf: &mut Vec<u8>, other: &[u8])
    ensures
        final(buf)@ == old(buf)@ + other@,
{
    let mut k: usize = 0;
    while k < other.len()
        invariant
            k <= other@.len(),
            buf@ == old(buf)@ + other@.subrange(0, k as int),
        decreases other@.len() - k,
    {
        let byte = *vstd::slice::slice_index_get(other, k);
        buf.push(byte);
        k = k + 1;
        proof {
            assert(other@.subrange(0, k as int) =~= other@.subrange(0, k - 1).push(other@[k - 1]));
        }
    }
    proof {
        assert(other@.subrange(0, other@.len() as int) =~= other@);
    }
}

} // verus!
