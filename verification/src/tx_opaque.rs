//! The opaque blob list: a bounded collection of variable-length byte blobs
//! (for example raw transactions) that owns one contiguous byte buffer and
//! an index of item start offsets into it, instead of materializing the
//! items.
//!
//! On the wire the list is an offset table (one little-endian offset per
//! item, `BYTES_PER_LENGTH_OFFSET` bytes each) followed by the item
//! payloads back to back. The stored offsets are normalized to the start of
//! the value region; the table entries on the wire are the same offsets
//! shifted up by the table's own length. An empty list encodes as an empty
//! byte sequence.
//!
//! Decoding trusts nothing: the offset table of an arbitrary input is
//! validated — table length, alignment, monotonicity, bounds and item size
//! caps — before a single payload byte is used, and every check is part of
//! this module's specification.
use crate::byteseq::append_bytes;
use crate::byteseq::spec_concat;
use crate::byteseq::spec_prefix_len;
use crate::errors::DecodeError;
use crate::offsets::lemma_offset_at_bytes;
use crate::offsets::lemma_offset_bytes_roundtrip;
use crate::offsets::read_offset_at;
use crate::offsets::spec_offset_at;
use crate::offsets::spec_offset_bytes;
use crate::offsets::write_offset;
use crate::offsets::BYTES_PER_LENGTH_OFFSET;
use vstd::prelude::*;
use vstd::slice::slice_subrange;
use vstd::slice::slice_to_vec;

verus! {

/// Largest number of items a decoded list may hold.
pub const MAX_TX_COUNT: usize = 1048576;

/// Largest byte length a single item may have.
pub const MAX_TX_BYTES: usize = 1073741824;

/// A list of opaque byte blobs: one owned buffer of all payloads plus the
/// start offset of each item within it.
#[derive(Debug, Clone, PartialEq)]
pub struct TxOpaque {
    offsets: Vec<usize>,
    bytes: Vec<u8>,
}

/// A lazy cursor over the items of a [`TxOpaque`], yielding each item as a
/// borrowed slice of the list's buffer.
pub struct TransactionsOpaqueIter<'a> {
    offsets: &'a [usize],
    bytes: &'a [u8],
}

impl TxOpaque {
    /// The item start offsets, relative to the start of the value buffer.
    pub closed spec fn offs(self) -> Seq<usize> {
        self.offsets@
    }

    /// The value buffer: all item payloads back to back.
    pub closed spec fn data(self) -> Seq<u8> {
        self.bytes@
    }

    /// One past the last byte of item `i`: the next item's start, or the
    /// end of the buffer for the last item.
    pub open spec fn spec_item_end(self, i: int) -> int {
        if i + 1 < self.offs().len() {
            self.offs()[i + 1] as int
        } else {
            self.data().len() as int
        }
    }

    /// The payload of item `i`.
    pub open spec fn spec_item(self, i: int) -> Seq<u8>
        recommends
            0 <= i < self.offs().len(),
            self.wf(),
    {
        self.data().subrange(self.offs()[i] as int, self.spec_item_end(i))
    }

    /// All item payloads, in order.
    pub open spec fn spec_items(self) -> Seq<Seq<u8>> {
        Seq::new(self.offs().len(), |i: int| self.spec_item(i))
    }

    /// Structural validity, established by every constructor: the item
    /// count is capped, the first item starts at the beginning of the
    /// buffer, offsets are non-decreasing and in bounds, no item exceeds
    /// the per-item byte cap, every wire offset fits in its fixed width,
    /// and an empty list owns an empty buffer.
    pub open spec fn wf(self) -> bool {
        &&& self.offs().len() <= MAX_TX_COUNT
        &&& (self.offs().len() > 0 ==> self.offs()[0] == 0)
        &&& (self.offs().len() == 0 ==> self.data().len() == 0)
        &&& (forall|i: int|
            0 <= i < self.offs().len() ==> #[trigger] self.offs()[i] <= self.data().len())
        &&& (forall|i: int|
            0 <= i && i + 1 < self.offs().len() ==> #[trigger] self.offs()[i] <= self.offs()[i
                + 1])
        &&& (forall|i: int|
            0 <= i < self.offs().len() ==> self.spec_item_end(i) - #[trigger] self.offs()[i]
                <= MAX_TX_BYTES)
        &&& (forall|i: int|
            0 <= i < self.offs().len() ==> #[trigger] self.offs()[i] + 4 * self.offs().len()
                <= u32::MAX)
    }
}

/// The wire form of an offset table whose stored offsets are `offs`, each
/// shifted up by `shift` (the length of the table itself) on the way out.
pub open spec fn spec_table_bytes(offs: Seq<usize>, shift: int) -> Seq<u8>
    decreases offs.len(),
{
    if offs.len() == 0 {
        Seq::empty()
    } else {
        spec_offset_bytes((offs[0] + shift) as usize) + spec_table_bytes(offs.drop_first(), shift)
    }
}

/// The full encoding of a list with stored offsets `offs` and value buffer
/// `data`: the shifted offset table followed by the buffer.
pub open spec fn spec_encoding(offs: Seq<usize>, data: Seq<u8>) -> Seq<u8> {
    spec_table_bytes(offs, 4 * offs.len() as int) + data
}

/// The `i`th wire offset of `b`, as an unbounded integer.
pub open spec fn spec_raw_offset(b: Seq<u8>, i: int) -> int {
    spec_offset_at(b, i) as int
}

/// The fault, if any, that decoding finds at item `i` of the table at the
/// front of `b`, where `f` is the table length in bytes and `k` the item
/// count. In order: the item's own wire offset may not point into the
/// table; nor may the next item's (its normalized value is this item's
/// end); the item may not end before it starts, nor exceed the per-item
/// cap, nor start past the end of the value region.
pub open spec fn spec_step_err(b: Seq<u8>, f: int, k: int, i: int) -> Option<DecodeError> {
    let raw = spec_raw_offset(b, i);
    if raw < f {
        Some(DecodeError::OffsetIntoFixedPortion(raw as usize))
    } else if i + 1 < k && spec_raw_offset(b, i + 1) < f {
        Some(DecodeError::OffsetIntoFixedPortion(spec_raw_offset(b, i + 1) as usize))
    } else {
        let norm = raw - f;
        let end = if i + 1 < k {
            spec_raw_offset(b, i + 1) - f
        } else {
            b.len() - f
        };
        if end < norm {
            Some(DecodeError::OffsetsDecreasing(norm as usize))
        } else if end - norm > MAX_TX_BYTES {
            Some(DecodeError::ItemTooLarge((end - norm) as usize))
        } else if norm > b.len() - f {
            Some(DecodeError::OffsetOutOfBounds(norm as usize))
        } else {
            None
        }
    }
}

/// The normalized start offsets of the first `i` items of the table at the
/// front of `b`, where `f` is the table length in bytes.
pub open spec fn spec_norms(b: Seq<u8>, f: int, i: int) -> Seq<usize> {
    Seq::new(i as nat, |j: int| (spec_raw_offset(b, j) - f) as usize)
}

/// Decoding of items `i..k` of the table at the front of `b`: the
/// normalized start offsets of those items, or the fault of the first item
/// that fails a check.
pub open spec fn spec_item_offsets(b: Seq<u8>, f: int, k: int, i: int) -> Result<
    Seq<usize>,
    DecodeError,
>
    decreases k - i,
{
    if i >= k {
        Ok(Seq::empty())
    } else {
        match spec_step_err(b, f, k, i) {
            Some(e) => Err(e),
            None => match spec_item_offsets(b, f, k, i + 1) {
                Ok(rest) => Ok(seq![(spec_raw_offset(b, i) - f) as usize] + rest),
                Err(e) => Err(e),
            },
        }
    }
}

/// What decoding an arbitrary byte sequence yields: the stored offsets and
/// value buffer of the resulting list, or the first fault found.
///
/// An empty input is the empty list. Otherwise the first wire offset fixes
/// where the value region starts, so it must be a whole number of offsets,
/// leave room for at least one, and lie within the buffer; an input shorter
/// than one offset cannot state that and is rejected outright. The item
/// count read off the table is capped, and then every table entry is
/// checked as [`spec_step_err`] describes.
pub open spec fn spec_decode(b: Seq<u8>) -> Result<(Seq<usize>, Seq<u8>), DecodeError> {
    if b.len() == 0 {
        Ok((Seq::empty(), Seq::empty()))
    } else if b.len() < 4 {
        Err(DecodeError::InvalidFixedPortionLength(b.len() as usize))
    } else {
        let f = spec_raw_offset(b, 0);
        if f % 4 != 0 || f < 4 {
            Err(DecodeError::InvalidFixedPortionLength(f as usize))
        } else if f > b.len() {
            Err(DecodeError::OffsetOutOfBounds(f as usize))
        } else if f / 4 > MAX_TX_COUNT {
            Err(DecodeError::TooManyItems((f / 4) as usize))
        } else {
            match spec_item_offsets(b, f, f / 4, 0) {
                Ok(offs) => Ok((offs, b.subrange(f, b.len() as int))),
                Err(e) => Err(e),
            }
        }
    }
}

impl Default for TxOpaque {
    /// The empty list: no items, no bytes.
    fn default() -> (t: Self)
        ensures
            t.offs() == Seq::<usize>::empty(),
            t.data() == Seq::<u8>::empty(),
            t.wf(),
    {
        TxOpaque { offsets: Vec::new(), bytes: Vec::new() }
    }
}

impl TxOpaque {
    /// Byte length of this list's offset table on the wire.
    fn len_offset_bytes(&self) -> (n: usize)
        requires
            self.wf(),
        ensures
            n == 4 * self.offs().len(),
    {
        self.offsets.len() * BYTES_PER_LENGTH_OFFSET
    }

    /// The list's encoded length is never known from its type alone.
    pub fn is_ssz_static() -> (r: bool)
        ensures
            !r,
    {
        false
    }

    /// Width this list occupies in the fixed region of an enclosing
    /// container: one offset.
    pub fn ssz_fixed_len() -> (n: usize)
        ensures
            n == BYTES_PER_LENGTH_OFFSET,
    {
        BYTES_PER_LENGTH_OFFSET
    }

    /// Largest encoded byte length any list of this type may reach: the
    /// per-item byte cap times the item count cap.
    pub fn ssz_max_len() -> (n: u64)
        ensures
            n == (MAX_TX_BYTES as u64) * (MAX_TX_COUNT as u64),
    {
        proof {
            assert((1073741824 as u64) * (1048576 as u64) == 0x4000000000000) by (nonlinear_arith);
        }
        (MAX_TX_BYTES as u64) * (MAX_TX_COUNT as u64)
    }

    /// Exact byte length of this list's encoding: the offset table plus the
    /// value buffer, saturating at the machine's limit.
    pub fn ssz_bytes_len(&self) -> (n: usize)
        requires
            self.wf(),
        ensures
            4 * self.offs().len() + self.data().len() <= usize::MAX ==> n == 4 * self.offs().len()
                + self.data().len(),
            4 * self.offs().len() + self.data().len() > usize::MAX ==> n == usize::MAX,
    {
        self.len_offset_bytes().saturating_add(self.bytes.len())
    }

    /// Writes this list's slot in the fixed region of an enclosing
    /// container: the current variable-region offset. Advances that offset
    /// by this list's full encoded length.
    pub fn ssz_write_fixed(&self, offset: &mut usize, buf: &mut Vec<u8>)
        requires
            self.wf(),
            *old(offset) <= u32::MAX,
            *old(offset) + 4 * self.offs().len() + self.data().len() <= usize::MAX,
        ensures
            final(buf)@ == old(buf)@ + spec_offset_bytes(*old(offset)),
            *final(offset) == *old(offset) + 4 * self.offs().len() + self.data().len(),
    {
        write_offset(buf, *offset);
        *offset = *offset + self.ssz_bytes_len();
    }

    /// Writes this list's payload into the variable region of an enclosing
    /// container: its full encoding.
    pub fn ssz_write_variable(&self, buf: &mut Vec<u8>)
        requires
            self.wf(),
        ensures
            final(buf)@ == old(buf)@ + spec_encoding(self.offs(), self.data()),
    {
        self.ssz_write(buf);
    }

    /// Appends this list's full encoding to `buf`: each stored offset
    /// shifted by the table length, then the value buffer.
    pub fn ssz_write(&self, buf: &mut Vec<u8>)
        requires
            self.wf(),
        ensures
            final(buf)@ == old(buf)@ + spec_encoding(self.offs(), self.data()),
    {
        let len_offset_bytes = self.len_offset_bytes();
        let ghost shift = 4 * self.offs().len() as int;
        let mut i: usize = 0;
        while i < self.offsets.len()
            invariant
                self.wf(),
                len_offset_bytes == shift,
                shift == 4 * self.offs().len() as int,
                i <= self.offs().len(),
                buf@ == old(buf)@ + spec_table_bytes(self.offs().subrange(0, i as int), shift),
            decreases self.offs().len() - i,
        {
            let off = self.offsets[i];
            write_offset(buf, off + len_offset_bytes);
            proof {
                lemma_table_bytes_push(self.offs().subrange(0, i as int), off, shift);
                assert(self.offs().subrange(0, i + 1) =~= self.offs().subrange(0, i as int).push(
                    off,
                ));
            }
            i = i + 1;
        }
        proof {
            assert(self.offs().subrange(0, self.offs().len() as int) =~= self.offs());
        }
        append_bytes(buf, self.bytes.as_slice());
    }
}

impl TxOpaque {
    /// Decodes a list from untrusted bytes, validating the offset table —
    /// alignment, bounds, monotonicity and size caps — before touching any
    /// payload byte. Returns exactly what [`spec_decode`] states for this
    /// input: the decoded list, or the first fault found, with nothing
    /// partial. The result owns a copy of the value bytes; nothing borrows
    /// from `input` after the call.
    pub fn ssz_read(input: &[u8]) -> (r: Result<TxOpaque, DecodeError>)
        ensures
            match r {
                Ok(t) => t.wf() && spec_decode(input@) == Ok::<(Seq<usize>, Seq<u8>), DecodeError>(
                    (t.offs(), t.data()),
                ),
                Err(e) => spec_decode(input@) == Err::<(Seq<usize>, Seq<u8>), DecodeError>(e),
            },
    {
        let n = input.len();
        if n == 0 {
            return Ok(TxOpaque::default());
        }
        if n < BYTES_PER_LENGTH_OFFSET {
            return Err(DecodeError::InvalidFixedPortionLength(n));
        }
        let first_offset = read_offset_at(input, 0);
        if first_offset % BYTES_PER_LENGTH_OFFSET != 0 || first_offset < BYTES_PER_LENGTH_OFFSET {
            return Err(DecodeError::InvalidFixedPortionLength(first_offset));
        }
        if first_offset > n {
            return Err(DecodeError::OffsetOutOfBounds(first_offset));
        }
        let num_items = first_offset / BYTES_PER_LENGTH_OFFSET;
        if num_items > MAX_TX_COUNT {
            return Err(DecodeError::TooManyItems(num_items));
        }
        let value_len = n - first_offset;
        let ghost b = input@;
        let ghost f = first_offset as int;
        let ghost k = num_items as int;
        let mut offsets: Vec<usize> = Vec::new();
        let mut i: usize = 0;
        while i < num_items
            invariant
                b == input@,
                f == first_offset as int,
                k == num_items as int,
                0 <= i <= k,
                4 <= f <= b.len(),
                f % 4 == 0,
                k == f / 4,
                k <= MAX_TX_COUNT,
                value_len == b.len() - f,
                n == b.len(),
                f == spec_raw_offset(b, 0),
                forall|j: int| 0 <= j < i ==> #[trigger] spec_step_err(b, f, k, j) is None,
                offsets@ == spec_norms(b, f, i as int),
            decreases k - i,
        {
            let raw = read_offset_at(input, i);
            if raw < first_offset {
                proof {
                    lemma_item_offsets_prefix(b, f, k, i as int);
                }
                return Err(DecodeError::OffsetIntoFixedPortion(raw));
            }
            let norm = raw - first_offset;
            let end: usize;
            if i + 1 < num_items {
                let raw_next = read_offset_at(input, i + 1);
                if raw_next < first_offset {
                    proof {
                        lemma_item_offsets_prefix(b, f, k, i as int);
                    }
                    return Err(DecodeError::OffsetIntoFixedPortion(raw_next));
                }
                end = raw_next - first_offset;
            } else {
                end = value_len;
            }
            if end < norm {
                proof {
                    lemma_item_offsets_prefix(b, f, k, i as int);
                }
                return Err(DecodeError::OffsetsDecreasing(norm));
            }
            if end - norm > MAX_TX_BYTES {
                proof {
                    lemma_item_offsets_prefix(b, f, k, i as int);
                }
                return Err(DecodeError::ItemTooLarge(end - norm));
            }
            if norm > value_len {
                proof {
                    lemma_item_offsets_prefix(b, f, k, i as int);
                }
                return Err(DecodeError::OffsetOutOfBounds(norm));
            }
            proof {
                assert(spec_step_err(b, f, k, i as int) is None);
                assert(offsets@.push(norm) =~= spec_norms(b, f, i + 1));
            }
            offsets.push(norm);
            i = i + 1;
        }
        let value_slice = slice_subrange(input, first_offset, n);
        let bytes = slice_to_vec(value_slice);
        let t = TxOpaque { offsets, bytes };
        proof {
            lemma_item_offsets_prefix(b, f, k, k);
            assert(spec_item_offsets(b, f, k, k) == Ok::<Seq<usize>, DecodeError>(Seq::empty()));
            assert(spec_norms(b, f, k) + Seq::<usize>::empty() =~= spec_norms(b, f, k));
            lemma_decode_result_wf(b, f, k, t);
        }
        Ok(t)
    }
}

/// A list assembled from a fully validated offset table is well-formed.
proof fn lemma_decode_result_wf(b: Seq<u8>, f: int, k: int, t: TxOpaque)
    requires
        4 <= f <= b.len(),
        f % 4 == 0,
        k == f / 4,
        k <= MAX_TX_COUNT,
        f == spec_raw_offset(b, 0),
        forall|j: int| 0 <= j < k ==> #[trigger] spec_step_err(b, f, k, j) is None,
        t.offs() == spec_norms(b, f, k),
        t.data() == b.subrange(f, b.len() as int),
    ensures
        t.wf(),
{
    let norms = spec_norms(b, f, k);
    assert(k >= 1);
    assert forall|j: int| 0 <= j < k implies {
        &&& f <= spec_raw_offset(b, j)
        &&& #[trigger] norms[j] == spec_raw_offset(b, j) - f
        &&& norms[j] <= t.data().len()
        &&& t.spec_item_end(j) - norms[j] <= MAX_TX_BYTES
        &&& (j + 1 < k ==> norms[j] <= norms[j + 1])
        &&& norms[j] + 4 * k <= u32::MAX
    } by {
        assert(spec_step_err(b, f, k, j) is None);
        if j + 1 < k {
            assert(spec_step_err(b, f, k, j + 1) is None);
        }
    }
    assert(norms[0] == 0);
    assert(t.offs().len() == k);
    assert(forall|j: int| 0 <= j < t.offs().len() ==> #[trigger] t.offs()[j] <= t.data().len());
    assert(forall|j: int|
        0 <= j && j + 1 < t.offs().len() ==> #[trigger] t.offs()[j] <= t.offs()[j + 1]);
    assert(forall|j: int|
        0 <= j < t.offs().len() ==> t.spec_item_end(j) - #[trigger] t.offs()[j] <= MAX_TX_BYTES);
    assert(forall|j: int|
        0 <= j < t.offs().len() ==> #[trigger] t.offs()[j] + 4 * t.offs().len() <= u32::MAX);
}

/// Appending one stored offset extends the wire table by that offset's
/// shifted wire form.
pub proof fn lemma_table_bytes_push(offs: Seq<usize>, off: usize, shift: int)
    ensures
        spec_table_bytes(offs.push(off), shift) == spec_table_bytes(offs, shift)
            + spec_offset_bytes((off + shift) as usize),
    decreases offs.len(),
{
    if offs.len() == 0 {
        assert(offs.push(off).drop_first() =~= offs);
        assert(spec_table_bytes(offs.push(off), shift) =~= spec_table_bytes(offs, shift)
            + spec_offset_bytes((off + shift) as usize));
    } else {
        assert(offs.push(off).drop_first() =~= offs.drop_first().push(off));
        lemma_table_bytes_push(offs.drop_first(), off, shift);
        assert(spec_table_bytes(offs.push(off), shift) =~= spec_table_bytes(offs, shift)
            + spec_offset_bytes((off + shift) as usize));
    }
}

/// When decoding of items `i..k` succeeds, every item passed its checks and
/// the result is exactly the normalized offsets of those items.
pub proof fn lemma_item_offsets_ok(b: Seq<u8>, f: int, k: int, i: int)
    requires
        0 <= i <= k,
        spec_item_offsets(b, f, k, i) is Ok,
    ensures
        spec_item_offsets(b, f, k, i)->Ok_0 == Seq::new(
            (k - i) as nat,
            |j: int| (spec_raw_offset(b, i + j) - f) as usize,
        ),
        forall|j: int| i <= j < k ==> spec_step_err(b, f, k, j) is None,
    decreases k - i,
{
    if i >= k {
        assert(spec_item_offsets(b, f, k, i)->Ok_0 =~= Seq::new(
            (k - i) as nat,
            |j: int| (spec_raw_offset(b, i + j) - f) as usize,
        ));
    } else {
        lemma_item_offsets_ok(b, f, k, i + 1);
        assert(spec_item_offsets(b, f, k, i)->Ok_0 =~= Seq::new(
            (k - i) as nat,
            |j: int| (spec_raw_offset(b, i + j) - f) as usize,
        ));
    }
}

/// When the first `i` items all pass their checks, decoding of the whole
/// table is decoding of the rest, with the normalized offsets of those
/// first items in front.
pub proof fn lemma_item_offsets_prefix(b: Seq<u8>, f: int, k: int, i: int)
    requires
        0 <= i <= k,
        forall|j: int| 0 <= j < i ==> spec_step_err(b, f, k, j) is None,
    ensures
        spec_item_offsets(b, f, k, 0) == match spec_item_offsets(b, f, k, i) {
            Ok(rest) => Ok::<Seq<usize>, DecodeError>(spec_norms(b, f, i) + rest),
            Err(e) => Err::<Seq<usize>, DecodeError>(e),
        },
    decreases i,
{
    if i == 0 {
        match spec_item_offsets(b, f, k, 0) {
            Ok(rest) => {
                assert(spec_norms(b, f, 0) + rest =~= rest);
            },
            Err(_) => {},
        }
    } else {
        lemma_item_offsets_prefix(b, f, k, i - 1);
        assert(spec_step_err(b, f, k, i - 1) is None);
        match spec_item_offsets(b, f, k, i) {
            Ok(rest) => {
                assert(spec_norms(b, f, i - 1) + (seq![
                    (spec_raw_offset(b, i - 1) - f) as usize,
                ] + rest) =~= spec_norms(b, f, i) + rest);
            },
            Err(_) => {},
        }
    }
}

/// The wire offset table is four bytes per entry, and entry `j` holds the
/// `j`th stored offset shifted by `shift`.
pub proof fn lemma_table_bytes_chunks(offs: Seq<usize>, shift: int)
    requires
        forall|j: int| 0 <= j < offs.len() ==> #[trigger] offs[j] + shift <= u32::MAX,
        shift >= 0,
    ensures
        spec_table_bytes(offs, shift).len() == 4 * offs.len(),
        forall|j: int|
            0 <= j < offs.len() ==> #[trigger] spec_table_bytes(offs, shift).subrange(
                4 * j,
                4 * j + 4,
            ) == spec_offset_bytes((offs[j] + shift) as usize),
    decreases offs.len(),
{
    if offs.len() > 0 {
        crate::offsets::lemma_offset_bytes_roundtrip((offs[0] + shift) as usize);
        lemma_table_bytes_chunks(offs.drop_first(), shift);
        let t = spec_table_bytes(offs, shift);
        let rest = spec_table_bytes(offs.drop_first(), shift);
        assert forall|j: int| 0 <= j < offs.len() implies #[trigger] t.subrange(4 * j, 4 * j + 4)
            == spec_offset_bytes((offs[j] + shift) as usize) by {
            if j == 0 {
                assert(t.subrange(0, 4) =~= spec_offset_bytes((offs[0] + shift) as usize));
            } else {
                assert(t.subrange(4 * j, 4 * j + 4) =~= rest.subrange(
                    4 * (j - 1),
                    4 * (j - 1) + 4,
                ));
            }
        }
    }
}

impl<'a> TransactionsOpaqueIter<'a> {
    /// The start offsets of the items not yet yielded.
    pub closed spec fn offs(self) -> Seq<usize> {
        self.offsets@
    }

    /// The value buffer the cursor slices from. Never re-sliced while
    /// iterating: pending offsets keep indexing the whole buffer.
    pub closed spec fn data(self) -> Seq<u8> {
        self.bytes@
    }

    /// The pending offsets are in bounds and non-decreasing; holds of every
    /// cursor obtained from a well-formed list and is kept by every step.
    pub open spec fn wf(self) -> bool {
        &&& (forall|i: int|
            0 <= i < self.offs().len() ==> #[trigger] self.offs()[i] <= self.data().len())
        &&& (forall|i: int|
            0 <= i && i + 1 < self.offs().len() ==> #[trigger] self.offs()[i] <= self.offs()[i
                + 1])
    }

    /// One past the last byte of the next item to be yielded.
    pub open spec fn spec_head_end(self) -> int {
        if self.offs().len() > 1 {
            self.offs()[1] as int
        } else {
            self.data().len() as int
        }
    }

    /// The payload of the next item to be yielded.
    pub open spec fn spec_head(self) -> Seq<u8>
        recommends
            self.offs().len() > 0,
            self.wf(),
    {
        self.data().subrange(self.offs()[0] as int, self.spec_head_end())
    }

    /// Yields the next item as a slice of the list's buffer, or nothing
    /// once every item has been yielded.
    pub fn next(&mut self) -> (r: Option<&'a [u8]>)
        requires
            old(self).wf(),
        ensures
            final(self).wf(),
            final(self).data() == old(self).data(),
            old(self).offs().len() == 0 ==> r is None && final(self).offs() == old(self).offs(),
            old(self).offs().len() > 0 ==> final(self).offs() == old(self).offs().drop_first() && (
            r matches Some(s) && s@ == old(self).spec_head()),
    {
        if self.offsets.len() == 0 {
            return None;
        }
        let offset = *vstd::slice::slice_index_get(self.offsets, 0);
        let next_offset = if self.offsets.len() > 1 {
            *vstd::slice::slice_index_get(self.offsets, 1)
        } else {
            self.bytes.len()
        };
        self.offsets = slice_subrange(self.offsets, 1, self.offsets.len());
        Some(slice_subrange(self.bytes, offset, next_offset))
    }
}

/// A cursor over a well-formed list that has already yielded `k` items —
/// its pending offsets are the list's from `k` on — yields item `k` of
/// the list next. With [`TransactionsOpaqueIter::next`]'s contract, which
/// drops exactly one pending offset per step, iteration therefore yields
/// every item of the list, in order.
pub proof fn lemma_iter_yields_items(t: TxOpaque, it: TransactionsOpaqueIter, k: int)
    requires
        t.wf(),
        it.data() == t.data(),
        it.offs() == t.offs().skip(k),
        0 <= k < t.offs().len(),
    ensures
        it.spec_head() == t.spec_item(k),
{
    assert(it.offs()[0] == t.offs()[k]);
    if k + 1 < t.offs().len() {
        assert(it.offs()[1] == t.offs()[k + 1]);
    }
}

impl TxOpaque {
    /// A cursor over the items of this list, yielding each item in order
    /// as a borrowed slice, without copying.
    pub fn iter<'a>(&'a self) -> (it: TransactionsOpaqueIter<'a>)
        ensures
            it.offs() == self.offs(),
            it.data() == self.data(),
            self.wf() ==> it.wf(),
    {
        TransactionsOpaqueIter { offsets: self.offsets.as_slice(), bytes: self.bytes.as_slice() }
    }
}

/// The fault, if any, that building a list finds at item `i`: the item may
/// not exceed the per-item byte cap, and its start offset, shifted by the
/// offset table's length, must fit in the offset's fixed width.
pub open spec fn spec_item_fault(items: Seq<Seq<u8>>, i: int) -> Option<DecodeError> {
    if items[i].len() > MAX_TX_BYTES {
        Some(DecodeError::ItemTooLarge(items[i].len() as usize))
    } else if spec_prefix_len(items, i) + 4 * items.len() > u32::MAX {
        Some(DecodeError::OffsetOutOfBounds(spec_prefix_len(items, i) as usize))
    } else {
        None
    }
}

/// The first fault among items `i..`, if any.
pub open spec fn spec_items_fault(items: Seq<Seq<u8>>, i: int) -> Option<DecodeError>
    decreases items.len() - i,
{
    if i >= items.len() {
        None
    } else {
        match spec_item_fault(items, i) {
            Some(e) => Some(e),
            None => spec_items_fault(items, i + 1),
        }
    }
}

/// What building a list from in-memory items yields: the stored offsets
/// (each item's start is the total length of the items before it) and the
/// concatenated value buffer, or the first fault found — an item count over
/// the cap, an oversized item, or an offset that cannot be represented.
pub open spec fn spec_from_items(items: Seq<Seq<u8>>) -> Result<
    (Seq<usize>, Seq<u8>),
    DecodeError,
> {
    if items.len() > MAX_TX_COUNT {
        Err(DecodeError::TooManyItems(items.len() as usize))
    } else {
        match spec_items_fault(items, 0) {
            Some(e) => Err(e),
            None => Ok(
                (
                    Seq::new(items.len(), |i: int| spec_prefix_len(items, i) as usize),
                    spec_concat(items),
                ),
            ),
        }
    }
}

/// When the first `i` items are fault-free, the first fault overall is the
/// first fault among the rest.
pub proof fn lemma_items_fault_skip(items: Seq<Seq<u8>>, i: int)
    requires
        0 <= i <= items.len(),
        forall|j: int| 0 <= j < i ==> #[trigger] spec_item_fault(items, j) is None,
    ensures
        spec_items_fault(items, 0) == spec_items_fault(items, i),
    decreases i,
{
    if i > 0 {
        lemma_items_fault_skip(items, i - 1);
    }
}

impl TxOpaque {
    /// Assembles a list from in-memory items, copying them into one owned
    /// buffer. Refuses — before anything is encoded — item counts over the
    /// cap, items over the per-item byte cap, and items whose start offset
    /// would not fit in the offset's fixed width, exactly as
    /// [`spec_from_items`] states.
    pub fn from_items(items: &Vec<Vec<u8>>) -> (r: Result<TxOpaque, DecodeError>)
        ensures
            match r {
                Ok(t) => t.wf() && spec_from_items(items.deep_view()) == Ok::<
                    (Seq<usize>, Seq<u8>),
                    DecodeError,
                >((t.offs(), t.data())) && t.spec_items() == items.deep_view(),
                Err(e) => spec_from_items(items.deep_view()) == Err::<
                    (Seq<usize>, Seq<u8>),
                    DecodeError,
                >(e),
            },
    {
        let ghost vitems = items.deep_view();
        proof {
            assert(vitems.len() == items@.len());
        }
        if items.len() > MAX_TX_COUNT {
            return Err(DecodeError::TooManyItems(items.len()));
        }
        let table_len = items.len() * BYTES_PER_LENGTH_OFFSET;
        let mut offsets: Vec<usize> = Vec::new();
        let mut bytes: Vec<u8> = Vec::new();
        let mut i: usize = 0;
        while i < items.len()
            invariant
                vitems == items.deep_view(),
                vitems.len() == items@.len(),
                i <= items@.len(),
                items@.len() <= MAX_TX_COUNT,
                table_len == 4 * items@.len(),
                forall|j: int| 0 <= j < i ==> #[trigger] spec_item_fault(vitems, j) is None,
                offsets@ == Seq::new(i as nat, |j: int| spec_prefix_len(vitems, j) as usize),
                bytes@ == spec_concat(vitems.subrange(0, i as int)),
                bytes@.len() == spec_prefix_len(vitems, i as int),
            decreases items@.len() - i,
        {
            let item = &items[i];
            proof {
                assert(vitems[i as int] == items@[i as int].deep_view());
                assert(items@[i as int].deep_view() =~= items@[i as int]@);
            }
            if item.len() > MAX_TX_BYTES {
                proof {
                    lemma_items_fault_skip(vitems, i as int);
                }
                return Err(DecodeError::ItemTooLarge(item.len()));
            }
            if bytes.len() > (u32::MAX as usize) - table_len {
                proof {
                    lemma_items_fault_skip(vitems, i as int);
                }
                return Err(DecodeError::OffsetOutOfBounds(bytes.len()));
            }
            proof {
                assert(spec_item_fault(vitems, i as int) is None);
                assert(offsets@.push(bytes@.len() as usize) =~= Seq::new(
                    (i + 1) as nat,
                    |j: int| spec_prefix_len(vitems, j) as usize,
                ));
                crate::byteseq::lemma_concat_push(vitems.subrange(0, i as int), vitems[i as int]);
                assert(vitems.subrange(0, i + 1) =~= vitems.subrange(0, i as int).push(
                    vitems[i as int],
                ));
            }
            offsets.push(bytes.len());
            append_bytes(&mut bytes, item.as_slice());
            i = i + 1;
        }
        let t = TxOpaque { offsets, bytes };
        proof {
            lemma_items_fault_skip(vitems, vitems.len() as int);
            assert(vitems.subrange(0, vitems.len() as int) =~= vitems);
            lemma_from_items_wf(vitems, t);
        }
        Ok(t)
    }
}

/// A list assembled from fault-free items is well-formed and holds exactly
/// those items.
proof fn lemma_from_items_wf(items: Seq<Seq<u8>>, t: TxOpaque)
    requires
        items.len() <= MAX_TX_COUNT,
        forall|j: int| 0 <= j < items.len() ==> #[trigger] spec_item_fault(items, j) is None,
        t.offs() == Seq::new(items.len(), |j: int| spec_prefix_len(items, j) as usize),
        t.data() == spec_concat(items),
    ensures
        t.wf(),
        t.spec_items() == items,
{
    let k = items.len() as int;
    crate::byteseq::lemma_concat_len(items);
    assert forall|j: int| 0 <= j < k implies {
        &&& #[trigger] spec_prefix_len(items, j) >= 0
        &&& spec_prefix_len(items, j) + 4 * k <= u32::MAX
        &&& spec_prefix_len(items, j + 1) == spec_prefix_len(items, j) + items[j].len()
        &&& items[j].len() <= MAX_TX_BYTES
        &&& spec_prefix_len(items, j) <= t.data().len()
        &&& spec_prefix_len(items, j + 1) <= t.data().len()
    } by {
        assert(spec_item_fault(items, j) is None);
        crate::byteseq::lemma_prefix_len_nonneg(items, j);
        crate::byteseq::lemma_prefix_len_monotonic(items, j, k);
        crate::byteseq::lemma_prefix_len_monotonic(items, j + 1, k);
    }
    assert(t.offs().len() == k);
    assert(k > 0 ==> t.offs()[0] == 0);
    assert forall|j: int| 0 <= j < k implies t.spec_item_end(j) - #[trigger] t.offs()[j]
        <= MAX_TX_BYTES by {
        assert(t.spec_item_end(j) == spec_prefix_len(items, j + 1));
    }
    assert(t.wf());
    assert forall|j: int| 0 <= j < k implies #[trigger] t.spec_items()[j] == items[j] by {
        crate::byteseq::lemma_concat_item(items, j);
        assert(t.spec_item_end(j) == spec_prefix_len(items, j + 1));
    }
    assert(t.spec_items() =~= items);
}

/// Round trip: decoding the encoding of any well-formed list yields that
/// list back, offsets and buffer alike — for every list that any
/// constructor of this module can produce.
pub proof fn lemma_encode_decode_roundtrip(t: TxOpaque)
    requires
        t.wf(),
    ensures
        spec_decode(spec_encoding(t.offs(), t.data())) == Ok::<(Seq<usize>, Seq<u8>), DecodeError>(
            (t.offs(), t.data()),
        ),
{
    let offs = t.offs();
    let data = t.data();
    let k = offs.len() as int;
    let shift = 4 * k;
    let b = spec_encoding(offs, data);
    if k == 0 {
        assert(spec_table_bytes(offs, shift) =~= Seq::empty());
        assert(b =~= Seq::<u8>::empty());
        assert(offs =~= Seq::<usize>::empty());
        assert(data =~= Seq::<u8>::empty());
    } else {
        lemma_table_bytes_chunks(offs, shift);
        let table = spec_table_bytes(offs, shift);
        assert(b.len() == 4 * k + data.len());
        assert forall|j: int| 0 <= j < k implies spec_raw_offset(b, j) == offs[j] + shift by {
            assert(b.subrange(4 * j, 4 * j + 4) =~= table.subrange(4 * j, 4 * j + 4));
            lemma_offset_bytes_roundtrip((offs[j] + shift) as usize);
        }
        let f = spec_raw_offset(b, 0);
        assert(f == shift);
        assert((4 * k) % 4 == 0 && (4 * k) / 4 == k) by (nonlinear_arith)
            requires
                k >= 1,
        ;
        assert forall|i: int| 0 <= i < k implies spec_step_err(b, f, k, i) is None by {
            assert(offs[i] <= data.len());
            assert(t.spec_item_end(i) - offs[i] <= MAX_TX_BYTES);
            if i + 1 < k {
                assert(offs[i] <= offs[i + 1]);
            }
        }
        lemma_item_offsets_prefix(b, f, k, k);
        assert(spec_norms(b, f, k) + Seq::<usize>::empty() =~= spec_norms(b, f, k));
        assert(spec_norms(b, f, k) =~= offs);
        assert(b.subrange(f, b.len() as int) =~= data);
    }
}

/// Inverse round trip: whenever decoding succeeds on some input, encoding
/// the decoded list reproduces that input byte for byte. In particular
/// decoding never invents a value: two different accepted inputs decode to
/// two different lists.
pub proof fn lemma_decode_encode_roundtrip(b: Seq<u8>, offs: Seq<usize>, data: Seq<u8>)
    requires
        spec_decode(b) == Ok::<(Seq<usize>, Seq<u8>), DecodeError>((offs, data)),
    ensures
        spec_encoding(offs, data) == b,
{
    if b.len() == 0 {
        assert(offs =~= Seq::<usize>::empty());
        assert(spec_table_bytes(offs, 0) =~= Seq::empty());
        assert(spec_encoding(offs, data) =~= b);
    } else {
        let f = spec_raw_offset(b, 0);
        let k = f / 4;
        vstd::arithmetic::div_mod::lemma_fundamental_div_mod(f, 4);
        assert(f == 4 * k);
        lemma_item_offsets_ok(b, f, k, 0);
        assert(offs.len() == k);
        assert forall|j: int| 0 <= j < k implies {
            &&& #[trigger] offs[j] + f == spec_raw_offset(b, j)
            &&& offs[j] + f <= u32::MAX
        } by {
            assert(spec_step_err(b, f, k, j) is None);
        }
        lemma_table_bytes_chunks(offs, f);
        let table = spec_table_bytes(offs, f);
        assert(data =~= b.subrange(f, b.len() as int));
        assert forall|m: int| 0 <= m < b.len() implies (table + data)[m] == b[m] by {
            if m < f {
                vstd::arithmetic::div_mod::lemma_fundamental_div_mod(m, 4);
                let j = m / 4;
                assert(4 * j <= m < 4 * j + 4);
                assert(0 <= j < k);
                assert(table.subrange(4 * j, 4 * j + 4) == spec_offset_bytes(
                    (offs[j] + f) as usize,
                ));
                lemma_offset_at_bytes(b, j);
                assert(spec_offset_bytes((offs[j] + f) as usize) == b.subrange(4 * j, 4 * j + 4));
                assert(table[m] == table.subrange(4 * j, 4 * j + 4)[m - 4 * j]);
                assert(b[m] == b.subrange(4 * j, 4 * j + 4)[m - 4 * j]);
            }
        }
        assert(table + data =~= b);
        assert(spec_encoding(offs, data) == table + data);
    }
}

/// A table whose wire offsets decrease anywhere is always rejected: if the
/// leading offset passes its own checks but entries `i` and `i + 1` are out
/// of order, decoding fails — it never succeeds with a reordered or
/// truncated value.
pub proof fn lemma_nonmonotonic_rejected(b: Seq<u8>, i: int)
    requires
        b.len() >= 4,
        spec_raw_offset(b, 0) % 4 == 0,
        spec_raw_offset(b, 0) >= 4,
        spec_raw_offset(b, 0) <= b.len(),
        0 <= i,
        i + 1 < spec_raw_offset(b, 0) / 4,
        spec_raw_offset(b, i + 1) < spec_raw_offset(b, i),
    ensures
        spec_decode(b) is Err,
{
    let f = spec_raw_offset(b, 0);
    let k = f / 4;
    if k <= MAX_TX_COUNT {
        match spec_item_offsets(b, f, k, 0) {
            Ok(_) => {
                lemma_item_offsets_ok(b, f, k, 0);
                assert(spec_step_err(b, f, k, i) is None);
                assert(false);
            },
            Err(_) => {},
        }
    }
}

} // verus!
