//! Typed decode failures.
//!
//! Every decoder in this crate is all-or-nothing: on the first failed
//! structural check it aborts with one of these errors and returns no
//! partial result. Encoding cannot fail; capacity is enforced when values
//! are constructed, not when they are written out.
use vstd::prelude::*;

verus! {

/// A structural fault found while decoding untrusted bytes.
///
/// The payload of each variant is the length or offset that failed the
/// check, as seen by the decoder at the point of failure.
#[derive(Debug, Clone, Copy, PartialEq, Eq, Structural)]
pub enum DecodeError {
    /// A fixed-size field, vector or list was given a byte count that does
    /// not match its type.
    InvalidLength(usize),
    /// The leading offset of an offset table is not a whole number of
    /// offsets, or leaves no room for the table itself.
    InvalidFixedPortionLength(usize),
    /// An offset points before the end of the fixed region.
    OffsetIntoFixedPortion(usize),
    /// An offset table is not non-decreasing.
    OffsetsDecreasing(usize),
    /// An offset points past the end of the buffer, or would not fit in
    /// the offset's fixed width.
    OffsetOutOfBounds(usize),
    /// A decoded element count exceeds the static capacity.
    TooManyItems(usize),
    /// A single element exceeds the configured maximum byte length.
    ItemTooLarge(usize),
    /// A packed bit collection has a set bit beyond its logical length.
    InvalidPadding,
    /// Decoding consumed less than the full input.
    TrailingBytes,
}

} // verus!
