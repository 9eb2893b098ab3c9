//! A deterministic, self-describing binary codec for composite records:
//! scalars, fixed-arity vectors, bounded lists, packed bit collections and
//! nested containers, laid out as flat byte sequences.
//!
//! Encoded values are split into a fixed region (fixed-size fields, with
//! 4-byte little-endian offsets standing in for variable-size fields) and a
//! trailing variable region holding the variable payloads back to back.
//! Decoding validates the offset table of untrusted input before any byte of
//! payload is touched: offsets must stay out of the fixed region, be
//! non-decreasing, and stay inside the buffer.
pub mod bitfield;
pub mod bounded_list;
pub mod byteseq;
pub mod classify;
pub mod container;
pub mod errors;
pub mod fixed_vector;
pub mod mock_struct;
pub mod offsets;
pub mod tx_opaque;
