//! The bitfield codec: packed bit collections.
//!
//! Bits pack least-significant-bit first: bit `i` lives in byte `i / 8` at
//! position `i % 8`. A fixed-arity bit vector occupies exactly
//! `ceil(arity / 8)` bytes and every bit beyond the arity in the last byte
//! must be zero. A bit list carries its length implicitly: a sentinel bit
//! one position past the last logical bit, which must be the highest set
//! bit of the last byte — a last byte of zero means the buffer holds
//! surplus bytes and is rejected.
use crate::errors::DecodeError;
use vstd::prelude::*;
use vstd::slice::slice_index_get;

verus! {

/// The bit at position `i` of `s`, as 0 or 1; positions past the end are
/// zero.
pub open spec fn spec_bit_at(s: Seq<bool>, i: int) -> int {
    if 0 <= i < s.len() && s[i] {
        1int
    } else {
        0int
    }
}

/// The packed byte holding bits `base .. base + 8` of `s`,
/// least-significant-bit first.
pub open spec fn spec_pack_byte(s: Seq<bool>, base: int) -> u8 {
    (spec_bit_at(s, base) + 2 * spec_bit_at(s, base + 1) + 4 * spec_bit_at(s, base + 2) + 8
        * spec_bit_at(s, base + 3) + 16 * spec_bit_at(s, base + 4) + 32 * spec_bit_at(s, base + 5)
        + 64 * spec_bit_at(s, base + 6) + 128 * spec_bit_at(s, base + 7)) as u8
}

/// The place value of bit position `r` of a byte.
pub open spec fn spec_bit_weight(r: int) -> int {
    if r <= 0 {
        1int
    } else if r == 1 {
        2int
    } else if r == 2 {
        4int
    } else if r == 3 {
        8int
    } else if r == 4 {
        16int
    } else if r == 5 {
        32int
    } else if r == 6 {
        64int
    } else {
        128int
    }
}

/// Whether bit `r` of the byte `v` is set.
pub open spec fn spec_bit_of_byte(v: u8, r: int) -> bool {
    ((v as int) / spec_bit_weight(r)) % 2 == 1
}

/// Whether packed bit `i` of the byte sequence `b` is set.
pub open spec fn spec_bit_of(b: Seq<u8>, i: int) -> bool {
    spec_bit_of_byte(b[i / 8], i % 8)
}

/// Packing eight 0-or-1 place values and reading one back by its place
/// value returns that value, and the packed byte is in range.
pub proof fn lemma_pack_unpack(b0: int, b1: int, b2: int, b3: int, b4: int, b5: int, b6: int, b7: int)
    requires
        0 <= b0 <= 1,
        0 <= b1 <= 1,
        0 <= b2 <= 1,
        0 <= b3 <= 1,
        0 <= b4 <= 1,
        0 <= b5 <= 1,
        0 <= b6 <= 1,
        0 <= b7 <= 1,
    ensures
        ({
            let p = b0 + 2 * b1 + 4 * b2 + 8 * b3 + 16 * b4 + 32 * b5 + 64 * b6 + 128 * b7;
            &&& 0 <= p < 256
            &&& p % 2 == b0
            &&& (p / 2) % 2 == b1
            &&& (p / 4) % 2 == b2
            &&& (p / 8) % 2 == b3
            &&& (p / 16) % 2 == b4
            &&& (p / 32) % 2 == b5
            &&& (p / 64) % 2 == b6
            &&& (p / 128) % 2 == b7
        }),
{
    let q7 = b7;
    let q6 = b6 + 2 * q7;
    let q5 = b5 + 2 * q6;
    let q4 = b4 + 2 * q5;
    let q3 = b3 + 2 * q4;
    let q2 = b2 + 2 * q3;
    let q1 = b1 + 2 * q2;
    let p = b0 + 2 * q1;
    vstd::arithmetic::div_mod::lemma_fundamental_div_mod_converse(p, 2, q1, b0);
    vstd::arithmetic::div_mod::lemma_fundamental_div_mod_converse(q1, 2, q2, b1);
    vstd::arithmetic::div_mod::lemma_fundamental_div_mod_converse(q2, 2, q3, b2);
    vstd::arithmetic::div_mod::lemma_fundamental_div_mod_converse(q3, 2, q4, b3);
    vstd::arithmetic::div_mod::lemma_fundamental_div_mod_converse(q4, 2, q5, b4);
    vstd::arithmetic::div_mod::lemma_fundamental_div_mod_converse(q5, 2, q6, b5);
    vstd::arithmetic::div_mod::lemma_fundamental_div_mod_converse(q6, 2, q7, b6);
    vstd::arithmetic::div_mod::lemma_fundamental_div_mod_converse(q7, 2, 0, b7);
    vstd::arithmetic::div_mod::lemma_div_denominator(p, 2, 2);
    vstd::arithmetic::div_mod::lemma_div_denominator(p, 4, 2);
    vstd::arithmetic::div_mod::lemma_div_denominator(p, 8, 2);
    vstd::arithmetic::div_mod::lemma_div_denominator(p, 16, 2);
    vstd::arithmetic::div_mod::lemma_div_denominator(p, 32, 2);
    vstd::arithmetic::div_mod::lemma_div_denominator(p, 64, 2);
    assert(p / 4 == q2);
    assert(p / 8 == q3);
    assert(p / 16 == q4);
    assert(p / 32 == q5);
    assert(p / 64 == q6);
    assert(p / 128 == q7);
}

/// The packed bytes of a fixed-arity bit vector: `ceil(len / 8)` bytes,
/// LSB-first, unused high bits of the last byte zero.
pub open spec fn spec_bitvector_bytes(s: Seq<bool>) -> Seq<u8> {
    Seq::new(((s.len() + 7) / 8) as nat, |j: int| spec_pack_byte(s, 8 * j))
}

/// What decoding a bit vector of `nbits` bits yields: the bit sequence,
/// or a fault — a byte count other than `ceil(nbits / 8)`, or a set bit at
/// or beyond position `nbits`.
pub open spec fn spec_bitvector_decode(nbits: int, b: Seq<u8>) -> Result<Seq<bool>, DecodeError> {
    if b.len() != (nbits + 7) / 8 {
        Err(DecodeError::InvalidLength(b.len() as usize))
    } else if exists|i: int| nbits <= i < 8 * b.len() && spec_bit_of(b, i) {
        Err(DecodeError::InvalidPadding)
    } else {
        Ok(Seq::new(nbits as nat, |i: int| spec_bit_of(b, i)))
    }
}

/// The packed bytes of a bit list: its bits followed by one sentinel bit
/// marking the length, packed as a bit vector.
pub open spec fn spec_bitlist_bytes(s: Seq<bool>) -> Seq<u8> {
    spec_bitvector_bytes(s.push(true))
}

/// The position of the highest set bit of a nonzero byte.
pub open spec fn spec_high_bit(v: u8) -> int {
    if v >= 128 {
        7int
    } else if v >= 64 {
        6int
    } else if v >= 32 {
        5int
    } else if v >= 16 {
        4int
    } else if v >= 8 {
        3int
    } else if v >= 4 {
        2int
    } else if v >= 2 {
        1int
    } else {
        0int
    }
}

/// What decoding a bit list with capacity `max_len` yields: the bits below
/// the sentinel, or a fault — an empty input, a last byte with no bit set
/// (the sentinel must live there, so such a buffer has surplus bytes), or
/// an implied length over the capacity.
pub open spec fn spec_bitlist_decode(max_len: usize, b: Seq<u8>) -> Result<Seq<bool>, DecodeError> {
    if b.len() == 0 {
        Err(DecodeError::InvalidLength(0))
    } else if b.last() == 0 {
        Err(DecodeError::TrailingBytes)
    } else {
        let nbits = 8 * (b.len() - 1) + spec_high_bit(b.last());
        if nbits > max_len {
            Err(DecodeError::TooManyItems(max_len))
        } else {
            Ok(Seq::new(nbits as nat, |i: int| spec_bit_of(b, i)))
        }
    }
}

/// Byte `j` of the packed form holds bits `8j .. 8j + 8`: every packed
/// bit reads back as the bit of `s` at its position, with zeros past the
/// end.
pub proof fn lemma_bitvector_bytes_bits(s: Seq<bool>)
    ensures
        spec_bitvector_bytes(s).len() == (s.len() + 7) / 8,
        forall|i: int|
            0 <= i < 8 * spec_bitvector_bytes(s).len() ==> (#[trigger] spec_bit_of(
                spec_bitvector_bytes(s),
                i,
            ) <==> spec_bit_at(s, i) == 1),
{
    let b = spec_bitvector_bytes(s);
    assert forall|i: int| 0 <= i < 8 * b.len() implies (#[trigger] spec_bit_of(b, i)
        <==> spec_bit_at(s, i) == 1) by {
        vstd::arithmetic::div_mod::lemma_fundamental_div_mod(i, 8);
        let j = i / 8;
        let r = i % 8;
        assert(0 <= r < 8);
        assert(j < b.len()) by (nonlinear_arith)
            requires
                i < 8 * b.len() && i == 8 * j + r && 0 <= r < 8 && 0 <= j,
        ;
        assert(b[j] == spec_pack_byte(s, 8 * j));
        lemma_pack_unpack(
            spec_bit_at(s, 8 * j),
            spec_bit_at(s, 8 * j + 1),
            spec_bit_at(s, 8 * j + 2),
            spec_bit_at(s, 8 * j + 3),
            spec_bit_at(s, 8 * j + 4),
            spec_bit_at(s, 8 * j + 5),
            spec_bit_at(s, 8 * j + 6),
            spec_bit_at(s, 8 * j + 7),
        );
    }
}

/// A byte count of `ceil(n / 8)` computed without the `n + 7` detour.
proof fn lemma_ceil_div8(n: int)
    requires
        n >= 0,
    ensures
        (n + 7) / 8 == n / 8 + if n % 8 != 0 {
            1int
        } else {
            0int
        },
{
    vstd::arithmetic::div_mod::lemma_fundamental_div_mod(n, 8);
    let q = n / 8;
    let r = n % 8;
    if r == 0 {
        vstd::arithmetic::div_mod::lemma_fundamental_div_mod_converse(n + 7, 8, q, 7);
    } else {
        vstd::arithmetic::div_mod::lemma_fundamental_div_mod_converse(n + 7, 8, q + 1, r - 1);
    }
}

/// The place value of bit position `r` of a byte, as a runtime value.
fn bit_weight(r: usize) -> (w: u8)
    requires
        r < 8,
    ensures
        w as int == spec_bit_weight(r as int),
        w >= 1,
{
    if r == 0 {
        1
    } else if r == 1 {
        2
    } else if r == 2 {
        4
    } else if r == 3 {
        8
    } else if r == 4 {
        16
    } else if r == 5 {
        32
    } else if r == 6 {
        64
    } else {
        128
    }
}

/// Reads packed bit `i` of `b`.
fn get_bit(b: &[u8], i: usize) -> (r: bool)
    requires
        i < 8 * b@.len(),
    ensures
        r == spec_bit_of(b@, i as int),
{
    proof {
        vstd::arithmetic::div_mod::lemma_fundamental_div_mod(i as int, 8);
        assert((i as int) / 8 < b@.len()) by (nonlinear_arith)
            requires
                i < 8 * b@.len() && i as int == 8 * ((i as int) / 8) + (i as int) % 8 && 0 <= (
                i as int) % 8 < 8 && 0 <= (i as int) / 8,
        ;
        assert(b.len() == b@.len());
    }
    let byte = *slice_index_get(b, i / 8);
    let w = bit_weight(i % 8);
    (byte / w) % 2 == 1
}

/// The 0-or-1 place value of bit `i` of `bits`, with zeros past the end.
fn bit_val(bits: &Vec<bool>, i: usize) -> (v: u8)
    ensures
        v as int == spec_bit_at(bits@, i as int),
{
    if i < bits.len() && bits[i] {
        1
    } else {
        0
    }
}

/// A fixed-arity packed bit sequence: bit `i` of the encoding is bit `i`
/// of the value, and the arity is part of the type, not of the wire form.
#[derive(Debug, Clone, PartialEq)]
pub struct BitVector {
    bits: Vec<bool>,
}

impl BitVector {
    /// The bits of this vector, in position order.
    pub closed spec fn spec_bits(self) -> Seq<bool> {
        self.bits@
    }

    /// A bit vector holding exactly these bits.
    pub fn from_bits(bits: Vec<bool>) -> (v: Self)
        ensures
            v.spec_bits() == bits@,
    {
        BitVector { bits }
    }

    /// The arity: how many bits this vector holds.
    pub fn nbits(&self) -> (n: usize)
        ensures
            n == self.spec_bits().len(),
    {
        self.bits.len()
    }

    /// The bit at position `i`.
    pub fn bit(&self, i: usize) -> (r: bool)
        requires
            i < self.spec_bits().len(),
        ensures
            r == self.spec_bits()[i as int],
    {
        self.bits[i]
    }

    /// Encodes this vector: `ceil(arity / 8)` bytes, LSB-first, unused
    /// high bits of the last byte zero.
    pub fn encode(&self) -> (out: Vec<u8>)
        requires
            self.spec_bits().len() + 7 <= usize::MAX,
        ensures
            out@ == spec_bitvector_bytes(self.spec_bits()),
    {
        let s = &self.bits;
        let n = s.len();
        let nbytes = n / 8 + if n % 8 != 0 {
            1
        } else {
            0
        };
        proof {
            lemma_ceil_div8(n as int);
        }
        let mut out: Vec<u8> = Vec::new();
        let mut j: usize = 0;
        while j < nbytes
            invariant
                s == &self.bits,
                n == s@.len(),
                n + 7 <= usize::MAX,
                nbytes == (n + 7) / 8,
                j <= nbytes,
                out@ == spec_bitvector_bytes(s@).subrange(0, j as int),
            decreases nbytes - j,
        {
            proof {
                assert(8 * (j + 1) <= 8 * nbytes) by (nonlinear_arith)
                    requires
                        j + 1 <= nbytes,
                ;
                assert(8 * nbytes <= n + 7) by (nonlinear_arith)
                    requires
                        nbytes == (n + 7) / 8 && n >= 0,
                ;
            }
            let base = 8 * j;
            let v = bit_val(s, base) + 2 * bit_val(s, base + 1) + 4 * bit_val(s, base + 2) + 8
                * bit_val(s, base + 3) + 16 * bit_val(s, base + 4) + 32 * bit_val(s, base + 5) + 64
                * bit_val(s, base + 6) + 128 * bit_val(s, base + 7);
            proof {
                assert(v == spec_pack_byte(s@, 8 * j as int));
                assert(spec_bitvector_bytes(s@).subrange(0, j + 1) =~= spec_bitvector_bytes(
                    s@,
                ).subrange(0, j as int).push(spec_pack_byte(s@, 8 * j as int)));
            }
            out.push(v);
            j = j + 1;
        }
        proof {
            assert(spec_bitvector_bytes(s@).subrange(
                0,
                spec_bitvector_bytes(s@).len() as int,
            ) =~= spec_bitvector_bytes(s@));
        }
        out
    }

    /// Decodes a vector of `nbits` bits from untrusted bytes, yielding
    /// exactly what [`spec_bitvector_decode`] states: the bits, or a fault
    /// for a wrong byte count or a set bit at or past the arity.
    pub fn decode(nbits: usize, b: &[u8]) -> (r: Result<BitVector, DecodeError>)
        requires
            nbits + 7 <= usize::MAX,
        ensures
            match r {
                Ok(v) => v.spec_bits().len() == nbits && spec_bitvector_decode(nbits as int, b@)
                    == Ok::<Seq<bool>, DecodeError>(v.spec_bits()),
                Err(e) => spec_bitvector_decode(nbits as int, b@) == Err::<Seq<bool>, DecodeError>(
                    e,
                ),
            },
    {
        let nbytes = nbits / 8 + if nbits % 8 != 0 {
            1
        } else {
            0
        };
        proof {
            lemma_ceil_div8(nbits as int);
        }
        if b.len() != nbytes {
            return Err(DecodeError::InvalidLength(b.len()));
        }
        proof {
            assert(8 * nbytes <= nbits + 7 && nbits <= 8 * nbytes) by (nonlinear_arith)
                requires
                    nbytes == (nbits + 7) / 8 && nbits >= 0,
            ;
        }
        let total = 8 * nbytes;
        let mut i: usize = nbits;
        while i < total
            invariant
                nbits + 7 <= usize::MAX,
                b@.len() == nbytes,
                nbytes == (nbits + 7) / 8,
                total == 8 * nbytes,
                nbits <= i <= total,
                forall|x: int| nbits <= x < i ==> !(#[trigger] spec_bit_of(b@, x)),
            decreases total - i,
        {
            if get_bit(b, i) {
                proof {
                    assert(nbits <= i < 8 * b@.len() && spec_bit_of(b@, i as int));
                    assert(exists|x: int| nbits <= x < 8 * b@.len() && spec_bit_of(b@, x));
                }
                return Err(DecodeError::InvalidPadding);
            }
            i = i + 1;
        }
        proof {
            assert(!(exists|x: int| nbits <= x < 8 * b@.len() && spec_bit_of(b@, x)));
        }
        let mut bits: Vec<bool> = Vec::new();
        let mut i2: usize = 0;
        while i2 < nbits
            invariant
                nbits + 7 <= usize::MAX,
                b@.len() == nbytes,
                nbytes == (nbits + 7) / 8,
                8 * nbytes <= nbits + 7,
                i2 <= nbits,
                bits@ == Seq::new(i2 as nat, |x: int| spec_bit_of(b@, x)),
            decreases nbits - i2,
        {
            proof {
                assert(i2 < 8 * nbytes) by (nonlinear_arith)
                    requires
                        i2 < nbits && nbits <= 8 * ((nbits + 7) / 8) && nbytes == (nbits + 7) / 8,
                ;
                assert(nbits <= 8 * ((nbits + 7) / 8)) by (nonlinear_arith)
                    requires
                        nbits >= 0,
                ;
            }
            let bit = get_bit(b, i2);
            bits.push(bit);
            proof {
                assert(bits@ =~= Seq::new((i2 + 1) as nat, |x: int| spec_bit_of(b@, x)));
            }
            i2 = i2 + 1;
        }
        Ok(BitVector { bits })
    }
}

/// The position of the highest set bit of a byte, as a runtime value.
fn high_bit(v: u8) -> (h: usize)
    ensures
        h as int == spec_high_bit(v),
        h < 8,
{
    if v >= 128 {
        7
    } else if v >= 64 {
        6
    } else if v >= 32 {
        5
    } else if v >= 16 {
        4
    } else if v >= 8 {
        3
    } else if v >= 4 {
        2
    } else if v >= 2 {
        1
    } else {
        0
    }
}

/// A packed bit sequence with a static maximum length. The length is not
/// part of the type: on the wire it is marked by a sentinel bit one
/// position past the last logical bit.
#[derive(Debug, Clone, PartialEq)]
pub struct BitList {
    max_len: usize,
    bits: Vec<bool>,
}

impl BitList {
    /// The list's capacity: the largest bit count it may hold.
    pub closed spec fn spec_max(self) -> usize {
        self.max_len
    }

    /// The bits of this list, in position order.
    pub closed spec fn spec_bits(self) -> Seq<bool> {
        self.bits@
    }

    /// Structural validity, established by every constructor: the bit
    /// count never exceeds the capacity.
    pub open spec fn wf(self) -> bool {
        self.spec_bits().len() <= self.spec_max()
    }

    /// An empty list with the given capacity.
    pub fn new(max_len: usize) -> (l: Self)
        ensures
            l.wf(),
            l.spec_max() == max_len,
            l.spec_bits() == Seq::<bool>::empty(),
    {
        let l = BitList { max_len, bits: Vec::new() };
        proof {
            assert(l.spec_bits() =~= Seq::<bool>::empty());
        }
        l
    }

    /// A list holding exactly these bits, refused when they exceed the
    /// capacity.
    pub fn from_bits(max_len: usize, bits: Vec<bool>) -> (r: Result<Self, DecodeError>)
        ensures
            match r {
                Ok(l) => bits@.len() <= max_len && l.wf() && l.spec_max() == max_len
                    && l.spec_bits() == bits@,
                Err(e) => bits@.len() > max_len && e == DecodeError::TooManyItems(
                    bits@.len() as usize,
                ),
            },
    {
        if bits.len() > max_len {
            return Err(DecodeError::TooManyItems(bits.len()));
        }
        Ok(BitList { max_len, bits })
    }

    /// Number of bits in the list.
    pub fn len(&self) -> (n: usize)
        ensures
            n == self.spec_bits().len(),
    {
        self.bits.len()
    }

    /// The bit at position `i`.
    pub fn bit(&self, i: usize) -> (r: bool)
        requires
            i < self.spec_bits().len(),
        ensures
            r == self.spec_bits()[i as int],
    {
        self.bits[i]
    }

    /// Encodes this list: its bits followed by the sentinel bit, packed
    /// LSB-first.
    pub fn encode(&self) -> (out: Vec<u8>)
        requires
            self.spec_bits().len() + 8 <= usize::MAX,
        ensures
            out@ == spec_bitlist_bytes(self.spec_bits()),
    {
        let mut with_sentinel = vstd::slice::slice_to_vec(self.bits.as_slice());
        with_sentinel.push(true);
        let v = BitVector::from_bits(with_sentinel);
        v.encode()
    }

    /// Decodes a list from untrusted bytes, yielding exactly what
    /// [`spec_bitlist_decode`] states: the bits below the sentinel, or a
    /// fault for an empty input, a sentinel-less last byte, or a length
    /// over the capacity.
    pub fn decode(max_len: usize, b: &[u8]) -> (r: Result<BitList, DecodeError>)
        requires
            max_len + 7 <= usize::MAX,
        ensures
            match r {
                Ok(l) => l.wf() && l.spec_max() == max_len && spec_bitlist_decode(max_len, b@)
                    == Ok::<Seq<bool>, DecodeError>(l.spec_bits()),
                Err(e) => spec_bitlist_decode(max_len, b@) == Err::<Seq<bool>, DecodeError>(e),
            },
    {
        let nb = b.len();
        if nb == 0 {
            return Err(DecodeError::InvalidLength(0));
        }
        let last = *slice_index_get(b, nb - 1);
        proof {
            assert(b@.last() == last);
        }
        if last == 0 {
            return Err(DecodeError::TrailingBytes);
        }
        let h = high_bit(last);
        let len1 = nb - 1;
        if len1 > max_len / 8 {
            proof {
                vstd::arithmetic::div_mod::lemma_fundamental_div_mod(max_len as int, 8);
                assert(8 * (len1 as int) + spec_high_bit(last) > max_len) by (nonlinear_arith)
                    requires
                        len1 > max_len / 8 && max_len as int == 8 * ((max_len as int) / 8) + (
                        max_len as int) % 8 && 0 <= (max_len as int) % 8 < 8 && spec_high_bit(last)
                            >= 0 && max_len / 8 == (max_len as int) / 8,
                ;
            }
            return Err(DecodeError::TooManyItems(max_len));
        }
        proof {
            vstd::arithmetic::div_mod::lemma_fundamental_div_mod(max_len as int, 8);
            assert(8 * (len1 as int) <= max_len) by (nonlinear_arith)
                requires
                    len1 <= max_len / 8 && max_len as int == 8 * ((max_len as int) / 8) + (
                    max_len as int) % 8 && 0 <= (max_len as int) % 8 && max_len / 8 == (
                    max_len as int) / 8,
            ;
        }
        let nbits = 8 * len1 + h;
        if nbits > max_len {
            return Err(DecodeError::TooManyItems(max_len));
        }
        let mut bits: Vec<bool> = Vec::new();
        let mut i: usize = 0;
        while i < nbits
            invariant
                b@.len() == nb,
                nb >= 1,
                nbits < 8 * nb,
                i <= nbits,
                bits@ == Seq::new(i as nat, |x: int| spec_bit_of(b@, x)),
            decreases nbits - i,
        {
            let bit = get_bit(b, i);
            bits.push(bit);
            proof {
                assert(bits@ =~= Seq::new((i + 1) as nat, |x: int| spec_bit_of(b@, x)));
            }
            i = i + 1;
        }
        Ok(BitList { max_len, bits })
    }
}

/// Round trip: decoding the encoding of any bit vector, at its own arity,
/// yields the same bits.
pub proof fn lemma_bitvector_roundtrip(s: Seq<bool>)
    ensures
        spec_bitvector_decode(s.len() as int, spec_bitvector_bytes(s)) == Ok::<
            Seq<bool>,
            DecodeError,
        >(s),
{
    let b = spec_bitvector_bytes(s);
    let n = s.len() as int;
    lemma_bitvector_bytes_bits(s);
    assert forall|i: int| n <= i < 8 * b.len() implies !(#[trigger] spec_bit_of(b, i)) by {
        assert(spec_bit_at(s, i) == 0);
    }
    assert(!(exists|i: int| n <= i < 8 * b.len() && spec_bit_of(b, i)));
    assert forall|i: int| 0 <= i < n implies #[trigger] spec_bit_of(b, i) == s[i] by {
        assert(i < 8 * b.len()) by (nonlinear_arith)
            requires
                0 <= i < n && 8 * b.len() >= n,
        ;
        assert(8 * ((n + 7) / 8) >= n) by (nonlinear_arith)
            requires
                n >= 0,
        ;
    }
    assert(Seq::new(n as nat, |i: int| spec_bit_of(b, i)) =~= s);
}

/// Every byte is the packed form of its own eight bits, read back by
/// place value.
proof fn lemma_byte_rebuild(v: u8)
    ensures
        ({
            let u = v as int;
            u == u % 2 + 2 * ((u / 2) % 2) + 4 * ((u / 4) % 2) + 8 * ((u / 8) % 2) + 16 * ((u / 16)
                % 2) + 32 * ((u / 32) % 2) + 64 * ((u / 64) % 2) + 128 * ((u / 128) % 2)
        }),
{
    let u = v as int;
    vstd::arithmetic::div_mod::lemma_fundamental_div_mod(u, 2);
    vstd::arithmetic::div_mod::lemma_fundamental_div_mod(u / 2, 2);
    vstd::arithmetic::div_mod::lemma_fundamental_div_mod(u / 4, 2);
    vstd::arithmetic::div_mod::lemma_fundamental_div_mod(u / 8, 2);
    vstd::arithmetic::div_mod::lemma_fundamental_div_mod(u / 16, 2);
    vstd::arithmetic::div_mod::lemma_fundamental_div_mod(u / 32, 2);
    vstd::arithmetic::div_mod::lemma_fundamental_div_mod(u / 64, 2);
    vstd::arithmetic::div_mod::lemma_fundamental_div_mod(u, 128);
    vstd::arithmetic::div_mod::lemma_div_denominator(u, 2, 2);
    vstd::arithmetic::div_mod::lemma_div_denominator(u, 4, 2);
    vstd::arithmetic::div_mod::lemma_div_denominator(u, 8, 2);
    vstd::arithmetic::div_mod::lemma_div_denominator(u, 16, 2);
    vstd::arithmetic::div_mod::lemma_div_denominator(u, 32, 2);
    vstd::arithmetic::div_mod::lemma_div_denominator(u, 64, 2);
    assert(0 <= u / 128 <= 1);
    assert((u / 128) % 2 == u / 128);
}

/// One place value of a byte read back as a bit of the decoded sequence:
/// below the logical length it is the packed bit, above it it is zero.
proof fn lemma_bit_term(m: int, b: Seq<u8>, j: int, x: int)
    requires
        m >= 0,
        0 <= j < b.len(),
        0 <= x < 8,
        forall|i: int| m <= i < 8 * b.len() ==> !(#[trigger] spec_bit_of(b, i)),
    ensures
        spec_bit_at(Seq::new(m as nat, |i: int| spec_bit_of(b, i)), 8 * j + x) == ((
        b[j] as int) / spec_bit_weight(x)) % 2,
{
    let s = Seq::new(m as nat, |i: int| spec_bit_of(b, i));
    vstd::arithmetic::div_mod::lemma_fundamental_div_mod_converse(8 * j + x, 8, j, x);
    assert((8 * j + x) / 8 == j && (8 * j + x) % 8 == x);
    vstd::arithmetic::div_mod::lemma_fundamental_div_mod((b[j] as int), spec_bit_weight(x));
    vstd::arithmetic::div_mod::lemma_fundamental_div_mod(
        (b[j] as int) / spec_bit_weight(x),
        2,
    );
    assert(8 * j + x < 8 * b.len());
    if 8 * j + x < m {
        assert(s[8 * j + x] == spec_bit_of(b, 8 * j + x));
    } else {
        assert(!spec_bit_of(b, 8 * j + x));
    }
}

/// A buffer whose bits past the logical length are all clear is exactly
/// the packed form of its first `m` bits.
proof fn lemma_bytes_from_bits(m: int, b: Seq<u8>)
    requires
        m >= 0,
        b.len() == (m + 7) / 8,
        forall|i: int| m <= i < 8 * b.len() ==> !(#[trigger] spec_bit_of(b, i)),
    ensures
        spec_bitvector_bytes(Seq::new(m as nat, |i: int| spec_bit_of(b, i))) == b,
{
    let s = Seq::new(m as nat, |i: int| spec_bit_of(b, i));
    assert(spec_bitvector_bytes(s).len() == b.len());
    assert forall|j: int| 0 <= j < b.len() implies #[trigger] spec_bitvector_bytes(s)[j]
        == b[j] by {
        lemma_byte_rebuild(b[j]);
        lemma_bit_term(m, b, j, 0);
        lemma_bit_term(m, b, j, 1);
        lemma_bit_term(m, b, j, 2);
        lemma_bit_term(m, b, j, 3);
        lemma_bit_term(m, b, j, 4);
        lemma_bit_term(m, b, j, 5);
        lemma_bit_term(m, b, j, 6);
        lemma_bit_term(m, b, j, 7);
        assert(spec_bitvector_bytes(s)[j] == spec_pack_byte(s, 8 * j));
    }
    assert(spec_bitvector_bytes(s) =~= b);
}

/// Inverse round trip: whenever bit-vector decoding succeeds on some
/// input, re-encoding the decoded bits reproduces that input byte for
/// byte.
pub proof fn lemma_bitvector_decode_encode(nbits: int, b: Seq<u8>)
    requires
        nbits >= 0,
        spec_bitvector_decode(nbits, b) is Ok,
    ensures
        spec_bitvector_bytes(spec_bitvector_decode(nbits, b)->Ok_0) == b,
{
    assert(!(exists|i: int| nbits <= i < 8 * b.len() && spec_bit_of(b, i)));
    assert(forall|i: int| nbits <= i < 8 * b.len() ==> !(#[trigger] spec_bit_of(b, i)));
    lemma_bytes_from_bits(nbits, b);
}

/// The highest set bit of a nonzero byte reads back as one, and every bit
/// above it as zero.
proof fn lemma_high_bit_reads(v: u8)
    requires
        v != 0,
    ensures
        ((v as int) / spec_bit_weight(spec_high_bit(v))) % 2 == 1,
        forall|x: int|
            spec_high_bit(v) < x < 8 ==> ((v as int) / #[trigger] spec_bit_weight(x)) % 2 == 0,
{
    let u = v as int;
    vstd::arithmetic::div_mod::lemma_fundamental_div_mod(u, 1);
    vstd::arithmetic::div_mod::lemma_fundamental_div_mod(u, 2);
    vstd::arithmetic::div_mod::lemma_fundamental_div_mod(u, 4);
    vstd::arithmetic::div_mod::lemma_fundamental_div_mod(u, 8);
    vstd::arithmetic::div_mod::lemma_fundamental_div_mod(u, 16);
    vstd::arithmetic::div_mod::lemma_fundamental_div_mod(u, 32);
    vstd::arithmetic::div_mod::lemma_fundamental_div_mod(u, 64);
    vstd::arithmetic::div_mod::lemma_fundamental_div_mod(u, 128);
}

/// Inverse round trip: whenever bit-list decoding succeeds on some input,
/// re-encoding the decoded bits reproduces that input byte for byte.
pub proof fn lemma_bitlist_decode_encode(max_len: usize, b: Seq<u8>)
    requires
        spec_bitlist_decode(max_len, b) is Ok,
    ensures
        spec_bitlist_bytes(spec_bitlist_decode(max_len, b)->Ok_0) == b,
{
    let s = spec_bitlist_decode(max_len, b)->Ok_0;
    let last = b.last();
    let h = spec_high_bit(last);
    let nbits = 8 * (b.len() - 1) + h;
    let t = s.push(true);
    lemma_high_bit_reads(last);
    // the sentinel bit of the buffer is set
    vstd::arithmetic::div_mod::lemma_fundamental_div_mod_converse(nbits, 8, b.len() - 1, h);
    assert(b[nbits / 8] == last);
    assert(spec_bit_of(b, nbits));
    // and everything above it is clear
    assert forall|i: int| nbits + 1 <= i < 8 * b.len() implies !(#[trigger] spec_bit_of(
        b,
        i,
    )) by {
        vstd::arithmetic::div_mod::lemma_fundamental_div_mod(i, 8);
        let jj = i / 8;
        let x = i % 8;
        assert(jj == b.len() - 1 && x > h) by (nonlinear_arith)
            requires
                i == 8 * jj + x && 0 <= x < 8 && 8 * (b.len() - 1) + h + 1 <= i < 8 * b.len() && 0
                    <= h < 8,
        ;
    }
    // so the decoded bits, with the sentinel back, are the buffer's bits
    assert(t =~= Seq::new((nbits + 1) as nat, |i: int| spec_bit_of(b, i)));
    // and the buffer is exactly their packed form
    vstd::arithmetic::div_mod::lemma_fundamental_div_mod_converse(
        nbits + 1 + 7,
        8,
        b.len() as int,
        h,
    );
    assert(b.len() == (nbits + 1 + 7) / 8);
    lemma_bytes_from_bits(nbits + 1, b);
}

/// Round trip: decoding the encoding of any bit list, under any capacity
/// it fits, yields the same bits — the sentinel fixes the length exactly.
pub proof fn lemma_bitlist_roundtrip(s: Seq<bool>, max_len: usize)
    requires
        s.len() <= max_len,
    ensures
        spec_bitlist_decode(max_len, spec_bitlist_bytes(s)) == Ok::<Seq<bool>, DecodeError>(s),
{
    let t = s.push(true);
    let b = spec_bitvector_bytes(t);
    let n = s.len() as int;
    lemma_bitvector_bytes_bits(t);
    vstd::arithmetic::div_mod::lemma_fundamental_div_mod(n, 8);
    let q = n / 8;
    let r = n % 8;
    vstd::arithmetic::div_mod::lemma_fundamental_div_mod_converse(n + 8, 8, q + 1, r);
    assert(t.len() + 7 == n + 8);
    assert(b.len() == q + 1);
    let p = b[q];
    assert(b.last() == p);
    assert(p == spec_pack_byte(t, 8 * q));
    let b0 = spec_bit_at(t, 8 * q);
    let b1 = spec_bit_at(t, 8 * q + 1);
    let b2 = spec_bit_at(t, 8 * q + 2);
    let b3 = spec_bit_at(t, 8 * q + 3);
    let b4 = spec_bit_at(t, 8 * q + 4);
    let b5 = spec_bit_at(t, 8 * q + 5);
    let b6 = spec_bit_at(t, 8 * q + 6);
    let b7 = spec_bit_at(t, 8 * q + 7);
    lemma_pack_unpack(b0, b1, b2, b3, b4, b5, b6, b7);
    let pi = b0 + 2 * b1 + 4 * b2 + 8 * b3 + 16 * b4 + 32 * b5 + 64 * b6 + 128 * b7;
    assert(p as int == pi);
    // the sentinel is bit `r` of the last byte, and nothing sits above it
    assert(spec_bit_at(t, 8 * q + r) == 1);
    assert(r < 1 ==> b1 == 0);
    assert(r < 2 ==> b2 == 0);
    assert(r < 3 ==> b3 == 0);
    assert(r < 4 ==> b4 == 0);
    assert(r < 5 ==> b5 == 0);
    assert(r < 6 ==> b6 == 0);
    assert(r < 7 ==> b7 == 0);
    if r == 0 {
        assert(spec_high_bit(p) == r);
    } else if r == 1 {
        assert(spec_high_bit(p) == r);
    } else if r == 2 {
        assert(spec_high_bit(p) == r);
    } else if r == 3 {
        assert(spec_high_bit(p) == r);
    } else if r == 4 {
        assert(spec_high_bit(p) == r);
    } else if r == 5 {
        assert(spec_high_bit(p) == r);
    } else if r == 6 {
        assert(spec_high_bit(p) == r);
    } else {
        assert(r == 7);
        assert(spec_high_bit(p) == r);
    }
    assert(p != 0);
    assert(8 * (b.len() - 1) + spec_high_bit(b.last()) == n);
    assert forall|i: int| 0 <= i < n implies #[trigger] spec_bit_of(b, i) == s[i] by {
        assert(i < 8 * b.len());
        assert(spec_bit_at(t, i) == 1 <==> s[i]);
    }
    assert(Seq::new(n as nat, |i: int| spec_bit_of(b, i)) =~= s);
}

} // verus!
