use ssz_codec::bitfield::BitList;
use ssz_codec::bitfield::BitVector;
use ssz_codec::errors::DecodeError;

fn bits_of(len: usize, set: &[usize]) -> Vec<bool> {
    let mut v = vec![false; len];
    for &i in set {
        v[i] = true;
    }
    v
}

#[test]
fn bitvector_twelve_bits_packs_lsb_first() {
    // 12 bits with {0, 3, 11} set: two bytes
    let v = BitVector::from_bits(bits_of(12, &[0, 3, 11]));
    let buf = v.encode();
    assert_eq!(buf, vec![0b0000_1001, 0b0000_1000]);

    let back = BitVector::decode(12, &buf).unwrap();
    assert_eq!(back.nbits(), 12);
    for i in 0..12 {
        assert_eq!(back.bit(i), i == 0 || i == 3 || i == 11);
    }
}

#[test]
fn bitvector_rejects_set_padding_bits() {
    // same buffer with bits 13, 14 and 15 set: past the arity of 12
    let buf: Vec<u8> = vec![0b0000_1001, 0b1110_1000];
    assert_eq!(
        BitVector::decode(12, &buf),
        Err(DecodeError::InvalidPadding)
    );
}

#[test]
fn bitvector_rejects_wrong_byte_count() {
    assert_eq!(
        BitVector::decode(12, &[1]),
        Err(DecodeError::InvalidLength(1))
    );
    assert_eq!(
        BitVector::decode(12, &[1, 2, 3]),
        Err(DecodeError::InvalidLength(3))
    );
}

#[test]
fn bitvector_exact_multiple_of_eight_round_trips() {
    let v = BitVector::from_bits(bits_of(8, &[7]));
    let buf = v.encode();
    assert_eq!(buf, vec![0b1000_0000]);
    let back = BitVector::decode(8, &buf).unwrap();
    assert_eq!(back, v);
}

#[test]
fn bitlist_round_trips_with_sentinel() {
    let l = BitList::from_bits(10, bits_of(3, &[0, 2])).unwrap();
    let buf = l.encode();
    // bits 101, sentinel at position 3: 0b1101
    assert_eq!(buf, vec![0b0000_1101]);
    let back = BitList::decode(10, &buf).unwrap();
    assert_eq!(back.len(), 3);
    assert!(back.bit(0));
    assert!(!back.bit(1));
    assert!(back.bit(2));
}

#[test]
fn empty_bitlist_is_one_sentinel_byte() {
    let l = BitList::new(10);
    let buf = l.encode();
    assert_eq!(buf, vec![1]);
    let back = BitList::decode(10, &buf).unwrap();
    assert_eq!(back.len(), 0);
}

#[test]
fn bitlist_rejects_empty_input() {
    assert_eq!(BitList::decode(10, &[]), Err(DecodeError::InvalidLength(0)));
}

#[test]
fn bitlist_rejects_sentinel_less_last_byte() {
    assert_eq!(BitList::decode(10, &[0]), Err(DecodeError::TrailingBytes));
    assert_eq!(
        BitList::decode(32, &[0xff, 0]),
        Err(DecodeError::TrailingBytes)
    );
}

#[test]
fn bitlist_rejects_length_over_capacity() {
    // 8 bits plus a sentinel in the second byte: 8 bits > capacity 7
    let buf: Vec<u8> = vec![0b1010_1010, 1];
    assert_eq!(BitList::decode(7, &buf), Err(DecodeError::TooManyItems(7)));
    assert!(BitList::decode(8, &buf).is_ok());
}

#[test]
fn bitlist_capacity_is_checked_at_construction() {
    assert_eq!(
        BitList::from_bits(2, vec![true, false, true]),
        Err(DecodeError::TooManyItems(3))
    );
}

#[test]
fn bitlist_at_exact_capacity_round_trips() {
    let l = BitList::from_bits(9, bits_of(9, &[8])).unwrap();
    let buf = l.encode();
    // nine bits (only bit 8 set), sentinel at position 9
    assert_eq!(buf, vec![0, 0b0000_0011]);
    let back = BitList::decode(9, &buf).unwrap();
    assert_eq!(back.len(), 9);
    assert!(back.bit(8));
}

#[test]
fn bitvector_decode_then_encode_reproduces_input() {
    let buf: Vec<u8> = vec![0b0000_0101, 0b0000_1000];
    let v = BitVector::decode(12, &buf).unwrap();
    assert_eq!(v.encode(), buf);
}

#[test]
fn bitlist_decode_then_encode_reproduces_input() {
    let buf: Vec<u8> = vec![0b0000_1101];
    let l = BitList::decode(20, &buf).unwrap();
    assert_eq!(l.encode(), buf);
}
