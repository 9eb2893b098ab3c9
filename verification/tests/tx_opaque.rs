use ssz_codec::errors::DecodeError;
use ssz_codec::tx_opaque::TxOpaque;

fn items(v: &[&[u8]]) -> Vec<Vec<u8>> {
    v.iter().map(|s| s.to_vec()).collect()
}

#[test]
fn empty_list_encodes_to_empty_buffer() {
    let t = TxOpaque::from_items(&Vec::new()).unwrap();
    let mut buf: Vec<u8> = Vec::new();
    t.ssz_write(&mut buf);
    assert_eq!(buf, Vec::<u8>::new());
    assert_eq!(t.ssz_bytes_len(), 0);
}

#[test]
fn empty_buffer_decodes_to_empty_list() {
    let t = TxOpaque::ssz_read(&[]).unwrap();
    let mut it = t.iter();
    assert_eq!(it.next(), None);
    assert_eq!(t, TxOpaque::default());
}

#[test]
fn three_items_layout() {
    // item lengths [3, 0, 5]: table of 3 offsets (12 bytes), wire offsets
    // [12, 15, 15], then 8 payload bytes; 20 bytes in all
    let t = TxOpaque::from_items(&items(&[&[1, 2, 3], &[], &[9, 8, 7, 6, 5]])).unwrap();
    let mut buf: Vec<u8> = Vec::new();
    t.ssz_write(&mut buf);
    let expected: Vec<u8> = vec![
        12, 0, 0, 0, // item 0 starts right after the table
        15, 0, 0, 0, // item 1 is empty and starts where item 0 ends
        15, 0, 0, 0, // item 2 starts at the same place
        1, 2, 3, 9, 8, 7, 6, 5,
    ];
    assert_eq!(buf, expected);
    assert_eq!(buf.len(), 20);

    let back = TxOpaque::ssz_read(&buf).unwrap();
    let mut it = back.iter();
    assert_eq!(it.next(), Some(&[1u8, 2, 3][..]));
    assert_eq!(it.next(), Some(&[][..]));
    assert_eq!(it.next(), Some(&[9u8, 8, 7, 6, 5][..]));
    assert_eq!(it.next(), None);
    assert_eq!(back, t);
}

#[test]
fn decode_then_encode_reproduces_input() {
    let buf: Vec<u8> = vec![8, 0, 0, 0, 11, 0, 0, 0, 1, 2, 3, 4, 5];
    let t = TxOpaque::ssz_read(&buf).unwrap();
    let mut out: Vec<u8> = Vec::new();
    t.ssz_write(&mut out);
    assert_eq!(out, buf);
}

#[test]
fn short_input_is_rejected() {
    assert_eq!(
        TxOpaque::ssz_read(&[5, 0]),
        Err(DecodeError::InvalidFixedPortionLength(2))
    );
}

#[test]
fn unaligned_first_offset_is_rejected() {
    assert_eq!(
        TxOpaque::ssz_read(&[2, 0, 0, 0]),
        Err(DecodeError::InvalidFixedPortionLength(2))
    );
}

#[test]
fn first_offset_out_of_bounds_is_rejected() {
    assert_eq!(
        TxOpaque::ssz_read(&[8, 0, 0, 0, 0, 0]),
        Err(DecodeError::OffsetOutOfBounds(8))
    );
}

#[test]
fn offset_into_table_is_rejected() {
    // two offsets, the second one (4) points into the 8-byte table itself
    let buf: Vec<u8> = vec![8, 0, 0, 0, 4, 0, 0, 0, 1, 2];
    assert_eq!(
        TxOpaque::ssz_read(&buf),
        Err(DecodeError::OffsetIntoFixedPortion(4))
    );
}

#[test]
fn corrupted_monotonicity_is_rejected() {
    // a valid encoding of three 2-byte items ...
    let mut buf: Vec<u8> = vec![12, 0, 0, 0, 14, 0, 0, 0, 16, 0, 0, 0, 1, 2, 3, 4, 5, 6];
    assert!(TxOpaque::ssz_read(&buf).is_ok());
    // ... with the third offset corrupted below the second
    buf[8] = 13;
    assert_eq!(
        TxOpaque::ssz_read(&buf),
        Err(DecodeError::OffsetsDecreasing(2))
    );
}

#[test]
fn middle_offset_past_buffer_is_rejected() {
    // three items; the second offset normalizes to 6, past the 4 value bytes
    let buf: Vec<u8> = vec![12, 0, 0, 0, 18, 0, 0, 0, 18, 0, 0, 0, 1, 2, 3, 4];
    assert_eq!(
        TxOpaque::ssz_read(&buf),
        Err(DecodeError::OffsetOutOfBounds(6))
    );
}

#[test]
fn too_many_items_is_rejected() {
    // 2^20 + 1 items: the first offset alone decides, before any payload
    let count: usize = 1048576 + 1;
    let first = (count * 4) as u32;
    let mut buf: Vec<u8> = Vec::with_capacity(count * 4);
    buf.extend_from_slice(&first.to_le_bytes());
    buf.resize(count * 4, 0);
    assert_eq!(
        TxOpaque::ssz_read(&buf),
        Err(DecodeError::TooManyItems(count))
    );
}

#[test]
fn oversized_item_is_rejected() {
    // the second wire offset makes item 0 one byte longer than the
    // per-item cap; the table alone decides, before any payload is read
    let item_len: u32 = 1073741824 + 1;
    let mut buf: Vec<u8> = Vec::new();
    buf.extend_from_slice(&8u32.to_le_bytes());
    buf.extend_from_slice(&(8 + item_len).to_le_bytes());
    buf.extend_from_slice(&[0, 0]);
    assert_eq!(
        TxOpaque::ssz_read(&buf),
        Err(DecodeError::ItemTooLarge(1073741824 + 1))
    );
}

#[test]
fn fixed_width_metadata() {
    assert!(!TxOpaque::is_ssz_static());
    assert_eq!(TxOpaque::ssz_fixed_len(), 4);
    assert_eq!(TxOpaque::ssz_max_len(), 1073741824u64 * 1048576u64);
}

#[test]
fn write_fixed_writes_offset_and_advances() {
    let t = TxOpaque::from_items(&items(&[&[1, 2, 3]])).unwrap();
    let mut buf: Vec<u8> = Vec::new();
    let mut offset: usize = 16;
    t.ssz_write_fixed(&mut offset, &mut buf);
    assert_eq!(buf, vec![16, 0, 0, 0]);
    // advanced by the table (4) plus the payload (3)
    assert_eq!(offset, 16 + 7);
    let mut var: Vec<u8> = Vec::new();
    t.ssz_write_variable(&mut var);
    assert_eq!(var, vec![4, 0, 0, 0, 1, 2, 3]);
}

#[test]
fn bytes_len_matches_encoding() {
    let t = TxOpaque::from_items(&items(&[&[1], &[2, 3]])).unwrap();
    let mut buf: Vec<u8> = Vec::new();
    t.ssz_write(&mut buf);
    assert_eq!(t.ssz_bytes_len(), buf.len());
    assert_eq!(t.ssz_bytes_len(), 8 + 3);
}
