use ssz_codec::bounded_list::BoundedList;
use ssz_codec::classify::container_classification;
use ssz_codec::classify::list_classification;
use ssz_codec::classify::vector_classification;
use ssz_codec::classify::Classification;
use ssz_codec::container::decode_container;
use ssz_codec::container::encode_container;
use ssz_codec::errors::DecodeError;
use ssz_codec::fixed_vector::decode_fixed_vector;
use ssz_codec::fixed_vector::encode_fixed_vector;

#[test]
fn container_of_fixed_fields_is_fixed() {
    let schema = vec![Classification::Fixed(2), Classification::Fixed(3)];
    assert_eq!(container_classification(&schema), Classification::Fixed(5));
}

#[test]
fn container_with_a_variable_field_is_variable() {
    let schema = vec![Classification::Fixed(2), Classification::Variable];
    assert_eq!(container_classification(&schema), Classification::Variable);
}

#[test]
fn vector_classification_multiplies_arity() {
    assert_eq!(
        vector_classification(Classification::Fixed(4), 3),
        Classification::Fixed(12)
    );
    assert_eq!(
        vector_classification(Classification::Variable, 3),
        Classification::Variable
    );
}

#[test]
fn lists_are_always_variable() {
    assert_eq!(
        list_classification(Classification::Fixed(4)),
        Classification::Variable
    );
    assert_eq!(
        list_classification(Classification::Variable),
        Classification::Variable
    );
}

#[test]
fn fixed_vector_round_trips() {
    let items: Vec<Vec<u8>> = vec![vec![1, 2], vec![3, 4], vec![5, 6]];
    let buf = encode_fixed_vector(&items, 2);
    assert_eq!(buf, vec![1, 2, 3, 4, 5, 6]);
    let back = decode_fixed_vector(&buf, 3, 2).unwrap();
    assert_eq!(back, items);
}

#[test]
fn fixed_vector_rejects_wrong_length() {
    assert_eq!(
        decode_fixed_vector(&[1, 2, 3, 4, 5], 3, 2),
        Err(DecodeError::InvalidLength(5))
    );
    assert_eq!(
        decode_fixed_vector(&[1, 2, 3, 4, 5, 6, 7, 8], 3, 2),
        Err(DecodeError::InvalidLength(8))
    );
}

#[test]
fn container_interleaves_fixed_fields_and_offsets() {
    let schema = vec![
        Classification::Fixed(1),
        Classification::Variable,
        Classification::Variable,
    ];
    let fields: Vec<Vec<u8>> = vec![vec![7], vec![1, 2], vec![]];
    let buf = encode_container(&schema, &fields);
    // fixed region: the 1-byte field, then two absolute offsets (9 and 11)
    assert_eq!(buf, vec![7, 9, 0, 0, 0, 11, 0, 0, 0, 1, 2]);
    let back = decode_container(&schema, &buf).unwrap();
    assert_eq!(back, fields);
}

#[test]
fn all_fixed_container_rejects_trailing_bytes() {
    let schema = vec![Classification::Fixed(2)];
    assert_eq!(
        decode_container(&schema, &[1, 2, 3]),
        Err(DecodeError::TrailingBytes)
    );
    assert_eq!(decode_container(&schema, &[1, 2]), Ok(vec![vec![1, 2]]));
}

#[test]
fn container_rejects_decreasing_offsets() {
    let schema = vec![Classification::Variable, Classification::Variable];
    let buf: Vec<u8> = vec![8, 0, 0, 0, 7, 0, 0, 0, 1, 2];
    assert_eq!(
        decode_container(&schema, &buf),
        Err(DecodeError::OffsetIntoFixedPortion(7))
    );
    let buf2: Vec<u8> = vec![8, 0, 0, 0, 10, 0, 0, 0, 1, 2, 3];
    let back = decode_container(&schema, &buf2).unwrap();
    assert_eq!(back, vec![vec![1, 2], vec![3]]);
    let buf3: Vec<u8> = vec![12, 0, 0, 0, 15, 0, 0, 0, 14, 0, 0, 0, 1, 2, 3];
    let schema3 = vec![
        Classification::Variable,
        Classification::Variable,
        Classification::Variable,
    ];
    assert_eq!(
        decode_container(&schema3, &buf3),
        Err(DecodeError::OffsetsDecreasing(14))
    );
}

#[test]
fn bounded_list_of_fixed_elements_round_trips_at_capacity() {
    let mut l = BoundedList::new(3, Classification::Fixed(2));
    assert_eq!(l.push(vec![1, 2]), Ok(()));
    assert_eq!(l.push(vec![3, 4]), Ok(()));
    assert_eq!(l.push(vec![5, 6]), Ok(()));
    let buf = l.encode();
    assert_eq!(buf, vec![1, 2, 3, 4, 5, 6]);
    let back = BoundedList::decode(3, Classification::Fixed(2), &buf).unwrap();
    assert_eq!(back.len(), 3);
    assert_eq!(back.item(0), &vec![1, 2]);
    assert_eq!(back.item(2), &vec![5, 6]);
}

#[test]
fn bounded_list_refuses_element_past_capacity() {
    let mut l = BoundedList::new(2, Classification::Fixed(2));
    assert_eq!(l.push(vec![1, 2]), Ok(()));
    assert_eq!(l.push(vec![3, 4]), Ok(()));
    assert_eq!(l.push(vec![5, 6]), Err(DecodeError::TooManyItems(2)));
    assert_eq!(l.len(), 2);
}

#[test]
fn bounded_list_refuses_wrong_size_element() {
    let mut l = BoundedList::new(2, Classification::Fixed(2));
    assert_eq!(l.push(vec![1, 2, 3]), Err(DecodeError::InvalidLength(3)));
    assert_eq!(l.len(), 0);
}

#[test]
fn bounded_list_decode_rejects_too_many_elements() {
    // four 2-byte elements against a capacity of three
    assert_eq!(
        BoundedList::decode(3, Classification::Fixed(2), &[1, 2, 3, 4, 5, 6, 7, 8]),
        Err(DecodeError::TooManyItems(4))
    );
}

#[test]
fn bounded_list_decode_rejects_ragged_length() {
    assert_eq!(
        BoundedList::decode(3, Classification::Fixed(2), &[1, 2, 3]),
        Err(DecodeError::InvalidLength(3))
    );
}

#[test]
fn bounded_list_of_variable_elements_round_trips() {
    let mut l = BoundedList::new(4, Classification::Variable);
    assert_eq!(l.push(vec![97, 98]), Ok(()));
    assert_eq!(l.push(vec![99]), Ok(()));
    let buf = l.encode();
    // two absolute offsets (8 and 10), then the payloads
    assert_eq!(buf, vec![8, 0, 0, 0, 10, 0, 0, 0, 97, 98, 99]);
    let back = BoundedList::decode(4, Classification::Variable, &buf).unwrap();
    assert_eq!(back.len(), 2);
    assert_eq!(back.item(0), &vec![97, 98]);
    assert_eq!(back.item(1), &vec![99]);
}

#[test]
fn empty_variable_list_is_empty_buffer() {
    let l = BoundedList::new(4, Classification::Variable);
    assert_eq!(l.encode(), Vec::<u8>::new());
    let back = BoundedList::decode(4, Classification::Variable, &[]).unwrap();
    assert_eq!(back.len(), 0);
}

#[test]
fn variable_list_decode_rejects_too_many_elements() {
    // first offset implies three elements against a capacity of two
    let buf: Vec<u8> = vec![12, 0, 0, 0, 12, 0, 0, 0, 12, 0, 0, 0];
    assert_eq!(
        BoundedList::decode(2, Classification::Variable, &buf),
        Err(DecodeError::TooManyItems(3))
    );
    assert!(BoundedList::decode(3, Classification::Variable, &buf).is_ok());
}

#[test]
fn variable_list_decode_rejects_unaligned_table() {
    assert_eq!(
        BoundedList::decode(4, Classification::Variable, &[6, 0, 0, 0, 0, 0]),
        Err(DecodeError::InvalidFixedPortionLength(6))
    );
    assert_eq!(
        BoundedList::decode(4, Classification::Variable, &[1, 0]),
        Err(DecodeError::InvalidFixedPortionLength(2))
    );
}

#[test]
fn variable_list_decode_then_encode_reproduces_input() {
    let buf: Vec<u8> = vec![8, 0, 0, 0, 10, 0, 0, 0, 1, 2, 3];
    let l = BoundedList::decode(4, Classification::Variable, &buf).unwrap();
    assert_eq!(l.encode(), buf);
}
