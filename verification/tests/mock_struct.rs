use ssz_codec::errors::DecodeError;
use ssz_codec::mock_struct::Foo;

#[test]
fn foo_encodes_fixed_fields_and_offset() {
    let foo = Foo { a: 0x1234, b: vec![1, 2, 3], c: 0x5678 };
    let mut buf: Vec<u8> = Vec::new();
    foo.ssz_append(&mut buf);
    // a (LE), offset of b's payload (always 8), c (LE), then b
    let expected: Vec<u8> = vec![0x34, 0x12, 8, 0, 0, 0, 0x78, 0x56, 1, 2, 3];
    assert_eq!(buf, expected);
    assert_eq!(foo.ssz_bytes_len(), buf.len());
}

#[test]
fn foo_round_trips() {
    let foo = Foo { a: 7, b: vec![42; 9], c: 65535 };
    let mut buf: Vec<u8> = Vec::new();
    foo.ssz_append(&mut buf);
    let back = Foo::from_ssz_bytes(&buf).unwrap();
    assert_eq!(back, foo);
}

#[test]
fn foo_with_empty_payload_round_trips() {
    let foo = Foo { a: 0, b: Vec::new(), c: 0 };
    let mut buf: Vec<u8> = Vec::new();
    foo.ssz_append(&mut buf);
    assert_eq!(buf.len(), 8);
    let back = Foo::from_ssz_bytes(&buf).unwrap();
    assert_eq!(back, foo);
}

#[test]
fn foo_is_variable_size() {
    assert!(!Foo::is_ssz_fixed_len());
}

#[test]
fn foo_rejects_short_buffer() {
    assert_eq!(
        Foo::from_ssz_bytes(&[1, 2, 3]),
        Err(DecodeError::InvalidLength(3))
    );
}

#[test]
fn foo_rejects_offset_into_fixed_region() {
    let buf: Vec<u8> = vec![0x34, 0x12, 4, 0, 0, 0, 0x78, 0x56, 1];
    assert_eq!(
        Foo::from_ssz_bytes(&buf),
        Err(DecodeError::OffsetIntoFixedPortion(4))
    );
}

#[test]
fn foo_rejects_gap_after_fixed_region() {
    // the payload must start exactly at the fixed region's end
    let buf: Vec<u8> = vec![0x34, 0x12, 9, 0, 0, 0, 0x78, 0x56, 1, 2];
    assert_eq!(
        Foo::from_ssz_bytes(&buf),
        Err(DecodeError::InvalidFixedPortionLength(9))
    );
}

#[test]
fn foo_rejects_offset_past_buffer() {
    let buf: Vec<u8> = vec![0x34, 0x12, 100, 0, 0, 0, 0x78, 0x56, 1];
    assert_eq!(
        Foo::from_ssz_bytes(&buf),
        Err(DecodeError::OffsetOutOfBounds(100))
    );
}
