use lnp_presentation::errors::DecodeError;
use lnp_presentation::tlv::{RawValue, Stream, Type, Unmarshaller};

#[test]
fn roundtrip_stream() {
    let mut s = Stream::new();
    assert!(s.insert(Type(1), b"a"));
    assert!(s.insert(Type(0xFD), b"xy"));
    assert!(s.insert(Type(3), b""));
    // Re-inserting a type reports that it was not new.
    assert!(!s.insert(Type(1), b"b"));
    let bytes = s.encode();
    let decoded = Stream::decode(&bytes).unwrap();
    assert_eq!(decoded, s);
    assert_eq!(decoded.len(), 3);
    assert_eq!(decoded.get(&Type(1)).unwrap().as_slice(), b"b");
    assert_eq!(decoded.get(&Type(3)).unwrap().len(), 0);
    assert_eq!(decoded.get(&Type(0xFD)).unwrap().as_slice(), b"xy");
    assert!(decoded.get(&Type(2)).is_none());
}

#[test]
fn empty_stream_identity() {
    let s = Stream::new();
    assert_eq!(s.encode().len(), 0);
    let decoded = Stream::decode(&[]).unwrap();
    assert!(decoded.is_empty());
    assert_eq!(decoded.len(), 0);
}

#[test]
fn out_of_order_rejected() {
    // Type 5 with an empty value, then type 3.
    let bytes = [5u8, 0, 3, 0];
    assert_eq!(Stream::decode(&bytes), Err(DecodeError::OutOfOrderType));
}

#[test]
fn duplicate_rejected() {
    // Type 5 twice.
    let bytes = [5u8, 0, 5, 0];
    assert_eq!(Stream::decode(&bytes), Err(DecodeError::DuplicateType));
}

#[test]
fn non_minimal_varint_rejected() {
    // The value 10 written in the three-byte marker form instead of one byte.
    let bytes = [0xFDu8, 0x00, 0x0A, 0x00];
    assert_eq!(Stream::decode(&bytes), Err(DecodeError::MalformedVarint));
    // The same non-minimal form used for a record's length.
    let bytes = [5u8, 0xFD, 0x00, 0x0A, 0, 0, 0, 0, 0, 0, 0, 0, 0];
    assert_eq!(Stream::decode(&bytes), Err(DecodeError::MalformedVarint));
}

#[test]
fn truncated_varint_rejected() {
    // A three-byte marker with only one byte after it.
    let bytes = [0xFDu8, 0x01];
    assert_eq!(Stream::decode(&bytes), Err(DecodeError::MalformedVarint));
}

#[test]
fn oversized_record_rejected() {
    // Type 5 declaring a 0x10000-byte value, above the configured maximum.
    let bytes = [5u8, 0xFE, 0x00, 0x01, 0x00, 0x00];
    assert_eq!(Stream::decode(&bytes), Err(DecodeError::RecordTooLarge));
}

#[test]
fn truncated_value_rejected() {
    // Type 5 declaring three value bytes with only two present.
    let bytes = [5u8, 3, 1, 2];
    assert_eq!(Stream::decode(&bytes), Err(DecodeError::TruncatedInput));
}

#[test]
fn even_odd_policy() {
    let u = Unmarshaller::new();
    // Unknown even type 4: the whole message is rejected.
    assert_eq!(
        u.unmarshall(&[4u8, 1, 0xAA]),
        Err(DecodeError::UnknownEvenType)
    );
    // Unknown odd type 5: accepted, raw value retained.
    let s = u.unmarshall(&[5u8, 1, 0xBB]).unwrap();
    assert_eq!(s.get(&Type(5)).unwrap().as_slice(), &[0xBBu8][..]);
    // The same even type passes once it is in the known-type table.
    let k = Unmarshaller::with_known_types(vec![4]);
    let s2 = k.unmarshall(&[4u8, 1, 0xAA]).unwrap();
    assert!(s2.contains_key(&Type(4)));
    assert_eq!(s2.get(&Type(4)).unwrap().as_slice(), &[0xAAu8][..]);
}

#[test]
fn unmarshall_propagates_decode_errors() {
    let u = Unmarshaller::new();
    assert_eq!(
        u.unmarshall(&[5u8, 0, 3, 0]),
        Err(DecodeError::OutOfOrderType)
    );
}

#[test]
fn varint_boundary_forms() {
    let mut s = Stream::new();
    assert!(s.insert(Type(0xFC), b""));
    assert!(s.insert(Type(0xFD), b""));
    assert!(s.insert(Type(0x10000), b""));
    assert!(s.insert(Type(0x1_0000_0000), b""));
    let bytes = s.encode();
    let expect: Vec<u8> = vec![
        0xFC, 0x00, // one-byte type, empty value
        0xFD, 0x00, 0xFD, 0x00, // three-byte type
        0xFE, 0x00, 0x01, 0x00, 0x00, 0x00, // five-byte type
        0xFF, 0x00, 0x00, 0x00, 0x01, 0x00, 0x00, 0x00, 0x00, 0x00, // nine-byte type
    ];
    assert_eq!(bytes, expect);
    assert_eq!(Stream::decode(&bytes).unwrap(), s);
}

#[test]
fn raw_value_accessors() {
    let v = RawValue::new(vec![1, 2, 3]);
    assert_eq!(v.len(), 3);
    assert!(!v.is_empty());
    assert_eq!(v.as_slice(), &[1u8, 2, 3][..]);
    let e = RawValue::new(vec![]);
    assert_eq!(e.len(), 0);
    assert!(e.is_empty());
}

#[test]
fn type_parity() {
    assert!(Type(4).is_even());
    assert!(!Type(4).is_odd());
    assert!(Type(5).is_odd());
    assert!(!Type(5).is_even());
    assert_eq!(Type(7).into_inner(), 7);
}
