use lnp_presentation::errors::DecodeError;
use lnp_presentation::message::{PublicKey, Request};

fn hex_digit(c: u8) -> u8 {
    match c {
        b'0'..=b'9' => c - b'0',
        b'a'..=b'f' => c - b'a' + 10,
        b'A'..=b'F' => c - b'A' + 10,
        _ => panic!("not a hex digit"),
    }
}

fn hex_to_bytes(s: &str) -> Vec<u8> {
    let b = s.as_bytes();
    assert!(b.len() % 2 == 0);
    let mut out = Vec::new();
    let mut i = 0;
    while i < b.len() {
        out.push(hex_digit(b[i]) * 16 + hex_digit(b[i + 1]));
        i += 2;
    }
    out
}

#[test]
fn roundtrip() {
    let message = Request::Hello(b"world".to_vec());
    let payload = message.serialize();
    assert_eq!(payload, b"\x00\x01\x05world".to_vec());
    let roundtrip = Request::decode(&payload).unwrap();
    assert_eq!(message, roundtrip);

    let message = Request::Empty();
    let payload = message.serialize();
    assert_eq!(payload, b"\x00\x03".to_vec());
    let roundtrip = Request::decode(&payload).unwrap();
    assert_eq!(message, roundtrip);

    let message = Request::NoArgs;
    let payload = message.serialize();
    assert_eq!(payload, b"\x00\x05".to_vec());
    let roundtrip = Request::decode(&payload).unwrap();
    assert_eq!(message, roundtrip);

    let hexes = [
        "020388ac0ff72e76002f6bdf1a08638390f0c43125c33688ca9e64cadff86248a6",
        "03c038e7a5a2710b50afe059c98085ce20455d7d5e681d5962b29e0a6727cfd9d4",
    ];
    let mut keys: Vec<PublicKey> = Vec::new();
    for h in hexes.iter() {
        keys.push(PublicKey::from_bytes(hex_to_bytes(h)).unwrap());
    }
    let message = Request::AddKeys(keys);
    let payload = message.serialize();
    let mut expect = b"\x01\x03\x02".to_vec();
    for h in hexes.iter() {
        expect.extend(hex_to_bytes(h));
    }
    assert_eq!(payload, expect);
    let roundtrip = Request::decode(&payload).unwrap();
    assert_eq!(message, roundtrip);
}

#[test]
fn zero_payload_encoding() {
    assert_eq!(Request::NoArgs.serialize(), vec![0x00, 0x05]);
    assert_eq!(Request::decode(&[0x00, 0x05]).unwrap(), Request::NoArgs);
}

#[test]
fn type_codes() {
    assert_eq!(Request::Hello(vec![]).type_code(), 0x0001);
    assert_eq!(Request::Empty().type_code(), 0x0003);
    assert_eq!(Request::NoArgs.type_code(), 0x0005);
    assert_eq!(Request::AddKeys(vec![]).type_code(), 0x0103);
}

#[test]
fn unknown_message_type_rejected() {
    assert_eq!(
        Request::decode(&[0x00, 0x02]),
        Err(DecodeError::UnknownMessageType)
    );
}

#[test]
fn trailing_bytes_rejected() {
    assert_eq!(
        Request::decode(&[0x00, 0x05, 0x00]),
        Err(DecodeError::TrailingBytes)
    );
    assert_eq!(
        Request::decode(&[0x00, 0x03, 0x01]),
        Err(DecodeError::TrailingBytes)
    );
    // A greeting whose declared length leaves a byte over.
    assert_eq!(
        Request::decode(b"\x00\x01\x04world"),
        Err(DecodeError::TrailingBytes)
    );
}

#[test]
fn truncated_message_rejected() {
    assert_eq!(Request::decode(&[0x00]), Err(DecodeError::TruncatedInput));
    assert_eq!(
        Request::decode(b"\x00\x01\x05wor"),
        Err(DecodeError::TruncatedInput)
    );
    // A key list declaring two keys with too few bytes behind it.
    assert_eq!(
        Request::decode(&[0x01, 0x03, 0x02, 0xAB]),
        Err(DecodeError::TruncatedInput)
    );
}

#[test]
fn oversized_payload_rejected() {
    // A greeting declaring a 0x10000-byte payload.
    let bytes = [0x00u8, 0x01, 0xFE, 0x00, 0x01, 0x00, 0x00];
    assert_eq!(Request::decode(&bytes), Err(DecodeError::RecordTooLarge));
}

#[test]
fn public_key_length_checked() {
    assert!(PublicKey::from_bytes(vec![2; 33]).is_some());
    assert!(PublicKey::from_bytes(vec![2; 32]).is_none());
    assert!(PublicKey::from_bytes(vec![]).is_none());
    let k = PublicKey::from_bytes(vec![3; 33]).unwrap();
    assert_eq!(k.to_bytes(), vec![3; 33]);
    assert_eq!(k.as_slice(), &[3u8; 33][..]);
}
