use asteroid_mq::protocol::codec::{from_be_bytes, to_be_bytes, DecodeError};
use asteroid_mq::protocol::topic::TopicCode;
use bytes::{Bytes, BytesMut};

#[test]
fn topic_code_holds_the_bytes_of_its_text() {
    let code = TopicCode::new("orders");
    assert_eq!(code.as_bytes(), b"orders");
    assert_eq!(TopicCode::const_new("événement").as_bytes(), "événement".as_bytes());
    assert_eq!(TopicCode::new("").as_bytes(), b"");
    assert_eq!(code.to_text(), Some("orders".to_string()));
    assert_eq!(TopicCode::new("日本").to_text(), Some("日本".to_string()));
}

#[test]
fn topic_code_compares_by_bytes() {
    let code = TopicCode::new("orders");
    assert!(code.same_as(&TopicCode::const_new("orders")));
    assert!(!code.same_as(&TopicCode::new("order")));
    assert!(code.duplicate().same_as(&code));
    assert_eq!(code.clone(), code);
    assert!(TopicCode::new("a") < TopicCode::new("b"));
}

#[test]
fn topic_code_from_bytes_validates() {
    let code = TopicCode::from_bytes(b"orders").unwrap();
    assert_eq!(code.as_bytes(), b"orders");
    assert!(TopicCode::from_bytes(&[0xff, 0xfe]).is_none());
    assert!(TopicCode::from_bytes(&[0xc3]).is_none());
    assert!(TopicCode::from_bytes(&[0xc3, 0xa9]).is_some());
}

#[test]
fn big_endian_length_round_trips() {
    assert_eq!(to_be_bytes(0x0809_a0a1), [0x08, 0x09, 0xa0, 0xa1]);
    assert_eq!(to_be_bytes(6), [0, 0, 0, 6]);
    assert_eq!(to_be_bytes(u32::MAX), [0xff; 4]);
    assert_eq!(from_be_bytes(&[0x08, 0x09, 0xa0, 0xa1]), 0x0809_a0a1);
    assert_eq!(from_be_bytes(&[0, 0, 1, 0]), 256);
    assert_eq!(from_be_bytes(&[0xff; 4]), u32::MAX);
}

#[test]
fn topic_code_encodes_with_a_length_prefix() {
    let mut buffer = BytesMut::new();
    buffer.extend_from_slice(b"..");
    TopicCode::new("orders").encode(&mut buffer);
    assert_eq!(&buffer[..], b"..\x00\x00\x00\x06orders");
    TopicCode::new("").encode(&mut buffer);
    assert_eq!(&buffer[..], b"..\x00\x00\x00\x06orders\x00\x00\x00\x00");
}

#[test]
fn topic_code_decodes_what_it_encodes() {
    let mut buffer = BytesMut::new();
    TopicCode::new("orders").encode(&mut buffer);
    TopicCode::new("é").encode(&mut buffer);
    buffer.extend_from_slice(b"tail");
    let (first, rest) = TopicCode::decode(buffer.freeze()).unwrap();
    assert_eq!(first.as_bytes(), b"orders");
    let (second, rest) = TopicCode::decode(rest).unwrap();
    assert_eq!(second.as_bytes(), "é".as_bytes());
    assert_eq!(&rest[..], b"tail");
}

#[test]
fn topic_code_decode_rejects_short_input() {
    assert_eq!(TopicCode::decode(Bytes::new()).err(), Some(DecodeError::UnexpectedEnd));
    assert_eq!(
        TopicCode::decode(Bytes::from_static(b"\x00\x00\x00")).err(),
        Some(DecodeError::UnexpectedEnd)
    );
    assert_eq!(
        TopicCode::decode(Bytes::from_static(b"\x00\x00\x00\x03ab")).err(),
        Some(DecodeError::UnexpectedEnd)
    );
    let (empty, rest) = TopicCode::decode(Bytes::from_static(b"\x00\x00\x00\x00ab")).unwrap();
    assert_eq!(empty.as_bytes(), b"");
    assert_eq!(&rest[..], b"ab");
}

#[test]
fn topic_code_decode_rejects_invalid_text() {
    assert_eq!(
        TopicCode::decode(Bytes::from_static(b"\x00\x00\x00\x02\xff\xfeab")).err(),
        Some(DecodeError::InvalidUtf8)
    );
}

#[test]
fn topic_code_try_encode_appends_what_fits() {
    let mut buffer = BytesMut::new();
    assert!(TopicCode::new("orders").try_encode(&mut buffer));
    assert_eq!(&buffer[..], b"\x00\x00\x00\x06orders");
    assert!(TopicCode::new("").try_encode(&mut buffer));
    assert_eq!(&buffer[..], b"\x00\x00\x00\x06orders\x00\x00\x00\x00");
    let (first, rest) = TopicCode::decode(buffer.freeze()).unwrap();
    assert_eq!(first.as_bytes(), b"orders");
    assert_eq!(&rest[..], b"\x00\x00\x00\x00");
}
