use entity_store::codec::{decode, encode_i32, CodecRegistry, ColumnCodec, ColumnData, DecodeError};

#[test]
fn i32_round_trip() {
    let values = vec![0, 1, -1, i32::MAX, i32::MIN, 258];
    let bytes = encode_i32(&values);
    assert_eq!(bytes.len(), 24);
    match decode(ColumnCodec::I32, &bytes) {
        Ok(ColumnData::I32(v)) => assert_eq!(v, values),
        _ => panic!("round trip failed"),
    }
}

#[test]
fn i32_encoding_is_little_endian() {
    assert_eq!(encode_i32(&vec![258]), vec![2, 1, 0, 0]);
    assert_eq!(encode_i32(&vec![-2]), vec![254, 255, 255, 255]);
}

#[test]
fn i32_bad_length() {
    let r = decode(ColumnCodec::I32, &vec![1, 2, 3, 4, 5]);
    assert!(matches!(r, Err(DecodeError::BadLength { len: 5, width: 4 })));
}

#[test]
fn bytes_codec_keeps_bytes() {
    match decode(ColumnCodec::Bytes, &vec![9, 8, 7]) {
        Ok(ColumnData::Bytes(b)) => assert_eq!(b, vec![9, 8, 7]),
        _ => panic!("expected bytes"),
    }
}

#[test]
fn registry_later_entry_replaces_earlier() {
    let mut r = CodecRegistry::new();
    assert_eq!(r.lookup(&"Position".to_string()), None);
    r.register("Position".to_string(), ColumnCodec::Bytes);
    r.register("Other".to_string(), ColumnCodec::Bytes);
    r.register("Position".to_string(), ColumnCodec::I32);
    assert_eq!(r.lookup(&"Position".to_string()), Some(ColumnCodec::I32));
    assert_eq!(r.lookup(&"Other".to_string()), Some(ColumnCodec::Bytes));
}
