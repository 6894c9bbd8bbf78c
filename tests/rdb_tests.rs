use redis_lite::rdb::{hex_to_bytes, parse_rdb, read_length_encoded, LengthEncodedValue, RdbValue};

#[test]
fn test_integer_6bit() {
    let bytes = [0b11000000u8, 0b10101010];
    match read_length_encoded(&bytes, 0) {
        Some((LengthEncodedValue::Integer(i), _)) => assert_eq!(i, 0b10101010),
        _ => panic!("Expected Integer"),
    }

    let bytes = [0b11000001u8, 0x34, 0x12];
    match read_length_encoded(&bytes, 0) {
        Some((LengthEncodedValue::Integer(i), _)) => assert_eq!(i, 0x1234),
        _ => panic!("Expected Integer"),
    }

    let bytes = [0b11000010u8, 0x78, 0x56, 0x34, 0x12];
    match read_length_encoded(&bytes, 0) {
        Some((LengthEncodedValue::Integer(i), _)) => assert_eq!(i, 0x12345678),
        _ => panic!("Expected Integer"),
    }
}

#[test]
fn test_string_14bit() {
    let bytes = [0b01000000u8, 0x03, b'a', b'b', b'c'];
    match read_length_encoded(&bytes, 0) {
        Some((LengthEncodedValue::String(s), _)) => assert_eq!(s, b"abc"),
        _ => panic!("Expected String"),
    }
}

#[test]
fn test_string_6bit() {
    let bytes = [0b00000011u8, b'x', b'y', b'z'];
    match read_length_encoded(&bytes, 0) {
        Some((LengthEncodedValue::String(s), _)) => assert_eq!(s, b"xyz"),
        _ => panic!("Expected String"),
    }
}

#[test]
fn test_string_32bit() {
    let bytes = [0b10000000u8, 0x00, 0x00, 0x00, 0x03, b'1', b'2', b'3'];
    match read_length_encoded(&bytes, 0) {
        Some((LengthEncodedValue::String(s), _)) => assert_eq!(s, b"123"),
        _ => panic!("Expected String"),
    }
}

#[test]
fn test_deserialize_file() {
    let data = "524544495330303131fa0972656469732d76657205372e322e30fa0a72656469732d62697473c040fe00fb010000047065617209626c75656265727279ffb64ad09079e1b2ce";
    let bytes = hex_to_bytes(data.as_bytes());
    let rdb = parse_rdb(&bytes).unwrap();
    assert_eq!(rdb.len(), 1);
    assert_eq!(rdb[0].key, b"pear");
    let RdbValue::String(v) = &rdb[0].value;
    assert_eq!(v, b"blueberry");
    assert_eq!(rdb[0].expiry, None);
}

#[test]
fn snapshot_with_millisecond_expiry() {
    let mut bytes = b"REDIS0011".to_vec();
    bytes.extend_from_slice(&[0xFE, 0x00, 0xFB, 0x01, 0x01]);
    bytes.push(0xFC);
    bytes.extend_from_slice(&1_700_000_000_000u64.to_le_bytes());
    bytes.extend_from_slice(&[0x00, 0x01, b'k', 0x02, b'v', b'1']);
    bytes.push(0xFF);
    let rdb = parse_rdb(&bytes).unwrap();
    assert_eq!(rdb.len(), 1);
    assert_eq!(rdb[0].expiry, Some(1_700_000_000_000));
    let RdbValue::String(v) = &rdb[0].value;
    assert_eq!(v, b"v1");
}

#[test]
fn integer_value_reads_as_decimal_string() {
    let mut bytes = b"REDIS0011".to_vec();
    bytes.extend_from_slice(&[0x00, 0x01, b'n', 0xC0, 0x2A, 0xFF]);
    let rdb = parse_rdb(&bytes).unwrap();
    let RdbValue::String(v) = &rdb[0].value;
    assert_eq!(v, b"42");
}

#[test]
fn malformed_snapshot_is_refused() {
    assert!(parse_rdb(b"REDIS0011\x00\x05ab").is_none());
    assert!(parse_rdb(b"NOTRDB0011\xff").is_none());
    assert!(parse_rdb(b"REDIS0011").is_none());
}

#[test]
fn hex_pairs_decode() {
    assert_eq!(hex_to_bytes(b"00ff7A"), vec![0x00, 0xFF, 0x7A]);
}
