use redis_lite::protocol::{parse_frame, Data, Parsed, RedisArray, MAX_FRAME_LEN};

#[test]
fn test_deserialize() {
    let input = "$10\r\nhellohello\r\n";
    let (data, _) = Data::deserialize(input);
    let Data::BStr(s) = data else {
        panic!("Expected BulkString variant");
    };
    assert_eq!(s, b"hellohello");
}

fn bulk(s: &str) -> Data {
    Data::BStr(s.as_bytes().to_vec())
}

#[test]
fn encode_each_kind() {
    assert_eq!(bulk("foo").encode(), b"$3\r\nfoo\r\n");
    assert_eq!(Data::SStr(b"OK".to_vec()).encode(), b"+OK\r\n");
    assert_eq!(Data::SimpleError(b"ERR x".to_vec()).encode(), b"-ERR x\r\n");
    assert_eq!(Data::Int(-42).encode(), b":-42\r\n");
    assert_eq!(Data::Int(2).encode(), b":2\r\n");
    assert_eq!(Data::Int(i64::MIN).encode(), b":-9223372036854775808\r\n");
    let arr = Data::Array(RedisArray(vec![bulk("PING")]));
    assert_eq!(arr.encode(), b"*1\r\n$4\r\nPING\r\n");
}

#[test]
fn round_trip_nested() {
    let v = Data::Array(RedisArray(vec![
        bulk("SET"),
        Data::Int(-7),
        Data::Array(RedisArray(vec![Data::SStr(b"a".to_vec()), bulk("")])),
        Data::SimpleError(b"oops".to_vec()),
    ]));
    let bytes = v.encode();
    match parse_frame(&bytes, 0, MAX_FRAME_LEN) {
        Parsed::Frame(d, n) => {
            assert_eq!(n, bytes.len());
            assert_eq!(d.encode(), bytes);
        }
        _ => panic!("expected a frame"),
    }
}

#[test]
fn partial_frames_need_more() {
    let bytes = b"*2\r\n$3\r\nfoo\r\n$3\r\nba";
    assert!(matches!(parse_frame(bytes, 0, MAX_FRAME_LEN), Parsed::Incomplete));
    assert!(matches!(parse_frame(b"", 0, MAX_FRAME_LEN), Parsed::Incomplete));
}

#[test]
fn malformed_frames_are_rejected() {
    assert!(matches!(parse_frame(b"?x\r\n", 0, MAX_FRAME_LEN), Parsed::Invalid));
    assert!(matches!(parse_frame(b"$03\r\nabc\r\n", 0, MAX_FRAME_LEN), Parsed::Invalid));
    assert!(matches!(parse_frame(b"$3\r\nabcd\r\n", 0, MAX_FRAME_LEN), Parsed::Invalid));
    assert!(matches!(parse_frame(b":-0\r\n", 0, MAX_FRAME_LEN), Parsed::Invalid));
}

#[test]
fn declared_length_over_the_maximum_is_rejected() {
    assert!(matches!(parse_frame(b"$11\r\nhello world\r\n", 0, 10), Parsed::Invalid));
    assert!(matches!(parse_frame(b"$10\r\nhellohello\r\n", 0, 10), Parsed::Frame(_, 17)));
}
