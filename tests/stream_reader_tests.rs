use redis_lite::protocol::{Data, RedisArray};
use redis_lite::reader::{ReadResult, StreamReader};

fn read_command(reader: &mut StreamReader) -> Data {
    match reader.read_redis_data() {
        ReadResult::Frame(d) => d,
        _ => panic!("expected a complete value"),
    }
}

#[test]
fn test_parse_ping_command() {
    let ping_command = b"*1\r\n$4\r\nPING\r\n";
    let mut reader = StreamReader::new(false);
    reader.feed(ping_command);

    let result = read_command(&mut reader);

    let Data::Array(RedisArray(array)) = result else {
        panic!("Expected a RedisArray");
    };
    let Data::BStr(command) = array.first().unwrap() else {
        panic!("Expected a BStr command");
    };

    assert_eq!(command, b"PING");
}

#[test]
fn test_process_replica_init_worst_case() {
    let commands = b"+FULLRESYNC 75cd7bc10c49047e0d163660f3b90625b1af31dc 0\r\n$88\r\nREDIS0011\xfa\tredis-ver\x057.2.0\xfa\nredis-bits\xc0@\xfa\x05ctime\xc2m\x08\xbce\xfa\x08used-mem\xc2\xb0\xc4\x10\0\xfa\x08aof-base\xc0\0\xff\xf0n;\xfe\xc0\xffZ\xa2*3\r\n$3\r\nSET\r\n$3\r\nfoo\r\n$3\r\n123\r\n*3\r\n$3\r\nSET\r\n$3\r\nbar\r\n$3\r\n456\r\n*3\r\n$3\r\nSET\r\n$3\r\nbaz\r\n$3\r\n789\r\n";

    let mut reader = StreamReader::new(true);
    reader.feed(commands);

    reader.receive_sstring().unwrap();
    reader.expect_bytes().unwrap();

    let result1 = read_command(&mut reader);
    let Data::Array(RedisArray(array1)) = result1 else {
        panic!("Expected a RedisArray");
    };
    let result2 = read_command(&mut reader);
    let Data::Array(RedisArray(array2)) = result2 else {
        panic!("Expected a RedisArray");
    };
    let result3 = read_command(&mut reader);
    let Data::Array(RedisArray(array3)) = result3 else {
        panic!("Expected a RedisArray");
    };

    let Data::BStr(command1) = array1.first().unwrap() else {
        panic!("Expected a BStr command");
    };
    let Data::BStr(command2) = array2.first().unwrap() else {
        panic!("Expected a BStr command");
    };
    let Data::BStr(command3) = array3.first().unwrap() else {
        panic!("Expected a BStr command");
    };

    assert_eq!(command1, b"SET");
    assert_eq!(command2, b"SET");
    assert_eq!(command3, b"SET");
}

#[test]
fn test_parse_multiple_set_commands() {
    let set_commands = b"*3\r\n$3\r\nSET\r\n$3\r\nfoo\r\n$3\r\n123\r\n*3\r\n$3\r\nSET\r\n$3\r\nbar\r\n$3\r\n456\r\n*3\r\n$3\r\nSET\r\n$3\r\nbaz\r\n$3\r\n789\r\n";
    let mut reader = StreamReader::new(false);
    reader.feed(set_commands);

    let expected = [("foo", "123"), ("bar", "456"), ("baz", "789")];
    for (key, value) in expected {
        let Data::Array(RedisArray(array)) = read_command(&mut reader) else {
            panic!("Expected a RedisArray");
        };
        assert_eq!(array.len(), 3, "Expected three elements in SET command");
        let Data::BStr(command) = &array[0] else {
            panic!("Expected a BStr");
        };
        let Data::BStr(k) = &array[1] else {
            panic!("Expected a BStr");
        };
        let Data::BStr(v) = &array[2] else {
            panic!("Expected a BStr");
        };
        assert_eq!(command, b"SET");
        assert_eq!(k, key.as_bytes());
        assert_eq!(v, value.as_bytes());
    }
}

#[test]
fn partial_input_waits_for_more() {
    let mut reader = StreamReader::new(false);
    reader.feed(b"*1\r\n$4\r\nPI");
    assert!(matches!(reader.read_redis_data(), ReadResult::NeedMore));
    reader.feed(b"NG\r\n");
    assert!(matches!(reader.read_redis_data(), ReadResult::Frame(_)));
    reader.feed(b"!bad\r\n");
    assert!(matches!(reader.read_redis_data(), ReadResult::ProtocolError));
}

#[test]
fn processed_bytes_count_only_in_replication_mode() {
    let mut reader = StreamReader::new(false);
    reader.feed(b"*1\r\n$4\r\nPING\r\n");
    read_command(&mut reader);
    assert_eq!(reader.get_processed_bytes(), 0);
    assert_eq!(reader.get_latest_command_byte_length(), 14);
    reader.set_replication(true);
    reader.feed(b"*1\r\n$4\r\nPING\r\n");
    read_command(&mut reader);
    assert_eq!(reader.get_processed_bytes(), 14);
}
