use redis_lite::command::Command;
use redis_lite::protocol::Data;

fn parse(words: &[&str]) -> Command {
    let items: Vec<Data> = words.iter().map(|w| Data::BStr(w.as_bytes().to_vec())).collect();
    Command::from_args(&items)
}

#[test]
fn names_match_without_case() {
    assert!(matches!(parse(&["ping"]), Command::Ping));
    assert!(matches!(parse(&["EcHo", "x"]), Command::Echo(_)));
    assert!(matches!(parse(&["ping", "extra"]), Command::Invalid(_)));
}

#[test]
fn set_forms() {
    match parse(&["SET", "k", "v", "Px", "250"]) {
        Command::SetKey { key, value, expiry, raw_command } => {
            assert_eq!(key, b"k");
            assert_eq!(value, b"v");
            assert_eq!(expiry, Some(250));
            assert_eq!(raw_command, b"*5\r\n$3\r\nSET\r\n$1\r\nk\r\n$1\r\nv\r\n$2\r\nPx\r\n$3\r\n250\r\n".to_vec());
        }
        _ => panic!("expected SET"),
    }
    assert!(matches!(parse(&["SET", "k", "v"]), Command::SetKey { expiry: None, .. }));
    assert!(matches!(parse(&["SET", "k"]), Command::Invalid(_)));
}

#[test]
fn replication_commands() {
    assert!(matches!(parse(&["REPLCONF", "GETACK", "*"]), Command::ReplconfGetAck(_)));
    assert!(matches!(parse(&["REPLCONF", "ACK", "31"]), Command::ReplconfAck(31)));
    assert!(matches!(parse(&["REPLCONF", "listening-port", "6380"]), Command::Replconf));
    assert!(matches!(parse(&["PSYNC", "?", "-1"]), Command::Psync(_, _)));
    assert!(matches!(parse(&["WAIT", "2", "500"]), Command::Wait { num_replicas: 2, timeout: 500 }));
    assert!(matches!(parse(&["WAIT", "x", "500"]), Command::NotInteger));
    assert!(matches!(parse(&["INFO", "replication"]), Command::Info));
    assert!(matches!(parse(&["CONFIG", "GET", "dir"]), Command::ConfigGet(_)));
}

#[test]
fn list_and_stream_commands() {
    match parse(&["LPUSH", "l", "a", "b"]) {
        Command::ListPush { values, is_left, .. } => {
            assert!(is_left);
            assert_eq!(values, vec![b"a".to_vec(), b"b".to_vec()]);
        }
        _ => panic!("expected LPUSH"),
    }
    assert!(matches!(parse(&["LRANGE", "l", "0", "-1"]), Command::LRange { start: 0, end: -1, .. }));
    assert!(matches!(parse(&["LPOP", "l"]), Command::LPop(_, 1)));
    assert!(matches!(parse(&["LPOP", "l", "3"]), Command::LPop(_, 3)));
    match parse(&["BLPOP", "a", "b", "0.5"]) {
        Command::BLPop(keys, timeout) => {
            assert_eq!(keys, vec![b"a".to_vec(), b"b".to_vec()]);
            assert_eq!(timeout, Some(500));
        }
        _ => panic!("expected BLPOP"),
    }
    match parse(&["XREAD", "block", "1000", "streams", "s1", "s2", "0-0", "$"]) {
        Command::XRead { streams, block } => {
            assert_eq!(block, Some(1000));
            assert_eq!(streams, vec![(b"s1".to_vec(), b"0-0".to_vec()), (b"s2".to_vec(), b"$".to_vec())]);
        }
        _ => panic!("expected XREAD"),
    }
    assert!(parse(&["XREAD", "BLOCK", "0", "STREAMS", "s", "$"]).is_blocking());
    assert!(!parse(&["XREAD", "STREAMS", "s", "0"]).is_blocking());
    assert!(matches!(parse(&["XADD", "s", "*", "f", "v"]), Command::XAdd { .. }));
    assert!(matches!(parse(&["ZADD", "z", "1.5", "m"]), Command::NotInteger));
    assert!(matches!(parse(&["ZADD", "z", "-3", "m"]), Command::ZAdd { score: -3, .. }));
}

#[test]
fn non_array_values_are_invalid() {
    assert!(matches!(Command::from_data(&Data::Int(1)), Command::Invalid(_)));
    assert!(matches!(Command::from_args(&[]), Command::Invalid(_)));
}
