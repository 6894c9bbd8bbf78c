use redis_lite::command::Command;
use redis_lite::context::ServerContext;
use redis_lite::protocol::{Data, RedisArray};
use redis_lite::response::CommandResponse;
use redis_lite::sorted_set::SortedSet;
use redis_lite::store::{InMemoryStore, StoreError};

fn args(words: &[&str]) -> Vec<Data> {
    words.iter().map(|w| Data::BStr(w.as_bytes().to_vec())).collect()
}

fn run(ctx: &mut ServerContext, words: &[&str], now: u64) -> Vec<u8> {
    let cmd = Command::from_args(&args(words));
    ctx.execute_command(cmd, now).response.to_bytes()
}

fn context() -> ServerContext {
    ServerContext::new(Vec::new(), b"0123456789012345678901234567890123456789".to_vec(), false)
}

#[test]
fn test_set_with_expiry() {
    let mut ctx = context();
    let now = 1_000_000;
    let result = run(&mut ctx, &["SET", "apple", "strawberry", "px", "100"], now);
    assert_eq!(result, b"+OK\r\n");
    assert_eq!(ctx.store.get(b"apple", now).unwrap().unwrap(), b"strawberry");
    assert!(ctx.store.get(b"mykey", now + 101).unwrap().is_none());
    assert!(ctx.store.get(b"apple", now + 101).unwrap().is_none());
}

#[test]
fn set_then_get_until_expiry() {
    let mut s = InMemoryStore::new();
    s.set(b"k", b"v".to_vec(), Some(2000));
    assert_eq!(s.get(b"k", 1999).unwrap().unwrap(), b"v");
    assert_eq!(s.get_keys(b"*", 1999), vec![b"k".to_vec()]);
    assert!(s.get_keys(b"*", 2000).is_empty());
    assert!(s.get(b"k", 2000).unwrap().is_none());
}

#[test]
fn keys_prefix_pattern() {
    let mut s = InMemoryStore::new();
    s.set(b"user:1", b"a".to_vec(), None);
    s.set(b"user:2", b"b".to_vec(), None);
    s.set(b"other", b"c".to_vec(), None);
    let mut keys = s.get_keys(b"user:*", 0);
    keys.sort();
    assert_eq!(keys, vec![b"user:1".to_vec(), b"user:2".to_vec()]);
    assert_eq!(s.get_keys(b"other", 0), vec![b"other".to_vec()]);
    assert_eq!(s.get_keys(b"*", 0).len(), 3);
}

#[test]
fn incr_counts_from_absent_and_number() {
    let mut s = InMemoryStore::new();
    assert_eq!(s.incr(b"n", 0), Ok(1));
    assert_eq!(s.incr(b"n", 0), Ok(2));
    assert_eq!(s.get(b"n", 0).unwrap().unwrap(), b"2");
    s.set(b"m", b"-5".to_vec(), None);
    assert_eq!(s.incr(b"m", 0), Ok(-4));
    assert_eq!(s.get(b"m", 0).unwrap().unwrap(), b"-4");
}

#[test]
fn incr_on_text_fails_and_keeps_value() {
    let mut s = InMemoryStore::new();
    s.set(b"t", b"abc".to_vec(), None);
    assert_eq!(s.incr(b"t", 0), Err(StoreError::NotInteger));
    assert_eq!(s.get(b"t", 0).unwrap().unwrap(), b"abc");
    s.set(b"max", b"9223372036854775807".to_vec(), None);
    assert_eq!(s.incr(b"max", 0), Err(StoreError::NotInteger));
}

#[test]
fn incr_error_frame() {
    let mut ctx = context();
    run(&mut ctx, &["SET", "t", "abc"], 0);
    assert_eq!(run(&mut ctx, &["INCR", "t"], 0), b"-ERR value is not an integer or out of range\r\n");
}

#[test]
fn list_push_and_range() {
    let mut s = InMemoryStore::new();
    let vals = |v: &[&str]| v.iter().map(|x| x.as_bytes().to_vec()).collect::<Vec<_>>();
    assert_eq!(s.list_push(b"l", vals(&["a", "b", "c"]), false, 0), Ok(3));
    assert_eq!(s.list_push(b"l", vals(&["x", "y"]), true, 0), Ok(5));
    assert_eq!(s.list_range(b"l", 0, -1, 0).unwrap(), vals(&["y", "x", "a", "b", "c"]));
    assert_eq!(s.list_range(b"l", -2, -1, 0).unwrap(), vals(&["b", "c"]));
    assert_eq!(s.list_range(b"l", 3, 100, 0).unwrap(), vals(&["b", "c"]));
    assert!(s.list_range(b"l", 4, 2, 0).unwrap().is_empty());
    assert!(s.list_range(b"missing", 0, -1, 0).unwrap().is_empty());
    assert_eq!(s.list_len(b"l", 0), Ok(5));
}

#[test]
fn list_pop_deletes_empty_list() {
    let mut s = InMemoryStore::new();
    s.list_push(b"l", vec![b"a".to_vec(), b"b".to_vec()], false, 0).unwrap();
    assert_eq!(s.list_pop(b"l", 1, 0).unwrap().unwrap(), vec![b"a".to_vec()]);
    assert_eq!(s.list_pop(b"l", 5, 0).unwrap().unwrap(), vec![b"b".to_vec()]);
    assert!(s.list_pop(b"l", 1, 0).unwrap().is_none());
    assert_eq!(s.type_of(b"l", 0), b"none");
}

#[test]
fn wrong_type_is_reported() {
    let mut s = InMemoryStore::new();
    s.set(b"k", b"v".to_vec(), None);
    assert_eq!(s.list_push(b"k", vec![b"a".to_vec()], false, 0), Err(StoreError::WrongType));
    assert_eq!(s.list_range(b"k", 0, -1, 0), Err(StoreError::WrongType));
    let mut ctx = context();
    run(&mut ctx, &["RPUSH", "l", "a"], 0);
    let reply = run(&mut ctx, &["GET", "l"], 0);
    assert!(reply.starts_with(b"-WRONGTYPE"));
}

#[test]
fn type_names() {
    let mut ctx = context();
    run(&mut ctx, &["SET", "s", "1"], 0);
    run(&mut ctx, &["RPUSH", "l", "a"], 0);
    run(&mut ctx, &["XADD", "x", "1-1", "f", "v"], 0);
    run(&mut ctx, &["ZADD", "z", "1", "m"], 0);
    assert_eq!(run(&mut ctx, &["TYPE", "s"], 0), b"+string\r\n");
    assert_eq!(run(&mut ctx, &["TYPE", "l"], 0), b"+list\r\n");
    assert_eq!(run(&mut ctx, &["TYPE", "x"], 0), b"+stream\r\n");
    assert_eq!(run(&mut ctx, &["TYPE", "z"], 0), b"+zset\r\n");
    assert_eq!(run(&mut ctx, &["TYPE", "nope"], 0), b"+none\r\n");
}

#[test]
fn stream_ids_and_range_in_order() {
    let mut ctx = context();
    assert_eq!(run(&mut ctx, &["XADD", "s", "1-1", "a", "1"], 0), b"$3\r\n1-1\r\n");
    assert_eq!(run(&mut ctx, &["XADD", "s", "1-*", "b", "2"], 0), b"$3\r\n1-2\r\n");
    assert_eq!(run(&mut ctx, &["XADD", "s", "5-*", "c", "3"], 0), b"$3\r\n5-0\r\n");
    assert_eq!(
        run(&mut ctx, &["XADD", "s", "1-1", "d", "4"], 0),
        b"-ERR The ID specified in XADD is equal or smaller than the target stream top item\r\n"
    );
    assert_eq!(
        run(&mut ctx, &["XADD", "t", "0-0", "d", "4"], 0),
        b"-ERR The ID specified in XADD must be greater than 0-0\r\n"
    );
    assert_eq!(run(&mut ctx, &["XADD", "u", "0-*", "d", "4"], 0), b"$3\r\n0-1\r\n");
    assert_eq!(run(&mut ctx, &["XADD", "s", "*", "e", "5"], 777), b"$5\r\n777-0\r\n");
    let all = run(&mut ctx, &["XRANGE", "s", "-", "+"], 0);
    let expected = b"*4\r\n*2\r\n$3\r\n1-1\r\n*2\r\n$1\r\na\r\n$1\r\n1\r\n*2\r\n$3\r\n1-2\r\n*2\r\n$1\r\nb\r\n$1\r\n2\r\n*2\r\n$3\r\n5-0\r\n*2\r\n$1\r\nc\r\n$1\r\n3\r\n*2\r\n$5\r\n777-0\r\n*2\r\n$1\r\ne\r\n$1\r\n5\r\n";
    assert_eq!(all, expected.to_vec());
    let part = run(&mut ctx, &["XRANGE", "s", "1-2", "5"], 0);
    assert!(part.starts_with(b"*2\r\n"));
}

#[test]
fn xread_returns_entries_after_id() {
    let mut ctx = context();
    run(&mut ctx, &["XADD", "s", "1-1", "a", "1"], 0);
    run(&mut ctx, &["XADD", "s", "2-1", "b", "2"], 0);
    let r = run(&mut ctx, &["XREAD", "streams", "s", "1-1"], 0);
    assert_eq!(r, b"*1\r\n*2\r\n$1\r\ns\r\n*1\r\n*2\r\n$3\r\n2-1\r\n*2\r\n$1\r\nb\r\n$1\r\n2\r\n".to_vec());
    assert_eq!(run(&mut ctx, &["XREAD", "streams", "s", "2-1"], 0), b"*-1\r\n");
}

#[test]
fn sorted_set_order_and_queries() {
    let mut ctx = context();
    assert_eq!(run(&mut ctx, &["ZADD", "z", "5", "b"], 0), b":1\r\n");
    assert_eq!(run(&mut ctx, &["ZADD", "z", "1", "c"], 0), b":1\r\n");
    assert_eq!(run(&mut ctx, &["ZADD", "z", "5", "a"], 0), b":1\r\n");
    assert_eq!(run(&mut ctx, &["ZADD", "z", "7", "c"], 0), b":0\r\n");
    assert_eq!(run(&mut ctx, &["ZRANGE", "z", "0", "-1"], 0), b"*3\r\n$1\r\na\r\n$1\r\nb\r\n$1\r\nc\r\n");
    assert_eq!(run(&mut ctx, &["ZRANK", "z", "c"], 0), b":2\r\n");
    assert_eq!(run(&mut ctx, &["ZSCORE", "z", "c"], 0), b"$1\r\n7\r\n");
    assert_eq!(run(&mut ctx, &["ZCARD", "z"], 0), b":3\r\n");
    assert_eq!(run(&mut ctx, &["ZREM", "z", "a"], 0), b":1\r\n");
    assert_eq!(run(&mut ctx, &["ZREM", "z", "a"], 0), b":0\r\n");
    assert_eq!(run(&mut ctx, &["ZRANK", "z", "a"], 0), b"$-1\r\n");
}

#[test]
fn sorted_set_direct() {
    let mut z = SortedSet::new();
    assert_eq!(z.insert(b"m".to_vec(), 3), 1);
    assert_eq!(z.insert(b"a".to_vec(), 3), 1);
    assert_eq!(z.insert(b"m".to_vec(), -1), 0);
    assert_eq!(z.list_members(0, -1), vec![b"m".to_vec(), b"a".to_vec()]);
    assert_eq!(z.get_score(b"a"), Some(3));
    assert_eq!(z.get_rank(b"a"), Some(1));
    assert_eq!(z.remove(b"zz"), 0);
}

#[test]
fn unknown_and_bad_numbers() {
    let mut ctx = context();
    assert_eq!(run(&mut ctx, &["FOO", "x"], 0), b"-ERR unknown command 'FOO'\r\n");
    assert_eq!(
        run(&mut ctx, &["SET", "k", "v", "PX", "ten"], 0),
        b"-ERR value is not an integer or out of range\r\n"
    );
    assert_eq!(
        run(&mut ctx, &["LRANGE", "k", "a", "1"], 0),
        b"-ERR value is not an integer or out of range\r\n"
    );
}

#[test]
fn writes_are_propagated_verbatim() {
    let mut ctx = context();
    ctx.replicas.add_channel(7);
    let cmd = Command::from_args(&args(&["SET", "k", "v"]));
    let out = ctx.execute_command(cmd, 0);
    assert_eq!(out.propagate.unwrap(), b"*3\r\n$3\r\nSET\r\n$1\r\nk\r\n$1\r\nv\r\n".to_vec());
    assert_eq!(ctx.replicas.master_offset(), 27);
    let read = Command::from_args(&args(&["GET", "k"]));
    assert!(ctx.execute_command(read, 0).propagate.is_none());
}

#[test]
fn echo_and_config_get() {
    let mut ctx = ServerContext::new(vec![(b"dir".to_vec(), b"/tmp".to_vec())], b"x".to_vec(), false);
    assert_eq!(run(&mut ctx, &["ECHO", "hey"], 0), b"$3\r\nhey\r\n");
    assert_eq!(run(&mut ctx, &["CONFIG", "GET", "dir"], 0), b"*2\r\n$3\r\ndir\r\n$4\r\n/tmp\r\n");
    assert_eq!(run(&mut ctx, &["config", "get", "nope"], 0), b"*0\r\n");
}

#[test]
fn info_replication_reports_role() {
    let mut ctx = context();
    let r = run(&mut ctx, &["INFO", "replication"], 0);
    let text = String::from_utf8(r).unwrap();
    assert!(text.contains("role:master"));
    assert!(text.contains("master_replid:0123456789012345678901234567890123456789"));
    assert!(text.contains("master_repl_offset:0"));
}

#[test]
fn psync_answers_fullresync_and_snapshot() {
    let mut ctx = context();
    let cmd = Command::from_args(&args(&["PSYNC", "?", "-1"]));
    match ctx.execute_command(cmd, 0).response {
        CommandResponse::Multiple(frames) => {
            assert_eq!(frames[0], b"+FULLRESYNC 0123456789012345678901234567890123456789 0\r\n".to_vec());
            assert!(frames[1].starts_with(b"$88\r\nREDIS0011"));
            assert_eq!(frames[1].len(), 5 + 88);
        }
        _ => panic!("expected two frames"),
    }
}

#[test]
fn snapshot_loads_into_store() {
    let data = "524544495330303131fa0972656469732d76657205372e322e30fa0a72656469732d62697473c040fe00fb010000047065617209626c75656265727279ffb64ad09079e1b2ce";
    let entries = redis_lite::rdb::parse_rdb(&redis_lite::rdb::hex_to_bytes(data.as_bytes())).unwrap();
    let mut s = InMemoryStore::from_rdb_file(entries);
    assert_eq!(s.get(b"pear", 0).unwrap().unwrap(), b"blueberry");
}

#[test]
fn replication_id_is_alphanumeric() {
    let id = redis_lite::context::gen_replication_id();
    assert_eq!(id.len(), 40);
    assert!(id.iter().all(|c| c.is_ascii_alphanumeric()));
}

#[test]
fn timestamp_adds_duration() {
    assert_eq!(redis_lite::context::get_timestamp(b"100", 1000), Some(1100));
    assert_eq!(redis_lite::context::get_timestamp(b"x", 1000), None);
    assert!(redis_lite::stream::get_unix_ms() > 1_600_000_000_000);
}

#[allow(dead_code)]
fn array(items: Vec<Data>) -> Data {
    Data::Array(RedisArray(items))
}
