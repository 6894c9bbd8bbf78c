use redis_lite::channel::{get_message, ChannelCommand, ChannelManager, SubscriptionContext};
use redis_lite::command::Command;
use redis_lite::connection::{handle_transaction, ConnAction, ConnState};
use redis_lite::context::ServerContext;
use redis_lite::protocol::{parse_frame, Data, Parsed, MAX_FRAME_LEN};
use redis_lite::reader::{ReadResult, StreamReader};
use redis_lite::replica::{ReplicaManager, WaitAction};
use redis_lite::response::replconf_getack;
use redis_lite::waiters::WaitQueue;

fn context() -> ServerContext {
    ServerContext::new(Vec::new(), b"0123456789012345678901234567890123456789".to_vec(), false)
}

fn send(ctx: &mut ServerContext, bytes: &[u8], now: u64) -> Vec<u8> {
    let Parsed::Frame(d, _) = parse_frame(bytes, 0, MAX_FRAME_LEN) else {
        panic!("expected a frame");
    };
    ctx.execute_command(Command::from_data(&d), now).response.to_bytes()
}

fn words(w: &[&str]) -> Command {
    let items: Vec<Data> = w.iter().map(|x| Data::BStr(x.as_bytes().to_vec())).collect();
    Command::from_args(&items)
}

#[test]
fn ping_scenario() {
    let mut ctx = context();
    assert_eq!(send(&mut ctx, b"*1\r\n$4\r\nPING\r\n", 0), b"+PONG\r\n");
}

#[test]
fn set_px_then_get_after_expiry() {
    let mut ctx = context();
    let set = b"*5\r\n$3\r\nSET\r\n$3\r\nfoo\r\n$3\r\nbar\r\n$2\r\npx\r\n$3\r\n100\r\n";
    assert_eq!(send(&mut ctx, set, 10_000), b"+OK\r\n");
    assert_eq!(send(&mut ctx, b"*2\r\n$3\r\nGET\r\n$3\r\nfoo\r\n", 10_050), b"$3\r\nbar\r\n");
    assert_eq!(send(&mut ctx, b"*2\r\n$3\r\nGET\r\n$3\r\nfoo\r\n", 10_150), b"$-1\r\n");
}

#[test]
fn transaction_scenario() {
    let mut ctx = context();
    let (s, a) = handle_transaction(ConnState::Normal, words(&["MULTI"]));
    assert!(matches!(a, ConnAction::ReplyOk));
    let (s, a) = handle_transaction(s, words(&["SET", "a", "1"]));
    assert!(matches!(a, ConnAction::Queued));
    let (s, a) = handle_transaction(s, words(&["INCR", "a"]));
    assert!(matches!(a, ConnAction::Queued));
    let (s, a) = handle_transaction(s, words(&["EXEC"]));
    assert!(matches!(s, ConnState::Normal));
    let ConnAction::DispatchTransaction(queued) = a else {
        panic!("expected a transaction");
    };
    let (resp, writes) = ctx.process_transaction(queued, 0);
    assert_eq!(resp.to_bytes(), b"*2\r\n+OK\r\n:2\r\n");
    assert_eq!(writes.len(), 2);
}

#[test]
fn exec_and_discard_without_multi() {
    let (_, a) = handle_transaction(ConnState::Normal, words(&["EXEC"]));
    assert!(matches!(a, ConnAction::ExecWithoutMulti));
    let (_, a) = handle_transaction(ConnState::Normal, words(&["DISCARD"]));
    assert!(matches!(a, ConnAction::DiscardWithoutMulti));
    let (s, _) = handle_transaction(ConnState::Normal, words(&["MULTI"]));
    let (s, _) = handle_transaction(s, words(&["SET", "a", "1"]));
    let (s, a) = handle_transaction(s, words(&["DISCARD"]));
    assert!(matches!(a, ConnAction::ReplyOk));
    assert!(matches!(s, ConnState::Normal));
}

#[test]
fn transaction_error_does_not_stop_the_rest() {
    let mut ctx = context();
    let queued = vec![words(&["SET", "t", "x"]), words(&["INCR", "t"]), words(&["SET", "u", "1"])];
    let (resp, _) = ctx.process_transaction(queued, 0);
    assert_eq!(
        resp.to_bytes(),
        b"*3\r\n+OK\r\n-ERR value is not an integer or out of range\r\n+OK\r\n".to_vec()
    );
}

#[test]
fn blpop_fairness_wakes_earliest() {
    let mut q = WaitQueue::new();
    q.subscribe(1, vec![b"q".to_vec()], 10);
    q.subscribe(2, vec![b"q".to_vec()], 20);
    q.subscribe(3, vec![b"other".to_vec()], 5);
    assert_eq!(q.broadcast(b"q"), Some(1));
    assert_eq!(q.broadcast(b"q"), Some(2));
    assert_eq!(q.broadcast(b"q"), None);
    q.unsubscribe(3);
    assert_eq!(q.broadcast(b"other"), None);

    let mut ctx = context();
    send(&mut ctx, b"*3\r\n$5\r\nRPUSH\r\n$1\r\nq\r\n$1\r\nv\r\n", 0);
    assert_eq!(
        ctx.execute_command(words(&["BLPOP", "q", "0"]), 0).response.to_bytes(),
        b"*2\r\n$1\r\nq\r\n$1\r\nv\r\n".to_vec()
    );
    assert_eq!(ctx.execute_command(words(&["BLPOP", "q", "0"]), 0).response.to_bytes(), b"*-1\r\n");
}

#[test]
fn replication_handshake_and_propagation() {
    let mut master = context();
    let set = words(&["SET", "k", "v"]);
    let out = master.execute_command(set, 0);
    let propagated = out.propagate.unwrap();

    let mut replica = ServerContext::new(Vec::new(), Vec::new(), true);
    let mut reader = StreamReader::new(false);
    let (header, rdb) = redis_lite::response::psync_response();
    reader.feed(b"+FULLRESYNC 0123456789012345678901234567890123456789 0\r\n");
    reader.feed(&header);
    reader.feed(&rdb);
    reader.feed(&propagated);
    assert!(reader.receive_sstring().unwrap().starts_with(b"FULLRESYNC"));
    assert_eq!(reader.expect_bytes().unwrap().len(), 88);
    reader.set_replication(true);
    reader.reset_processed_bytes();
    let ReadResult::Frame(d) = reader.read_redis_data() else {
        panic!("expected the propagated command");
    };
    replica.execute_command(Command::from_data(&d), 0);
    assert_eq!(replica.store.get(b"k", 0).unwrap().unwrap(), b"v");
}

fn ack_after(propagated: &[u8]) -> usize {
    let mut reader = StreamReader::new(true);
    reader.feed(propagated);
    reader.feed(b"*3\r\n$8\r\nREPLCONF\r\n$6\r\nGETACK\r\n$1\r\n*\r\n");
    assert!(matches!(reader.read_redis_data(), ReadResult::Frame(_)));
    let ReadResult::Frame(d) = reader.read_redis_data() else {
        panic!("expected GETACK");
    };
    assert!(matches!(Command::from_data(&d), Command::ReplconfGetAck(_)));
    reader.ack_offset()
}

#[test]
fn psync_offset_accounting() {
    let set = b"*3\r\n$3\r\nSET\r\n$3\r\nfoo\r\n$3\r\n123\r\n";
    assert_eq!(set.len(), 31);
    assert_eq!(ack_after(set), 31);
    assert_eq!(
        replconf_getack(ack_after(set)),
        b"*3\r\n$8\r\nREPLCONF\r\n$3\r\nACK\r\n$2\r\n31\r\n".to_vec()
    );
    let short = b"*3\r\n$3\r\nSET\r\n$1\r\nk\r\n$1\r\nv\r\n";
    assert_eq!(ack_after(short), short.len());
}

#[test]
fn wait_counts_synced_replicas() {
    let mut m = ReplicaManager::new();
    assert!(matches!(m.wait_step(0, 0, 100), WaitAction::Done(0)));
    m.add_channel(1);
    m.add_channel(2);
    assert!(matches!(m.wait_step(2, 0, 100), WaitAction::Done(2)));
    m.broadcast(31);
    assert!(matches!(m.wait_step(2, 0, 100), WaitAction::Poll));
    m.update_latest_offset(1, 31);
    assert!(matches!(m.wait_step(2, 0, 100), WaitAction::Poll));
    assert!(matches!(m.wait_step(2, 100, 100), WaitAction::Done(1)));
    assert!(matches!(m.wait_step(2, 5000, 0), WaitAction::Poll));
    m.remove_channel(2);
    assert_eq!(m.count(), 1);
    assert!(matches!(m.wait_step(1, 0, 100), WaitAction::Done(1)));
}

#[test]
fn pubsub_delivery() {
    let mut c = ChannelManager::new();
    c.init(1);
    c.init(2);
    assert_eq!(c.subscribe(1, b"news".to_vec()), Some(1));
    assert_eq!(c.subscribe(1, b"news".to_vec()), Some(1));
    assert_eq!(c.subscribe(1, b"sport".to_vec()), Some(2));
    assert_eq!(c.subscribe(2, b"news".to_vec()), Some(1));
    assert_eq!(c.subscribe(9, b"news".to_vec()), None);
    assert_eq!(c.publish(b"news"), vec![1, 2]);
    assert_eq!(c.unsubscribe(1, &vec![b"news".to_vec()]), Some(1));
    assert_eq!(c.publish(b"news"), vec![2]);
    assert_eq!(c.unsubscribe(1, &Vec::new()), Some(0));
    c.quit(2);
    assert!(c.publish(b"news").is_empty());
    assert_eq!(get_message(b"ch", b"hi"), b"*3\r\n$7\r\nmessage\r\n$2\r\nch\r\n$2\r\nhi\r\n".to_vec());
}

#[test]
fn subscribed_mode_replies() {
    let mut c = ChannelManager::new();
    let a = SubscriptionContext::new(&mut c, 1);
    let b = SubscriptionContext::new(&mut c, 2);
    let r = a.process_command(&mut c, ChannelCommand::Subscribe(b"news".to_vec()));
    assert_eq!(r.reply, b"*3\r\n$9\r\nsubscribe\r\n$4\r\nnews\r\n:1\r\n".to_vec());
    assert_eq!(r.count, 1);
    b.process_command(&mut c, ChannelCommand::Subscribe(b"news".to_vec()));
    let p = b.process_command(&mut c, ChannelCommand::Publish(b"news".to_vec(), b"hi".to_vec()));
    assert!(p.reply.is_empty());
    assert_eq!(redis_lite::channel::publish_reply(2), b":2\r\n".to_vec());
    assert_eq!(p.recipients, vec![1, 2]);
    assert_eq!(p.message.unwrap(), b"*3\r\n$7\r\nmessage\r\n$4\r\nnews\r\n$2\r\nhi\r\n".to_vec());
    let ping = a.process_command(&mut c, ChannelCommand::Ping);
    assert_eq!(ping.reply, b"*2\r\n$4\r\npong\r\n$0\r\n\r\n".to_vec());
    let u = a.process_command(&mut c, ChannelCommand::Unsubscribe(vec![b"news".to_vec()]));
    assert_eq!(u.reply, b"*3\r\n$11\r\nunsubscribe\r\n$4\r\nnews\r\n:0\r\n".to_vec());
    let bad = a.process_command(&mut c, ChannelCommand::Invalid(b"GET".to_vec()));
    assert_eq!(bad.reply, b"-ERR Can't execute 'GET'\r\n".to_vec());
}

#[test]
fn channel_commands_parse() {
    let items: Vec<Data> = ["publish", "ch", "m"].iter().map(|x| Data::BStr(x.as_bytes().to_vec())).collect();
    assert!(matches!(ChannelCommand::from_args(&items), ChannelCommand::Publish(_, _)));
    let items: Vec<Data> = ["UNSUBSCRIBE", "a", "b"].iter().map(|x| Data::BStr(x.as_bytes().to_vec())).collect();
    let ChannelCommand::Unsubscribe(chs) = ChannelCommand::from_args(&items) else {
        panic!("expected UNSUBSCRIBE");
    };
    assert_eq!(chs, vec![b"a".to_vec(), b"b".to_vec()]);
}

#[test]
fn blocking_read_keeps_the_starting_top() {
    let mut ctx = context();
    ctx.execute_command(words(&["XADD", "s", "5-3", "f", "v"]), 0);
    let streams = vec![(b"s".to_vec(), b"$".to_vec()), (b"t".to_vec(), b"$".to_vec()), (b"s".to_vec(), b"1-0".to_vec())];
    let r = ctx.resolve_stream_ids(&streams, 0);
    assert_eq!(r[0], (b"s".to_vec(), b"5-3".to_vec()));
    assert_eq!(r[1], (b"t".to_vec(), b"0-0".to_vec()));
    assert_eq!(r[2], (b"s".to_vec(), b"1-0".to_vec()));
    let out = ctx.execute_command(words(&["XREAD", "BLOCK", "100", "STREAMS", "s", "$"]), 0);
    assert!(matches!(out.response, redis_lite::response::CommandResponse::Multiple(ref v) if v.is_empty()));
}

#[test]
fn empty_snapshot_has_magic_and_end_marker() {
    let b = redis_lite::rdb::get_empty_rdb_file_bytes();
    assert_eq!(b.len(), 88);
    assert_eq!(&b[..9], b"REDIS0011");
    assert_eq!(b[79], 0xFF);
}

#[test]
fn reader_reports_protocol_errors() {
    let mut reader = StreamReader::new(false);
    assert!(matches!(reader.read_redis_data(), ReadResult::NeedMore));
    reader.feed(b"*3\r\n$3\r\nSET\r\n");
    assert!(matches!(reader.read_redis_data(), ReadResult::NeedMore));
    assert!(reader.has_pending());
    let mut big = StreamReader::new(false);
    big.feed(b"$999999999\r\n");
    assert!(matches!(big.read_redis_data(), ReadResult::ProtocolError));
}
