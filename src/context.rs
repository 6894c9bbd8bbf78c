use vstd::prelude::*;
use rand::distr::SampleString;
use crate::command::{Command, Request};
use crate::common::{copy_bytes, encode_bstring, encode_error, encode_int, encode_sstring, null, null_bytes, push_all, decimal_bytes, err_prefix};
use crate::protocol::{Data, Resp, crlf, decimal, encode, push_decimal, views};
use crate::response::{CommandResponse, encode_array_of_bstrings, encode_resp_array, response_bytes};
use crate::replica::ReplicaManager;
use crate::store::{query, top_of, opt_u64, type_label, InMemoryStore, StoreError, StreamData, StreamFilter, ValueView, Slot, incr_result, live_value, purge, bytes_eq, pushed, range_slice, xadd_outcome, zset_of};
use crate::response::bulks;
use crate::common::byte_views;
use crate::stream::{StreamEntry, StreamError, bound_of, in_range, parse_bound};
use crate::sorted_set::zrange;

verus! {

/// What executing a command produces: the response, and the exact bytes to propagate
/// to replicas when the command was a write that took effect.
pub struct Outcome {
    pub response: CommandResponse,
    pub propagate: Option<Vec<u8>>,
}

/// The state commands execute against.
pub struct ServerContext {
    pub store: InMemoryStore,
    pub replicas: ReplicaManager,
    /// Configuration entries (`dir`, `dbfilename`, `port`, ...), read-only after startup.
    pub config: Vec<(Vec<u8>, Vec<u8>)>,
    pub master_replid: Vec<u8>,
    pub is_replica: bool,
}

/// `-WRONGTYPE Operation against a key holding the wrong kind of value\r\n`.
pub fn wrongtype_error() -> (r: Vec<u8>)
    ensures
        r@.len() > 0 && r@[0] == 45,
{
    let text = vec![
        87u8, 82, 79, 78, 71, 84, 89, 80, 69, 32, 79, 112, 101, 114, 97, 116, 105, 111, 110, 32, 97,
        103, 97, 105, 110, 115, 116, 32, 97, 32, 107, 101, 121, 32, 104, 111, 108, 100, 105, 110, 103,
        32, 116, 104, 101, 32, 119, 114, 111, 110, 103, 32, 107, 105, 110, 100, 32, 111, 102, 32, 118,
        97, 108, 117, 101,
    ];
    let mut out: Vec<u8> = Vec::new();
    out.push(45u8);
    push_all(&mut out, text.as_slice());
    out.push(13u8);
    out.push(10u8);
    out
}

/// The bytes `value is not an integer or out of range`.
pub open spec fn not_integer_text() -> Seq<u8> {
    seq![118u8, 97, 108, 117, 101, 32, 105, 115, 32, 110, 111, 116, 32, 97, 110, 32, 105, 110, 116,
        101, 103, 101, 114, 32, 111, 114, 32, 111, 117, 116, 32, 111, 102, 32, 114, 97, 110, 103, 101]
}

/// `-ERR value is not an integer or out of range\r\n`.
pub fn not_integer_error() -> (r: Vec<u8>)
    ensures
        r@ == seq![45u8] + err_prefix() + not_integer_text() + crlf(),
{
    let text = vec![118u8, 97, 108, 117, 101, 32, 105, 115, 32, 110, 111, 116, 32, 97, 110, 32, 105, 110, 116,
        101, 103, 101, 114, 32, 111, 114, 32, 111, 117, 116, 32, 111, 102, 32, 114, 97, 110, 103, 101];
    assert(text@ =~= not_integer_text());
    encode_error(text.as_slice())
}

/// `unknown command '<name>'`.
pub open spec fn unknown_text(name: Seq<u8>) -> Seq<u8> {
    seq![117u8, 110, 107, 110, 111, 119, 110, 32, 99, 111, 109, 109, 97, 110, 100, 32, 39] + name + seq![39u8]
}

pub fn unknown_command_error(name: &[u8]) -> (r: Vec<u8>)
    ensures
        r@ == seq![45u8] + err_prefix() + unknown_text(name@) + crlf(),
{
    let mut text = vec![117u8, 110, 107, 110, 111, 119, 110, 32, 99, 111, 109, 109, 97, 110, 100, 32, 39];
    push_all(&mut text, name);
    text.push(39u8);
    assert(text@ =~= unknown_text(name@));
    encode_error(text.as_slice())
}

/// `+PONG\r\n`.
pub open spec fn pong_bytes() -> Seq<u8> {
    seq![43u8, 80, 79, 78, 71, 13, 10]
}

/// `+OK\r\n`.
pub open spec fn ok_bytes() -> Seq<u8> {
    seq![43u8, 79, 75, 13, 10]
}

pub fn ok_reply() -> (r: Vec<u8>)
    ensures
        r@ == ok_bytes(),
{
    let r = vec![43u8, 79, 75, 13, 10];
    assert(r@ =~= ok_bytes());
    r
}

/// The `INFO replication` text.
pub open spec fn info_text(is_replica: bool, replid: Seq<u8>, offset: nat) -> Seq<u8> {
    if is_replica {
        seq![114u8, 111, 108, 101, 58] + seq![115u8, 108, 97, 118, 101]
    } else {
        seq![114u8, 111, 108, 101, 58] + seq![109u8, 97, 115, 116, 101, 114] + seq![13u8, 10, 109, 97, 115, 116,
            101, 114, 95, 114, 101, 112, 108, 105, 100, 58] + replid + seq![13u8, 10, 109, 97, 115, 116, 101, 114,
            95, 114, 101, 112, 108, 95, 111, 102, 102, 115, 101, 116, 58] + decimal(offset)
    }
}

/// `x`, capped at the largest `i64`.
pub open spec fn clamp_i64(x: int) -> int {
    if x > i64::MAX {
        i64::MAX as int
    } else {
        x
    }
}

/// The single frame of a response.
pub open spec fn reply_of(r: &CommandResponse) -> Option<Seq<u8>> {
    match r {
        CommandResponse::Single(b) => Some(b@),
        _ => None,
    }
}

pub open spec fn prop_of(p: &Option<Vec<u8>>) -> Option<Seq<u8>> {
    match p {
        Some(b) => Some(b@),
        None => None,
    }
}

/// An error frame.
pub open spec fn is_error(o: Option<Seq<u8>>) -> bool {
    match o {
        Some(b) => b.len() > 0 && b[0] == 45,
        None => false,
    }
}

/// The absolute expiry of a `PX` duration given at time `now` (saturating).
pub open spec fn expiry_at(px: Option<nat>, now: nat) -> Option<nat> {
    match px {
        Some(ms) => Some(if now + ms <= u64::MAX { now + ms } else { u64::MAX as nat }),
        None => None,
    }
}

fn stream_id_text(id: (u64, u64)) -> (r: Vec<u8>)
    ensures
        r@ == decimal(id.0 as nat) + seq![45u8] + decimal(id.1 as nat),
{
    let mut out: Vec<u8> = Vec::new();
    push_decimal(&mut out, id.0);
    out.push(45u8);
    push_decimal(&mut out, id.1);
    out
}

fn stream_error(e: StreamError) -> (r: Vec<u8>)
    ensures
        r@.len() > 0 && r@[0] == 45,
{
    match e {
        StreamError::IdZero => {
            let t = vec![84u8, 104, 101, 32, 73, 68, 32, 115, 112, 101, 99, 105, 102, 105, 101, 100, 32, 105, 110,
                32, 88, 65, 68, 68, 32, 109, 117, 115, 116, 32, 98, 101, 32, 103, 114, 101, 97, 116, 101, 114,
                32, 116, 104, 97, 110, 32, 48, 45, 48];
            encode_error(t.as_slice())
        },
        StreamError::IdSmall => {
            let t = vec![84u8, 104, 101, 32, 73, 68, 32, 115, 112, 101, 99, 105, 102, 105, 101, 100, 32, 105, 110,
                32, 88, 65, 68, 68, 32, 105, 115, 32, 101, 113, 117, 97, 108, 32, 111, 114, 32, 115, 109, 97,
                108, 108, 101, 114, 32, 116, 104, 97, 110, 32, 116, 104, 101, 32, 116, 97, 114, 103, 101, 116,
                32, 115, 116, 114, 101, 97, 109, 32, 116, 111, 112, 32, 105, 116, 101, 109];
            encode_error(t.as_slice())
        },
        StreamError::InvalidId => {
            let t = vec![73u8, 110, 118, 97, 108, 105, 100, 32, 115, 116, 114, 101, 97, 109, 32, 73, 68, 32, 115,
                112, 101, 99, 105, 102, 105, 101, 100, 32, 97, 115, 32, 115, 116, 114, 101, 97, 109, 32, 99, 111,
                109, 109, 97, 110, 100, 32, 97, 114, 103, 117, 109, 101, 110, 116];
            encode_error(t.as_slice())
        },
        StreamError::WrongType => wrongtype_error(),
    }
}

/// The text of a stream ID, `ms-seq`.
pub open spec fn id_text(ms: nat, sq: nat) -> Seq<u8> {
    decimal(ms) + seq![45u8] + decimal(sq)
}

/// An entry as `[id, [field, value]]`.
pub open spec fn entry_resp(e: crate::stream::EntryView) -> Resp {
    Resp::Array(seq![Resp::Bulk(id_text(e.0, e.1)), Resp::Array(seq![Resp::Bulk(e.2), Resp::Bulk(e.3)])])
}

/// The `XRANGE` reply for a run of entries.
pub open spec fn entries_resp(es: crate::stream::StreamView) -> Resp {
    Resp::Array(es.map_values(|e: crate::stream::EntryView| entry_resp(e)))
}

fn entry_frame(e: &StreamEntry) -> (r: Data)
    ensures
        r@ == entry_resp(crate::stream::entry_view(*e)),
{
    let id = Data::BStr(stream_id_text((e.ms, e.seq)));
    let f = copy_bytes(&e.field);
    let v = copy_bytes(&e.value);
    let inner = vec![Data::BStr(f), Data::BStr(v)];
    proof {
        crate::protocol::lemma_views(inner@);
        assert(views(inner@) =~= seq![Resp::Bulk(e.field@), Resp::Bulk(e.value@)]);
    }
    let fv = Data::Array(crate::protocol::RedisArray(inner));
    let ghost fvv = fv@;
    let ghost idv = id@;
    let items = vec![id, fv];
    let d = Data::Array(crate::protocol::RedisArray(items));
    proof {
        crate::protocol::lemma_views(items@);
        assert(views(items@) =~= seq![idv, fvv]);
    }
    d
}

fn entries_frame(entries: &Vec<StreamEntry>) -> (r: Data)
    ensures
        r@ == entries_resp(crate::stream::stream_views(entries@)),
{
    let mut items: Vec<Data> = Vec::new();
    let mut i: usize = 0;
    while i < entries.len()
        invariant
            i <= entries@.len(),
            items@.len() == i,
            forall|j: int| 0 <= j < i ==> #[trigger] items@[j]@ == entry_resp(crate::stream::entry_view(entries@[j])),
        decreases entries@.len() - i,
    {
        items.push(entry_frame(&entries[i]));
        i = i + 1;
    }
    let d = Data::Array(crate::protocol::RedisArray(items));
    proof {
        crate::protocol::lemma_views(items@);
        assert(views(items@) =~= crate::stream::stream_views(entries@).map_values(|e: crate::stream::EntryView| entry_resp(e)));
    }
    d
}

/// An `XRANGE` reply: each entry as `[id, [field, value]]`, in order.
pub fn map_xrange_response(entries: &Vec<StreamEntry>) -> (r: Vec<u8>)
    ensures
        r@ == encode(entries_resp(crate::stream::stream_views(entries@))),
{
    entries_frame(entries).encode()
}

/// An `XREAD` reply: for each stream `[key, [entries]]`.
pub fn map_xread_response(streams: &Vec<StreamData>) -> (r: Vec<u8>)
    ensures
        r@ == encode(Resp::Array(crate::store::stream_data_views(streams@).map_values(
            |d: (Seq<u8>, crate::stream::StreamView)| Resp::Array(seq![Resp::Bulk(d.0), entries_resp(d.1)]),
        ))),
{
    let mut items: Vec<Data> = Vec::new();
    let mut i: usize = 0;
    while i < streams.len()
        invariant
            i <= streams@.len(),
            items@.len() == i,
            forall|j: int| 0 <= j < i ==> #[trigger] items@[j]@ == Resp::Array(seq![
                Resp::Bulk(streams@[j].key@),
                entries_resp(crate::stream::stream_views(streams@[j].entries@)),
            ]),
        decreases streams@.len() - i,
    {
        let k = Data::BStr(copy_bytes(&streams[i].key));
        let body = entries_frame(&streams[i].entries);
        let ghost kv = k@;
        let ghost bv = body@;
        let pair = vec![k, body];
        proof {
            crate::protocol::lemma_views(pair@);
            assert(views(pair@) =~= seq![kv, bv]);
        }
        items.push(Data::Array(crate::protocol::RedisArray(pair)));
        i = i + 1;
    }
    let d = Data::Array(crate::protocol::RedisArray(items));
    proof {
        crate::protocol::lemma_views(items@);
        assert(views(items@) =~= crate::store::stream_data_views(streams@).map_values(
            |d: (Seq<u8>, crate::stream::StreamView)| Resp::Array(seq![Resp::Bulk(d.0), entries_resp(d.1)]),
        ));
    }
    d.encode()
}

/// What executing `req` at time `now` does: `s0` becomes `s1` and `r` is the outcome.
/// Writes that took effect propagate their bytes and advance the replication offsets by
/// their length; every other command leaves the replica accounting as it was.
pub open spec fn executes(s0: ServerContext, req: Request, now: nat, s1: ServerContext, r: Outcome) -> bool {
    &&& s1.wf()
    &&& keeps_setup(s0, s1)
    &&& replicas_follow(s0, s1, &r.propagate)
    &&& match req {
        Request::Ping => reply_of(&r.response) == Some(pong_bytes()) && prop_of(&r.propagate)
            == None::<Seq<u8>> && s1.store@ == s0.store@,
        Request::Echo(v) => reply_of(&r.response) == Some(encode(Resp::Bulk(v))) && prop_of(
            &r.propagate,
        ) == None::<Seq<u8>> && s1.store@ == s0.store@,
        Request::SetKey { key, value, expiry, raw } => reply_of(&r.response) == Some(ok_bytes())
            && prop_of(&r.propagate) == Some(raw) && s1.store@ == s0.store@.insert(
            key,
            (ValueView::Str(value), expiry_at(expiry, now)),
        ),
        Request::Get(key) => s1.store@ == purge(s0.store@, key, now)
            && prop_of(&r.propagate) == None::<Seq<u8>> && match live_value(
            s0.store@,
            key,
            now,
        ) {
            None => reply_of(&r.response) == Some(null_bytes()),
            Some(ValueView::Str(s)) => reply_of(&r.response) == Some(encode(Resp::Bulk(s))),
            Some(_) => is_error(reply_of(&r.response)),
        },
        Request::Incr { key, raw } => match incr_result(
            live_value(s0.store@, key, now),
        ) {
            Ok(n) => reply_of(&r.response) == Some(encode(Resp::Integer(n))) && prop_of(
                &r.propagate,
            ) == Some(raw) && s1.store@ == purge(s0.store@, key, now).insert(
                key,
                (
                    ValueView::Str(crate::protocol::signed_decimal(n)),
                    if purge(s0.store@, key, now).contains_key(key) {
                        purge(s0.store@, key, now)[key].1
                    } else {
                        None
                    },
                ),
            ),
            Err(StoreError::NotInteger) => reply_of(&r.response) == Some(
                seq![45u8] + err_prefix() + not_integer_text() + crlf(),
            ) && prop_of(&r.propagate) == None::<Seq<u8>> && s1.store@ == purge(s0.store@, key, now),
            Err(StoreError::WrongType) => is_error(reply_of(&r.response)) && prop_of(&r.propagate)
                == None::<Seq<u8>> && s1.store@ == purge(s0.store@, key, now),
        },
        Request::ListPush { key, values, is_left, raw } => match live_value(s0.store@, key, now) {
            None => reply_of(&r.response) == Some(encode(Resp::Integer(clamp_i64(values.len() as int))))
                && prop_of(&r.propagate) == Some(raw) && s1.store@ == if values.len() == 0 {
                purge(s0.store@, key, now)
            } else {
                purge(s0.store@, key, now).insert(key, (ValueView::List(pushed(seq![], values, is_left)), None))
            },
            Some(ValueView::List(l)) => reply_of(&r.response) == Some(encode(Resp::Integer(clamp_i64((l.len() + values.len()) as int))))
                && prop_of(&r.propagate) == Some(raw) && s1.store@ == s0.store@.insert(
                key,
                (ValueView::List(pushed(l, values, is_left)), s0.store@[key].1),
            ),
            Some(_) => is_error(reply_of(&r.response)) && prop_of(&r.propagate) == None::<Seq<u8>>
                && s1.store@ == s0.store@,
        },
        Request::LRange { key, start, end } => s1.store@ == s0.store@ && prop_of(&r.propagate)
            == None::<Seq<u8>> && match live_value(s0.store@, key, now) {
            None => reply_of(&r.response) == Some(encode(Resp::Array(seq![]))),
            Some(ValueView::List(l)) => reply_of(&r.response) == Some(encode(Resp::Array(bulks(range_slice(l, start, end))))),
            Some(_) => is_error(reply_of(&r.response)),
        },
        Request::XAdd { key, id, field, value, raw } => match xadd_outcome(live_value(s0.store@, key, now), id, now) {
            Ok(nid) => reply_of(&r.response) == Some(encode(Resp::Bulk(decimal(nid.0) + seq![45u8] + decimal(nid.1))))
                && prop_of(&r.propagate) == Some(raw) && xadded(s0.store@, s1.store@, key, field, value, nid, now),
            Err(_) => is_error(reply_of(&r.response)) && prop_of(&r.propagate) == None::<Seq<u8>>
                && s1.store@ == purge(s0.store@, key, now),
        },
        Request::ZAdd { key, score, member, raw } => match live_value(s0.store@, key, now) {
            Some(ValueView::Str(_)) | Some(ValueView::List(_)) | Some(ValueView::Stream(_)) => is_error(
                reply_of(&r.response),
            ) && prop_of(&r.propagate) == None::<Seq<u8>>,
            lv => prop_of(&r.propagate) == Some(raw) && zadded(s0.store@, s1.store@, key, score, member, now)
                && reply_of(&r.response) == Some(encode(Resp::Integer(
                if forall|i: int| 0 <= i < zset_of(lv).len() ==> zset_of(lv)[i].1 != member {
                    1
                } else {
                    0
                },
            ))),
        },
        Request::XRange { key, start, end } => s1.store@ == s0.store@ && prop_of(&r.propagate)
            == None::<Seq<u8>> && match (bound_of(start, false), bound_of(end, true)) {
            (Some(lo), Some(hi)) => match live_value(s0.store@, key, now) {
                None => reply_of(&r.response) == Some(encode(entries_resp(seq![]))),
                Some(ValueView::Stream(st)) => reply_of(&r.response) == Some(encode(entries_resp(in_range(st, lo, hi)))),
                Some(_) => is_error(reply_of(&r.response)),
            },
            _ => is_error(reply_of(&r.response)),
        },
        Request::Type(key) => s1.store@ == s0.store@ && prop_of(&r.propagate) == None::<Seq<u8>>
            && reply_of(&r.response) == Some(seq![43u8] + type_label(live_value(s0.store@, key, now)) + crlf()),
        Request::ZRange { key, start, end } => s1.store@ == s0.store@ && prop_of(&r.propagate)
            == None::<Seq<u8>> && match live_value(s0.store@, key, now) {
            None => reply_of(&r.response) == Some(encode(Resp::Array(seq![]))),
            Some(ValueView::SortedSet(z)) => reply_of(&r.response) == Some(encode(Resp::Array(bulks(zrange(z, start, end))))),
            Some(_) => is_error(reply_of(&r.response)),
        },
        Request::Info | Request::Replconf
        | Request::ReplconfGetAck(_)
        | Request::Multi | Request::Exec | Request::Discard => s1.store@
            == s0.store@ && prop_of(&r.propagate) == None::<Seq<u8>>,
        Request::XRead { streams, block } => xread_done(s0.store@, streams, block, now, s1.store@, r),
        Request::Psync(_, _) => s1.store@ == s0.store@ && r.propagate is None && psync_reply(&r.response, s0.master_replid@, s0.replicas.offset()),
        Request::LLen(key) => s1.store@ == s0.store@ && prop_of(&r.propagate) == None::<Seq<u8>> && match live_value(s0.store@, key, now) {
            None => reply_of(&r.response) == Some(encode(Resp::Integer(0))),
            Some(ValueView::List(l)) => reply_of(&r.response) == Some(encode(Resp::Integer(clamp_i64(l.len() as int)))),
            Some(_) => is_error(reply_of(&r.response)),
        },
        Request::ZCard(key) => s1.store@ == s0.store@ && prop_of(&r.propagate) == None::<Seq<u8>> && match live_value(s0.store@, key, now) {
            None => reply_of(&r.response) == Some(encode(Resp::Integer(0))),
            Some(ValueView::SortedSet(z)) => reply_of(&r.response) == Some(encode(Resp::Integer(clamp_i64(z.len() as int)))),
            Some(_) => is_error(reply_of(&r.response)),
        },
        Request::ConfigGet(key) => s1.store@ == s0.store@ && prop_of(&r.propagate) == None::<Seq<u8>> && config_reply(s0.config@, key, reply_of(&r.response)),
        Request::Keys(pattern) => s1.store@ == s0.store@ && prop_of(&r.propagate) == None::<Seq<u8>> && (reply_of(&r.response) matches Some(b) && keys_reply(s0.store@, pattern, now, b)),
        Request::LPop(key, count) => match live_value(s0.store@, key, now) {
            None => reply_of(&r.response) == Some(null_bytes()) && prop_of(&r.propagate) == None::<Seq<u8>>
                && s1.store@ == purge(s0.store@, key, now),
            Some(ValueView::List(l)) => lpop_done(s0.store@, s1.store@, key, l, count, reply_of(&r.response))
                && prop_of(&r.propagate) is Some,
            Some(_) => is_error(reply_of(&r.response)) && prop_of(&r.propagate) == None::<Seq<u8>> && s1.store@ == s0.store@,
        },
        Request::ZRem { key, member, raw } => match live_value(s0.store@, key, now) {
            None => reply_of(&r.response) == Some(encode(Resp::Integer(0))) && prop_of(&r.propagate) == None::<Seq<u8>>,
            Some(ValueView::SortedSet(z)) => reply_of(&r.response) == Some(encode(Resp::Integer(
                if exists|i: int| 0 <= i < z.len() && z[i].1 == member {
                    1
                } else {
                    0
                },
            ))) && (prop_of(&r.propagate) == if exists|i: int| 0 <= i < z.len() && z[i].1 == member {
                Some(raw)
            } else {
                None::<Seq<u8>>
            }),
            Some(_) => is_error(reply_of(&r.response)) && prop_of(&r.propagate) == None::<Seq<u8>>,
        },
        Request::BLPop(keys, _) => blpop_done(s0.store@, s1.store@, keys, now, reply_of(&r.response)) && (
        prop_of(&r.propagate) is Some <==> reply_of(&r.response) != Some(crate::response::null_array_bytes())),
        Request::Wait { .. } | Request::ReplconfAck(_) | Request::Subscribe(_) => s1.store@ == s0.store@ && prop_of(&r.propagate)
            == None::<Seq<u8>> && no_reply_yet(&r.response),
        Request::ZRank(key, member) => s1.store@ == s0.store@ && prop_of(&r.propagate) == None::<Seq<u8>> && match live_value(s0.store@, key, now) {
            None => reply_of(&r.response) == Some(null_bytes()),
            Some(ValueView::SortedSet(z)) => ((forall|i: int| 0 <= i < z.len() ==> z[i].1 != member) ==> reply_of(&r.response) == Some(null_bytes()))
                && forall|i: int| 0 <= i < z.len() && #[trigger] z[i].1 == member ==> reply_of(&r.response) == Some(
                encode(Resp::Integer(clamp_i64(i))),
            ),
            Some(_) => is_error(reply_of(&r.response)),
        },
        Request::ZScore(key, member) => s1.store@ == s0.store@ && prop_of(&r.propagate) == None::<Seq<u8>> && match live_value(s0.store@, key, now) {
            None => reply_of(&r.response) == Some(null_bytes()),
            Some(ValueView::SortedSet(z)) => ((forall|i: int| 0 <= i < z.len() ==> z[i].1 != member) ==> reply_of(&r.response) == Some(null_bytes()))
                && forall|sc: int| #[trigger] z.contains((sc, member)) ==> reply_of(&r.response) == Some(
                encode(Resp::Bulk(crate::protocol::signed_decimal(sc))),
            ),
            Some(_) => is_error(reply_of(&r.response)),
        },
        Request::NotInteger => reply_of(&r.response) == Some(
            seq![45u8] + err_prefix() + not_integer_text() + crlf(),
        ) && s1.store@ == s0.store@,
        Request::Invalid(name) => reply_of(&r.response) == Some(
            seq![45u8] + err_prefix() + unknown_text(name) + crlf(),
        ) && s1.store@ == s0.store@,
    }
}

/// The filters of an `XREAD` request: `$` reads after the top of the live stream
/// (`0-0` when there is none); an ID that does not parse contributes no filter.
pub open spec fn xread_filters(m: Map<Seq<u8>, Slot>, streams: Seq<(Seq<u8>, Seq<u8>)>, now: nat) -> Seq<(Seq<u8>, (nat, nat))>
    decreases streams.len(),
{
    if streams.len() == 0 {
        seq![]
    } else {
        let rest = xread_filters(m, streams.drop_last(), now);
        let (k, id) = streams.last();
        if id == seq![36u8] {
            rest.push((k, match top_of(m, k, now) {
                Some(t) => t,
                None => (0, 0),
            }))
        } else {
            match bound_of(id, false) {
                Some(b) => rest.push((k, b)),
                None => rest,
            }
        }
    }
}

/// The `XREAD` reply for the streams with new entries: `[key, [entries]]` each.
pub open spec fn xread_reply(q: Seq<(Seq<u8>, crate::stream::StreamView)>) -> Resp {
    Resp::Array(q.map_values(|d: (Seq<u8>, crate::stream::StreamView)| Resp::Array(seq![Resp::Bulk(d.0), entries_resp(d.1)])))
}

/// `XREAD` on `m`: the keyspace is unchanged and nothing propagates; with new entries
/// the reply lists them, otherwise a blocking read answers nothing yet (the caller
/// waits) and a plain read answers the null array.
pub open spec fn xread_done(
    m: Map<Seq<u8>, Slot>,
    streams: Seq<(Seq<u8>, Seq<u8>)>,
    block: Option<nat>,
    now: nat,
    m1: Map<Seq<u8>, Slot>,
    r: Outcome,
) -> bool {
    let q = query(m, xread_filters(m, streams, now), now);
    &&& m1 == m
    &&& r.propagate is None
    &&& if q.len() > 0 {
        reply_of(&r.response) == Some(encode(xread_reply(q)))
    } else if block is Some {
        r.response matches CommandResponse::Multiple(v) && v@.len() == 0
    } else {
        reply_of(&r.response) == Some(crate::response::null_array_bytes())
    }
}

/// The two frames of a `PSYNC` answer: `+FULLRESYNC <replid> <offset>` and the empty
/// snapshot as `$88\r\n<bytes>`, without a trailing CRLF.
pub open spec fn psync_reply(r: &CommandResponse, replid: Seq<u8>, offset: nat) -> bool {
    match r {
        CommandResponse::Multiple(v) => v@.len() == 2 && v@[0]@ == encode(Resp::Simple(fullresync_text(replid, offset)))
            && v@[1]@ == seq![36u8] + decimal(88) + crlf() + crate::rdb::hex_bytes(crate::rdb::empty_rdb_hex()),
        _ => false,
    }
}

/// `FULLRESYNC <replid> <offset>`.
pub open spec fn fullresync_text(replid: Seq<u8>, offset: nat) -> Seq<u8> {
    seq![70u8, 85, 76, 76, 82, 69, 83, 89, 78, 67, 32] + replid + seq![32u8] + decimal(offset)
}

/// `m1` is `m0` after appending `field`/`value` with ID `nid` to the stream under `key`.
pub open spec fn xadded(m0: Map<Seq<u8>, Slot>, m1: Map<Seq<u8>, Slot>, key: Seq<u8>, field: Seq<u8>, value: Seq<u8>, nid: (nat, nat), now: nat) -> bool {
    let m = purge(m0, key, now);
    m1 == m.insert(
        key,
        (
            ValueView::Stream(crate::store::stream_of(live_value(m0, key, now)).push((nid.0, nid.1, field, value))),
            if m.contains_key(key) {
                m[key].1
            } else {
                None
            },
        ),
    )
}

/// `m1` is `m0` after setting the score of `member` in the sorted set under `key`: the
/// other keys keep their values and the set holds `(score, member)` and the other
/// members it held, in order.
pub open spec fn zadded(m0: Map<Seq<u8>, Slot>, m1: Map<Seq<u8>, Slot>, key: Seq<u8>, score: int, member: Seq<u8>, now: nat) -> bool {
    let m = purge(m0, key, now);
    let z0 = zset_of(live_value(m0, key, now));
    &&& m1.dom() == m.dom().insert(key)
    &&& forall|k: Seq<u8>| k != key && m.contains_key(k) ==> m1[k] == m[k]
    &&& m1[key].0 matches ValueView::SortedSet(z1) && crate::sorted_set::wf_zset(z1) && (forall|p: (int, Seq<u8>)|
        z1.contains(p) <==> (p == (score, member) || (z0.contains(p) && p.1 != member)))
}

/// The reply to `CONFIG GET key`: `[key, value]` for a configured key, else `[]`.
pub open spec fn config_reply(config: Seq<(Vec<u8>, Vec<u8>)>, key: Seq<u8>, reply: Option<Seq<u8>>) -> bool {
    ||| exists|i: int|
        0 <= i < config.len() && config[i].0@ == key && reply == Some(
            encode(Resp::Array(crate::response::bulks(seq![key, config[i].1@]))),
        )
    ||| (forall|i: int| 0 <= i < config.len() ==> config[i].0@ != key) && reply == Some(encode(Resp::Array(seq![])))
}

/// The reply to `KEYS pattern`: an array holding each live matching key once.
pub open spec fn keys_reply(m: Map<Seq<u8>, Slot>, pattern: Seq<u8>, now: nat, reply: Seq<u8>) -> bool {
    exists|ks: Seq<Seq<u8>>|
        reply == #[trigger] encode(Resp::Array(crate::response::bulks(ks))) && ks.no_duplicates() && forall|k: Seq<u8>|
            ks.contains(k) <==> (m.contains_key(k) && crate::store::alive(m[k], now) && crate::store::key_matches(k, pattern))
}

/// `LPOP key count` on the live list `l`: it loses its first `min(count, len)` items,
/// and the key goes when it empties; a plain `LPOP` answers the single item, otherwise
/// the answer is the array of the popped items.
pub open spec fn lpop_done(m0: Map<Seq<u8>, Slot>, m1: Map<Seq<u8>, Slot>, key: Seq<u8>, l: Seq<Seq<u8>>, count: nat, reply: Option<Seq<u8>>) -> bool {
    let c = if count < l.len() {
        count as int
    } else {
        l.len() as int
    };
    &&& reply == Some(
        if count == 1 && c == 1 {
            encode(Resp::Bulk(l[0]))
        } else {
            encode(Resp::Array(crate::response::bulks(l.take(c))))
        },
    )
    &&& m1 == if c == l.len() {
        m0.remove(key)
    } else {
        m0.insert(key, (ValueView::List(l.skip(c)), m0[key].1))
    }
}

/// `BLPOP` that does not wait: the head of the first listed key holding a live list is
/// popped and answered as `[key, value]`; with no such key nothing changes and the
/// answer is the null array (the caller then waits).
pub open spec fn blpop_done(m0: Map<Seq<u8>, Slot>, m1: Map<Seq<u8>, Slot>, keys: Seq<Seq<u8>>, now: nat, reply: Option<Seq<u8>>) -> bool {
    ||| (forall|j: int| 0 <= j < keys.len() ==> !(live_value(m0, #[trigger] keys[j], now) matches Some(ValueView::List(_))))
        && m1 == m0 && reply == Some(crate::response::null_array_bytes())
    ||| exists|i: int, v: Seq<u8>|
        #![trigger keys[i], crate::store::popped_head(m0, m1, keys[i], v, now)]
        0 <= i < keys.len() && (forall|j: int| 0 <= j < i ==> !(live_value(m0, #[trigger] keys[j], now) matches Some(ValueView::List(_))))
            && crate::store::popped_head(m0, m1, keys[i], v, now) && reply == Some(
            encode(Resp::Array(crate::response::bulks(seq![keys[i], v]))),
        )
}

/// An empty set of frames: the caller completes the command (it waits, or hands the
/// connection over).
pub open spec fn no_reply_yet(r: &CommandResponse) -> bool {
    match r {
        CommandResponse::Multiple(v) => v@.len() == 0,
        _ => false,
    }
}

/// The configuration and identity of the server are left as they were.
pub open spec fn keeps_setup(s0: ServerContext, s1: ServerContext) -> bool {
    s1.config == s0.config && s1.master_replid == s0.master_replid && s1.is_replica == s0.is_replica
}

/// The replica accounting after an outcome that propagated `p`.
pub open spec fn replicas_follow(s0: ServerContext, s1: ServerContext, p: &Option<Vec<u8>>) -> bool {
    match p {
        Some(b) => after_write(s0.replicas, s1.replicas, b@.len()),
        None => s1.replicas@ == s0.replicas@ && s1.replicas.offset() == s0.replicas.offset(),
    }
}

/// `r1` is `r0` after accounting for `len` bytes sent to every replica; when the
/// master offset would overflow nothing is counted.
pub open spec fn after_write(r0: ReplicaManager, r1: ReplicaManager, len: nat) -> bool {
    if r0.offset() + len <= u64::MAX {
        &&& r1.offset() == r0.offset() + len
        &&& r1@.len() == r0@.len()
        &&& forall|i: int| 0 <= i < r0@.len() ==> #[trigger] r1@[i] == (r0@[i].0, (r0@[i].1 + len) as nat, r0@[i].2)
    } else {
        r1@ == r0@ && r1.offset() == r0.offset()
    }
}

impl ServerContext {
    pub open spec fn wf(&self) -> bool {
        self.store.wf() && self.replicas.wf()
    }

    pub fn new(config: Vec<(Vec<u8>, Vec<u8>)>, master_replid: Vec<u8>, is_replica: bool) -> (r: Self)
        ensures
            r.wf(),
            r.store@ == Map::<Seq<u8>, Slot>::empty(),
            r.replicas@.len() == 0,
    {
        ServerContext {
            store: InMemoryStore::new(),
            replicas: ReplicaManager::new(),
            config,
            master_replid,
            is_replica,
        }
    }

    /// The configuration value named `key`.
    pub fn config_value(&self, key: &[u8]) -> (r: Option<Vec<u8>>)
        ensures
            r matches Some(v) ==> exists|i: int|
                0 <= i < self.config@.len() && self.config@[i].0@ == key@ && self.config@[i].1@ == v@,
            r is None ==> forall|i: int| 0 <= i < self.config@.len() ==> self.config@[i].0@ != key@,
    {
        get_config_value(&self.config, key)
    }

    fn note_write(&mut self, raw: Vec<u8>) -> (r: Option<Vec<u8>>)
        requires
            old(self).wf(),
        ensures
            final(self).wf(),
            final(self).store@ == old(self).store@,
            final(self).config == old(self).config,
            final(self).master_replid == old(self).master_replid,
            final(self).is_replica == old(self).is_replica,
            r matches Some(b) && b@ == raw@,
            after_write(old(self).replicas, final(self).replicas, raw@.len()),
    {
        let len = raw.len() as u64;
        if self.replicas.master_offset() <= u64::MAX - len {
            self.replicas.broadcast(len);
        }
        Some(raw)
    }

    /// Executes `request` at time `now` (milliseconds since the Unix epoch).
    pub fn execute_command(&mut self, request: Command, now: u64) -> (r: Outcome)
        requires
            old(self).wf(),
        ensures
            executes(*old(self), request@, now as nat, *final(self), r),
    {
        match request {
            Command::Ping => {
                let b = vec![43u8, 80, 79, 78, 71, 13, 10];
                assert(b@ =~= pong_bytes());
                Outcome { response: CommandResponse::Single(b), propagate: None }
            },
            Command::Echo(v) => Outcome {
                response: CommandResponse::Single(encode_bstring(v.as_slice())),
                propagate: None,
            },
            Command::Get(key) => {
                let b = match self.store.get(key.as_slice(), now) {
                    Ok(Some(v)) => encode_bstring(v.as_slice()),
                    Ok(None) => null(),
                    Err(_) => wrongtype_error(),
                };
                Outcome { response: CommandResponse::Single(b), propagate: None }
            },
            Command::SetKey { key, value, expiry, raw_command } => {
                let abs = match expiry {
                    Some(ms) => Some(now.saturating_add(ms)),
                    None => None,
                };
                self.store.set(key.as_slice(), value, abs);
                let p = self.note_write(raw_command);
                Outcome { response: CommandResponse::Single(ok_reply()), propagate: p }
            },
            Command::Incr { key, raw_command } => match self.store.incr(key.as_slice(), now) {
                Ok(n) => {
                    let p = self.note_write(raw_command);
                    Outcome { response: CommandResponse::Single(encode_int(n)), propagate: p }
                },
                Err(StoreError::NotInteger) => Outcome {
                    response: CommandResponse::Single(not_integer_error()),
                    propagate: None,
                },
                Err(StoreError::WrongType) => Outcome {
                    response: CommandResponse::Single(wrongtype_error()),
                    propagate: None,
                },
            },
            Command::ListPush { key, values, is_left, raw_command } => self.run_list_push(
                key,
                values,
                is_left,
                raw_command,
                now,
            ),
            Command::LRange { key, start, end } => self.run_lrange(key, start, end, now),
            Command::XAdd { key, id, entry, raw_command } => {
                let (f, v) = entry;
                self.run_xadd(key, id, f, v, raw_command, now)
            },
            Command::ZAdd { key, score, member, raw_command } => self.run_zadd(key, score, member, raw_command, now),
            Command::XRange { key, start, end } => {
                let b = match self.store.stream_range(key.as_slice(), start.as_slice(), end.as_slice(), now) {
                    Ok(entries) => {
                        proof {
                            if entries@.len() == 0 {
                                assert(crate::stream::stream_views(entries@) =~= seq![]);
                            }
                        }
                        map_xrange_response(&entries)
                    },
                    Err(e) => stream_error(e),
                };
                Outcome { response: CommandResponse::Single(b), propagate: None }
            },
            Command::Type(key) => {
                let t = self.store.type_of(key.as_slice(), now);
                Outcome { response: CommandResponse::Single(encode_sstring(t.as_slice())), propagate: None }
            },
            Command::ZRange { key, start, end } => {
                let b = match self.store.zrange(key.as_slice(), start, end, now) {
                    Ok(items) => encode_array_of_bstrings(items.as_slice()),
                    Err(_) => wrongtype_error(),
                };
                Outcome { response: CommandResponse::Single(b), propagate: None }
            },
            Command::NotInteger => Outcome {
                response: CommandResponse::Single(not_integer_error()),
                propagate: None,
            },
            Command::Invalid(name) => Outcome {
                response: CommandResponse::Single(unknown_command_error(name.as_slice())),
                propagate: None,
            },
            other => self.execute_other(other, now),
        }
    }

    fn run_list_push(&mut self, key: Vec<u8>, values: Vec<Vec<u8>>, is_left: bool, raw: Vec<u8>, now: u64) -> (r: Outcome)
        requires
            old(self).wf(),
        ensures
            final(self).wf(),
            keeps_setup(*old(self), *final(self)),
            replicas_follow(*old(self), *final(self), &r.propagate),
            ({
                let key = key@;
                let values = byte_views(values@);
                let raw = raw@;
                match live_value(old(self).store@, key, now as nat) {
                    None => reply_of(&r.response) == Some(encode(Resp::Integer(clamp_i64(values.len() as int))))
                        && prop_of(&r.propagate) == Some(raw) && final(self).store@ == if values.len() == 0 {
                        purge(old(self).store@, key, now as nat)
                    } else {
                        purge(old(self).store@, key, now as nat).insert(key, (ValueView::List(pushed(seq![], values, is_left)), None))
                    },
                    Some(ValueView::List(l)) => reply_of(&r.response) == Some(encode(Resp::Integer(clamp_i64((l.len() + values.len()) as int))))
                        && prop_of(&r.propagate) == Some(raw) && final(self).store@ == old(self).store@.insert(
                        key,
                        (ValueView::List(pushed(l, values, is_left)), old(self).store@[key].1),
                    ),
                    Some(_) => is_error(reply_of(&r.response)) && prop_of(&r.propagate) == None::<Seq<u8>>
                        && final(self).store@ == old(self).store@,
                }
            }),
    {
        match self.store.list_push(key.as_slice(), values, is_left, now) {
            Ok(n) => {
                let p = self.note_write(raw);
                let count: i64 = if (n as u64) > 9223372036854775807u64 {
                    i64::MAX
                } else {
                    n as i64
                };
                Outcome { response: CommandResponse::Single(encode_int(count)), propagate: p }
            },
            Err(_) => Outcome { response: CommandResponse::Single(wrongtype_error()), propagate: None },
        }
    }

    fn run_lrange(&mut self, key: Vec<u8>, start: isize, end: isize, now: u64) -> (r: Outcome)
        requires
            old(self).wf(),
        ensures
            final(self).wf(),
            keeps_setup(*old(self), *final(self)),
            replicas_follow(*old(self), *final(self), &r.propagate),
            ({
                let key = key@;
                let start = start as int;
                let end = end as int;
                final(self).store@ == old(self).store@ && prop_of(&r.propagate)
                    == None::<Seq<u8>> && match live_value(old(self).store@, key, now as nat) {
                    None => reply_of(&r.response) == Some(encode(Resp::Array(seq![]))),
                    Some(ValueView::List(l)) => reply_of(&r.response) == Some(encode(Resp::Array(bulks(range_slice(l, start, end))))),
                    Some(_) => is_error(reply_of(&r.response)),
                }
            }),
    {
        let b = match self.store.list_range(key.as_slice(), start, end, now) {
            Ok(items) => encode_array_of_bstrings(items.as_slice()),
            Err(_) => wrongtype_error(),
        };
        Outcome { response: CommandResponse::Single(b), propagate: None }
    }

    fn run_xadd(&mut self, key: Vec<u8>, id: Vec<u8>, field: Vec<u8>, value: Vec<u8>, raw: Vec<u8>, now: u64) -> (r: Outcome)
        requires
            old(self).wf(),
        ensures
            final(self).wf(),
            keeps_setup(*old(self), *final(self)),
            replicas_follow(*old(self), *final(self), &r.propagate),
            ({
                let key = key@;
                let id = id@;
                let raw = raw@;
                match xadd_outcome(live_value(old(self).store@, key, now as nat), id, now as nat) {
                    Ok(nid) => reply_of(&r.response) == Some(encode(Resp::Bulk(decimal(nid.0) + seq![45u8] + decimal(nid.1))))
                        && prop_of(&r.propagate) == Some(raw) && xadded(old(self).store@, final(self).store@, key, field@, value@, nid, now as nat),
                    Err(_) => is_error(reply_of(&r.response)) && prop_of(&r.propagate) == None::<Seq<u8>>
                        && final(self).store@ == purge(old(self).store@, key, now as nat),
                }
            }),
    {
        match self.store.add_stream(key.as_slice(), id.as_slice(), field, value, now) {
            Ok(nid) => {
                let p = self.note_write(raw);
                Outcome {
                    response: CommandResponse::Single(encode_bstring(stream_id_text(nid).as_slice())),
                    propagate: p,
                }
            },
            Err(e) => Outcome { response: CommandResponse::Single(stream_error(e)), propagate: None },
        }
    }

    fn run_zadd(&mut self, key: Vec<u8>, score: i64, member: Vec<u8>, raw: Vec<u8>, now: u64) -> (r: Outcome)
        requires
            old(self).wf(),
        ensures
            final(self).wf(),
            keeps_setup(*old(self), *final(self)),
            replicas_follow(*old(self), *final(self), &r.propagate),
            ({
                let key = key@;
                let member = member@;
                let raw = raw@;
                match live_value(old(self).store@, key, now as nat) {
                    Some(ValueView::Str(_)) | Some(ValueView::List(_)) | Some(ValueView::Stream(_)) => is_error(
                        reply_of(&r.response),
                    ) && prop_of(&r.propagate) == None::<Seq<u8>>,
                    lv => prop_of(&r.propagate) == Some(raw) && zadded(old(self).store@, final(self).store@, key, score as int, member, now as nat)
                && reply_of(&r.response) == Some(encode(Resp::Integer(
                        if forall|i: int| 0 <= i < zset_of(lv).len() ==> zset_of(lv)[i].1 != member {
                            1
                        } else {
                            0
                        },
                    ))),
                }
            }),
    {
        match self.store.zadd(key.as_slice(), score, member, now) {
            Ok(n) => {
                let p = self.note_write(raw);
                Outcome { response: CommandResponse::Single(encode_int(n)), propagate: p }
            },
            Err(_) => Outcome { response: CommandResponse::Single(wrongtype_error()), propagate: None },
        }
    }

    fn execute_other(&mut self, request: Command, now: u64) -> (r: Outcome)
        requires
            old(self).wf(),
        ensures
            final(self).wf(),
            keeps_setup(*old(self), *final(self)),
            replicas_follow(*old(self), *final(self), &r.propagate),
            match request@ {
                Request::Info | Request::Replconf
                | Request::ReplconfGetAck(_)
                | Request::Multi | Request::Exec | Request::Discard => final(self).store@
                    == old(self).store@ && prop_of(&r.propagate) == None::<Seq<u8>>,
                Request::XRead { streams, block } => xread_done(old(self).store@, streams, block, now as nat, final(self).store@, r),
                Request::Psync(_, _) => final(self).store@ == old(self).store@ && r.propagate is None && psync_reply(&r.response, old(self).master_replid@, old(self).replicas.offset()),
                Request::LLen(key) => final(self).store@ == old(self).store@ && prop_of(&r.propagate) == None::<Seq<u8>> && match live_value(old(self).store@, key, now as nat) {
            None => reply_of(&r.response) == Some(encode(Resp::Integer(0))),
            Some(ValueView::List(l)) => reply_of(&r.response) == Some(encode(Resp::Integer(clamp_i64(l.len() as int)))),
            Some(_) => is_error(reply_of(&r.response)),
        },
                Request::ZCard(key) => final(self).store@ == old(self).store@ && prop_of(&r.propagate) == None::<Seq<u8>> && match live_value(old(self).store@, key, now as nat) {
            None => reply_of(&r.response) == Some(encode(Resp::Integer(0))),
            Some(ValueView::SortedSet(z)) => reply_of(&r.response) == Some(encode(Resp::Integer(clamp_i64(z.len() as int)))),
            Some(_) => is_error(reply_of(&r.response)),
        },
                Request::ConfigGet(key) => final(self).store@ == old(self).store@ && prop_of(&r.propagate) == None::<Seq<u8>> && config_reply(old(self).config@, key, reply_of(&r.response)),
                Request::Keys(pattern) => final(self).store@ == old(self).store@ && prop_of(&r.propagate) == None::<Seq<u8>> && (reply_of(&r.response) matches Some(b) && keys_reply(old(self).store@, pattern, now as nat, b)),
                Request::LPop(key, count) => match live_value(old(self).store@, key, now as nat) {
            None => reply_of(&r.response) == Some(null_bytes()) && prop_of(&r.propagate) == None::<Seq<u8>>
                && final(self).store@ == purge(old(self).store@, key, now as nat),
            Some(ValueView::List(l)) => lpop_done(old(self).store@, final(self).store@, key, l, count, reply_of(&r.response))
                && prop_of(&r.propagate) is Some,
            Some(_) => is_error(reply_of(&r.response)) && prop_of(&r.propagate) == None::<Seq<u8>> && final(self).store@ == old(self).store@,
        },
                Request::ZRem { key, member, raw } => match live_value(old(self).store@, key, now as nat) {
            None => reply_of(&r.response) == Some(encode(Resp::Integer(0))) && prop_of(&r.propagate) == None::<Seq<u8>>,
            Some(ValueView::SortedSet(z)) => reply_of(&r.response) == Some(encode(Resp::Integer(
                if exists|i: int| 0 <= i < z.len() && z[i].1 == member {
                    1
                } else {
                    0
                },
            ))) && (prop_of(&r.propagate) == if exists|i: int| 0 <= i < z.len() && z[i].1 == member {
                Some(raw)
            } else {
                None::<Seq<u8>>
            }),
            Some(_) => is_error(reply_of(&r.response)) && prop_of(&r.propagate) == None::<Seq<u8>>,
        },
                Request::BLPop(keys, _) => blpop_done(old(self).store@, final(self).store@, keys, now as nat, reply_of(&r.response)) && (
        prop_of(&r.propagate) is Some <==> reply_of(&r.response) != Some(crate::response::null_array_bytes())),
                Request::Wait { .. } | Request::ReplconfAck(_) | Request::Subscribe(_) => final(self).store@ == old(self).store@ && prop_of(&r.propagate)
            == None::<Seq<u8>> && no_reply_yet(&r.response),
                Request::ZRank(key, member) => final(self).store@ == old(self).store@ && prop_of(&r.propagate) == None::<Seq<u8>> && match live_value(old(self).store@, key, now as nat) {
            None => reply_of(&r.response) == Some(null_bytes()),
            Some(ValueView::SortedSet(z)) => ((forall|i: int| 0 <= i < z.len() ==> z[i].1 != member) ==> reply_of(&r.response) == Some(null_bytes()))
                && forall|i: int| 0 <= i < z.len() && #[trigger] z[i].1 == member ==> reply_of(&r.response) == Some(
                encode(Resp::Integer(clamp_i64(i))),
            ),
            Some(_) => is_error(reply_of(&r.response)),
        },
                Request::ZScore(key, member) => final(self).store@ == old(self).store@ && prop_of(&r.propagate) == None::<Seq<u8>> && match live_value(old(self).store@, key, now as nat) {
            None => reply_of(&r.response) == Some(null_bytes()),
            Some(ValueView::SortedSet(z)) => ((forall|i: int| 0 <= i < z.len() ==> z[i].1 != member) ==> reply_of(&r.response) == Some(null_bytes()))
                && forall|sc: int| #[trigger] z.contains((sc, member)) ==> reply_of(&r.response) == Some(
                encode(Resp::Bulk(crate::protocol::signed_decimal(sc))),
            ),
            Some(_) => is_error(reply_of(&r.response)),
        },
                _ => true,
            },
    {
        match request {
            Command::ConfigGet(key) => {
                let b = match self.config_value(key.as_slice()) {
                    Some(v) => {
                        let items = vec![key, v];
                        assert(byte_views(items@) =~= seq![items@[0]@, items@[1]@]);
                        encode_array_of_bstrings(items.as_slice())
                    },
                    None => {
                        let empty: Vec<Vec<u8>> = Vec::new();
                        let b = encode_resp_array(empty.as_slice());
                        assert(b@ =~= encode(Resp::Array(seq![])));
                        b
                    },
                };
                Outcome { response: CommandResponse::Single(b), propagate: None }
            },
            Command::Keys(pattern) => {
                let keys = self.store.get_keys(pattern.as_slice(), now);
                proof {
                    let ks = byte_views(keys@);
                    assert(ks.no_duplicates());
                    assert forall|k: Seq<u8>|
                        ks.contains(k) <==> (self.store@.contains_key(k) && crate::store::alive(self.store@[k], now as nat)
                            && crate::store::key_matches(k, pattern@)) by {
                        assert(byte_views(keys@).contains(k) == ks.contains(k));
                    }
                    assert(keys_reply(self.store@, pattern@, now as nat, encode(Resp::Array(crate::response::bulks(ks)))));
                }
                Outcome {
                    response: CommandResponse::Single(encode_array_of_bstrings(keys.as_slice())),
                    propagate: None,
                }
            },
            Command::Info => Outcome { response: CommandResponse::Single(self.info()), propagate: None },
            Command::Psync(_, _) => {
                let mut line = vec![70u8, 85, 76, 76, 82, 69, 83, 89, 78, 67, 32];
                push_all(&mut line, self.master_replid.as_slice());
                line.push(32u8);
                push_decimal(&mut line, self.replicas.master_offset());
                assert(line@ =~= fullresync_text(self.master_replid@, self.replicas.offset()));
                let (header, rdb) = crate::response::psync_response();
                let mut snapshot = header;
                push_all(&mut snapshot, rdb.as_slice());
                let first = encode_sstring(line.as_slice());
                let ghost fv = first@;
                let ghost sv = snapshot@;
                let frames = vec![first, snapshot];
                assert(frames@[0]@ == fv && frames@[1]@ == sv);
                Outcome { response: CommandResponse::Multiple(frames), propagate: None }
            },
            Command::Replconf => Outcome { response: CommandResponse::Single(ok_reply()), propagate: None },
            Command::ReplconfGetAck(_) => Outcome { response: CommandResponse::ReplconfAck, propagate: None },
            Command::XRead { streams, block } => self.xread(streams, block, now),
            Command::LLen(key) => {
                let b = match self.store.list_len(key.as_slice(), now) {
                    Ok(n) => encode_int(if (n as u64) > 9223372036854775807u64 {
                        i64::MAX
                    } else {
                        n as i64
                    }),
                    Err(_) => wrongtype_error(),
                };
                Outcome { response: CommandResponse::Single(b), propagate: None }
            },
            Command::LPop(key, count) => {
                let single = count == 1;
                match self.store.list_pop(key.as_slice(), count, now) {
                    Ok(Some(items)) => {
                        let b = if single && items.len() == 1 {
                            encode_bstring(items[0].as_slice())
                        } else {
                            encode_array_of_bstrings(items.as_slice())
                        };
                        let ghost keyv = key@;
                        let mut raw = vec![vec![76u8, 80, 79, 80], key];
                        if !single {
                            let mut cnt: Vec<u8> = Vec::new();
                            push_decimal(&mut cnt, count as u64);
                            raw.push(cnt);
                        }
                        let ghost mid = self.store@;
                        let p = self.note_write(encode_array_of_bstrings(raw.as_slice()));
                        proof {
                            let lv = live_value(old(self).store@, key@, now as nat);
                            assert(lv is Some && lv->0 is List);
                            let l = lv->0->List_0;
                            assert(purge(old(self).store@, key@, now as nat) == old(self).store@);
                            assert(self.store@ == mid);
                            if single && items@.len() == 1 {
                                assert(byte_views(items@)[0] == items@[0]@);
                                assert(byte_views(items@) == l.take(1));
                                assert(byte_views(items@).len() == 1);
                                assert(l.len() >= 1);
                                assert(l.take(1)[0] == l[0]);
                            }
                            assert(lpop_done(old(self).store@, self.store@, key@, l, count as nat, Some(b@)));
                        }
                        Outcome { response: CommandResponse::Single(b), propagate: p }
                    },
                    Ok(None) => Outcome { response: CommandResponse::Single(null()), propagate: None },
                    Err(_) => Outcome { response: CommandResponse::Single(wrongtype_error()), propagate: None },
                }
            },
            Command::BLPop(keys, _) => match self.store.blpop(keys.as_slice(), now) {
                Some((k, v)) => {
                    let raw = vec![vec![76u8, 80, 79, 80], copy_bytes(&k)];
                    let ghost mid = self.store@;
                    let p = self.note_write(encode_array_of_bstrings(raw.as_slice()));
                    let ghost kv = k@;
                    let ghost vv = v@;
                    let pair = vec![k, v];
                    assert(byte_views(pair@) =~= seq![kv, vv]);
                    let reply = encode_array_of_bstrings(pair.as_slice());
                    proof {
                        assert(self.store@ == mid);
                        let i = choose|i: int|
                            #![trigger keys@[i]]
                            {
                                &&& 0 <= i < keys@.len()
                                &&& kv == keys@[i]@
                                &&& forall|j: int|
                                    0 <= j < i ==> !(live_value(old(self).store@, #[trigger] keys@[j]@, now as nat) matches Some(
                                        ValueView::List(_),
                                    ))
                                &&& crate::store::popped_head(old(self).store@, mid, kv, vv, now as nat)
                            };
                        assert(byte_views(keys@)[i] == keys@[i]@);
                        assert forall|j: int| 0 <= j < i implies !(live_value(old(self).store@, #[trigger] byte_views(keys@)[j], now as nat) matches Some(
                            ValueView::List(_),
                        )) by {
                            assert(byte_views(keys@)[j] == keys@[j]@);
                        }
                        assert(blpop_done(old(self).store@, self.store@, byte_views(keys@), now as nat, Some(reply@)));
                    }
                    Outcome { response: CommandResponse::Single(reply), propagate: p }
                },
                None => {
                    proof {
                        assert forall|j: int| 0 <= j < byte_views(keys@).len() implies !(live_value(old(self).store@, #[trigger] byte_views(keys@)[j], now as nat) matches Some(
                            ValueView::List(_),
                        )) by {
                            assert(byte_views(keys@)[j] == keys@[j]@);
                        }
                    }
                    Outcome { response: CommandResponse::Single(crate::common::null_array()), propagate: None }
                },
            },
            Command::ZRank(key, member) => {
                proof {
                    if self.store@.contains_key(key@) {
                        self.store.lemma_values_wf(key@);
                    }
                }
                let b = match self.store.zrank(key.as_slice(), member.as_slice(), now) {
                    Ok(Some(i)) => encode_int(if (i as u64) > 9223372036854775807u64 {
                        i64::MAX
                    } else {
                        i as i64
                    }),
                    Ok(None) => null(),
                    Err(_) => wrongtype_error(),
                };
                Outcome { response: CommandResponse::Single(b), propagate: None }
            },
            Command::ZScore(key, member) => {
                proof {
                    if self.store@.contains_key(key@) {
                        self.store.lemma_values_wf(key@);
                    }
                }
                let b = match self.store.zscore(key.as_slice(), member.as_slice(), now) {
                    Ok(Some(sc)) => encode_bstring(decimal_bytes(sc).as_slice()),
                    Ok(None) => null(),
                    Err(_) => wrongtype_error(),
                };
                Outcome { response: CommandResponse::Single(b), propagate: None }
            },
            Command::ZCard(key) => {
                let b = match self.store.zcard(key.as_slice(), now) {
                    Ok(n) => encode_int(if (n as u64) > 9223372036854775807u64 {
                        i64::MAX
                    } else {
                        n as i64
                    }),
                    Err(_) => wrongtype_error(),
                };
                Outcome { response: CommandResponse::Single(b), propagate: None }
            },
            Command::ZRem { key, member, raw_command } => match self.store.zrem(key.as_slice(), member.as_slice(), now) {
                Ok(n) => {
                    let p = if n == 1 {
                        self.note_write(raw_command)
                    } else {
                        None
                    };
                    Outcome { response: CommandResponse::Single(encode_int(n)), propagate: p }
                },
                Err(_) => Outcome { response: CommandResponse::Single(wrongtype_error()), propagate: None },
            },
            Command::Multi => Outcome { response: CommandResponse::Single(ok_reply()), propagate: None },
            Command::Exec => {
                let t = vec![69u8, 88, 69, 67, 32, 119, 105, 116, 104, 111, 117, 116, 32, 77, 85, 76, 84, 73];
                Outcome { response: CommandResponse::Single(encode_error(t.as_slice())), propagate: None }
            },
            Command::Discard => {
                let t = vec![68u8, 73, 83, 67, 65, 82, 68, 32, 119, 105, 116, 104, 111, 117, 116, 32, 77, 85, 76, 84, 73];
                Outcome { response: CommandResponse::Single(encode_error(t.as_slice())), propagate: None }
            },
            _ => Outcome { response: CommandResponse::Multiple(Vec::new()), propagate: None },
        }
    }

    /// `INFO replication`: `role`, and on a master its replication ID and offset.
    pub fn info(&self) -> (r: Vec<u8>)
        ensures
            r@ == encode(Resp::Bulk(info_text(self.is_replica, self.master_replid@, self.replicas.offset()))),
    {
        let role = vec![114u8, 111, 108, 101, 58];
        let mut text: Vec<u8> = Vec::new();
        push_all(&mut text, role.as_slice());
        if self.is_replica {
            let slave = vec![115u8, 108, 97, 118, 101];
            push_all(&mut text, slave.as_slice());
            assert(text@ =~= info_text(self.is_replica, self.master_replid@, self.replicas.offset()));
        } else {
            let master = vec![109u8, 97, 115, 116, 101, 114];
            let id_label = vec![13u8, 10, 109, 97, 115, 116, 101, 114, 95, 114, 101, 112, 108, 105, 100, 58];
            let off_label = vec![13u8, 10, 109, 97, 115, 116, 101, 114, 95, 114, 101, 112, 108, 95, 111, 102, 102, 115, 101, 116, 58];
            push_all(&mut text, master.as_slice());
            push_all(&mut text, id_label.as_slice());
            push_all(&mut text, self.master_replid.as_slice());
            push_all(&mut text, off_label.as_slice());
            push_decimal(&mut text, self.replicas.master_offset());
            assert(text@ =~= info_text(self.is_replica, self.master_replid@, self.replicas.offset()));
        }
        encode_bstring(text.as_slice())
    }

    /// `XREAD`: for each `(key, id)` the entries after `id` (`$` is the top at call time).
    /// With no data and `block` set, the response is empty and the caller waits.
    fn xread(&mut self, streams: Vec<(Vec<u8>, Vec<u8>)>, block: Option<u64>, now: u64) -> (r: Outcome)
        requires
            old(self).wf(),
        ensures
            final(self).wf(),
            keeps_setup(*old(self), *final(self)),
            replicas_follow(*old(self), *final(self), &r.propagate),
            xread_done(old(self).store@, crate::command::pair_views(streams@), opt_u64(block), now as nat, final(self).store@, r),
    {
        let mut filters: Vec<StreamFilter> = Vec::new();
        let mut i: usize = 0;
        while i < streams.len()
            invariant
                self.wf(),
                *self == *old(self),
                i <= streams@.len(),
                crate::store::filter_views(filters@) == xread_filters(
                    self.store@,
                    crate::command::pair_views(streams@).take(i as int),
                    now as nat,
                ),
            decreases streams@.len() - i,
        {
            let ghost ps = crate::command::pair_views(streams@);
            let ghost f0 = crate::store::filter_views(filters@);
            assert(ps.take(i + 1).drop_last() =~= ps.take(i as int));
            assert(ps.take(i + 1).last() == ps[i as int]);
            let key = &streams[i].0;
            let id = &streams[i].1;
            let dollar = id.len() == 1 && id[0] == 36;
            proof {
                if id@ == seq![36u8] {
                    assert(id@.len() == 1 && id@[0] == 36);
                }
                if dollar {
                    assert(id@ =~= seq![36u8]);
                }
            }
            let after = if dollar {
                match self.store.stream_top(key.as_slice(), now) {
                    Some(t) => Some(t),
                    None => Some((0u64, 0u64)),
                }
            } else {
                parse_bound(id.as_slice(), false)
            };
            match after {
                Some(a) => {
                    let f = StreamFilter { key: copy_bytes(key), after: a };
                    filters.push(f);
                    assert(crate::store::filter_views(filters@) =~= f0.push((key@, (a.0 as nat, a.1 as nat))));
                },
                None => {},
            }
            i = i + 1;
        }
        assert(crate::command::pair_views(streams@).take(i as int) =~= crate::command::pair_views(streams@));
        match self.store.get_filtered_streams(&filters, now).data {
            Some(data) => Outcome {
                response: CommandResponse::Single(map_xread_response(&data)),
                propagate: None,
            },
            None => if block.is_some() {
                Outcome { response: CommandResponse::Multiple(Vec::new()), propagate: None }
            } else {
                Outcome { response: CommandResponse::Single(crate::common::null_array()), propagate: None }
            },
        }
    }

    /// The `XREAD` pairs with each `$` replaced by the top ID of the live stream under its
    /// key (`0-0` when there is none), so that a blocking read keeps the top it started from.
    pub fn resolve_stream_ids(&self, streams: &Vec<(Vec<u8>, Vec<u8>)>, now: u64) -> (r: Vec<(Vec<u8>, Vec<u8>)>)
        requires
            self.wf(),
        ensures
            r@.len() == streams@.len(),
            forall|i: int| 0 <= i < streams@.len() ==> #[trigger] r@[i].0@ == streams@[i].0@ && r@[i].1@ == if streams@[i].1@
                == seq![36u8] {
                match top_of(self.store@, streams@[i].0@, now as nat) {
                    Some(t) => id_text(t.0, t.1),
                    None => id_text(0, 0),
                }
            } else {
                streams@[i].1@
            },
    {
        let mut out: Vec<(Vec<u8>, Vec<u8>)> = Vec::new();
        let mut i: usize = 0;
        while i < streams.len()
            invariant
                self.wf(),
                i <= streams@.len(),
                out@.len() == i,
                forall|j: int| 0 <= j < i ==> #[trigger] out@[j].0@ == streams@[j].0@ && out@[j].1@ == if streams@[j].1@
                    == seq![36u8] {
                    match top_of(self.store@, streams@[j].0@, now as nat) {
                        Some(t) => id_text(t.0, t.1),
                        None => id_text(0, 0),
                    }
                } else {
                    streams@[j].1@
                },
            decreases streams@.len() - i,
        {
            let key = &streams[i].0;
            let id = &streams[i].1;
            let dollar = id.len() == 1 && id[0] == 36;
            proof {
                if id@ == seq![36u8] {
                    assert(id@.len() == 1 && id@[0] == 36);
                }
                if dollar {
                    assert(id@ =~= seq![36u8]);
                }
            }
            let new_id = if dollar {
                match self.store.stream_top(key.as_slice(), now) {
                    Some(t) => stream_id_text(t),
                    None => stream_id_text((0, 0)),
                }
            } else {
                copy_bytes(id)
            };
            let kc = copy_bytes(key);
            let ghost nv = new_id@;
            let ghost before = out@;
            out.push((kc, new_id));
            proof {
                assert(out@[i as int].0@ == streams@[i as int].0@);
                assert(out@[i as int].1@ == nv);
                assert forall|j: int| 0 <= j < i implies #[trigger] out@[j] == before[j] by {}
            }
            i = i + 1;
        }
        out
    }

    /// Runs the queued commands of a transaction one after the other; a failing command
    /// answers with its error and the rest still run.
    #[verifier::spinoff_prover]
    #[verifier::rlimit(100)]
    pub fn process_transaction(&mut self, commands: Vec<Command>, now: u64) -> (r: (CommandResponse, Vec<Vec<u8>>))
        requires
            old(self).wf(),
        ensures
            final(self).wf(),
            exists|states: Seq<ServerContext>, outs: Seq<Outcome>|
                #[trigger] runs_in_order(*old(self), crate::connection::requests(commands@), now as nat, *final(self), r, states, outs),
    {
        let ghost reqs = crate::connection::requests(commands@);
        let ghost mut states: Seq<ServerContext> = seq![*self];
        let ghost mut outs: Seq<Outcome> = seq![];
        let mut responses: Vec<Vec<u8>> = Vec::new();
        let mut writes: Vec<Vec<u8>> = Vec::new();
        let mut commands = commands;
        let ghost total = reqs.len();
        while commands.len() > 0
            invariant
                self.wf(),
                total == reqs.len(),
                outs.len() + commands@.len() == total,
                states.len() == outs.len() + 1,
                states[0] == *old(self),
                states.last() == *self,
                crate::connection::requests(commands@) == reqs.skip(outs.len() as int),
                forall|i: int| 0 <= i < outs.len() ==> executes(#[trigger] states[i], reqs[i], now as nat, states[i + 1], outs[i]),
                responses@.len() == outs.len(),
                byte_views(responses@) == outs.map_values(|o: Outcome| response_bytes(&o.response)),
                byte_views(writes@) == writes_of(outs),
            decreases commands@.len(),
        {
            let ghost before = commands@;
            let c = commands.remove(0);
            proof {
                assert(crate::connection::requests(before)[0] == c@);
                assert(reqs[outs.len() as int] == reqs.skip(outs.len() as int)[0]);
                let n = outs.len() as int;
                assert(commands@ == before.remove(0));
                assert forall|j: int| 0 <= j < commands@.len() implies #[trigger] crate::connection::requests(commands@)[j]
                    == reqs.skip(n + 1)[j] by {
                    assert(commands@[j] == before[j + 1]);
                    assert(crate::connection::requests(before)[j + 1] == reqs.skip(n)[j + 1]);
                }
                assert(crate::connection::requests(commands@) =~= reqs.skip(n + 1));
            }
            let ghost s_before = *self;
            let out = self.execute_command(c, now);
            let ghost o = out;
            let ghost rb = byte_views(responses@);
            let ghost resp0 = responses@;
            let ghost outs0 = outs;
            let ghost wb = byte_views(writes@);
            let bytes = out.response.to_bytes();
            responses.push(bytes);
            let ghost w0 = writes@;
            match out.propagate {
                Some(p) => {
                    writes.push(p);
                    assert(byte_views(writes@) =~= byte_views(w0).push(p@));
                },
                None => {},
            }
            proof {
                let n = outs.len();
                outs = outs.push(o);
                states = states.push(*self);
                assert(bytes@ == response_bytes(&o.response));
                assert(responses@ == resp0.push(bytes));
                assert(resp0.len() == n);
                assert forall|k: int| 0 <= k < outs.len() implies #[trigger] byte_views(responses@)[k]
                    == outs.map_values(|o: Outcome| response_bytes(&o.response))[k] by {
                    assert(byte_views(responses@)[k] == responses@[k]@);
                    if k < n {
                        assert(responses@[k] == resp0[k]);
                        assert(rb[k] == resp0[k]@);
                    }
                }
                assert(byte_views(responses@) =~= outs.map_values(|o: Outcome| response_bytes(&o.response)));
                assert(outs.drop_last() =~= outs.take(n as int));
                assert(outs.take(n as int) =~= outs.drop_last());
                assert(outs.drop_last() =~= outs0);
                assert(outs.last() == o);
                assert(byte_views(writes@) =~= writes_of(outs));
                assert forall|i: int| 0 <= i < outs.len() implies executes(#[trigger] states[i], reqs[i], now as nat, states[i + 1], outs[i]) by {
                    if i == n {
                        assert(states[i] == s_before);
                    }
                }
            }
        }
        let r = (CommandResponse::Multiple(responses), writes);
        proof {
            assert(outs.len() == reqs.len());
            assert(runs_in_order(*old(self), reqs, now as nat, *self, r, states, outs));
        }
        r
    }
}

/// The propagated bytes among `outs`, in order.
pub open spec fn writes_of(outs: Seq<Outcome>) -> Seq<Seq<u8>>
    decreases outs.len(),
{
    if outs.len() == 0 {
        seq![]
    } else {
        match outs.last().propagate {
            Some(p) => writes_of(outs.drop_last()).push(p@),
            None => writes_of(outs.drop_last()),
        }
    }
}

/// The commands `reqs` ran one after the other from `s0`, through `states`, to `s1`; the
/// transaction answered with the array of their responses, in order, and propagated their
/// writes, in order.
pub open spec fn runs_in_order(
    s0: ServerContext,
    reqs: Seq<Request>,
    now: nat,
    s1: ServerContext,
    r: (CommandResponse, Vec<Vec<u8>>),
    states: Seq<ServerContext>,
    outs: Seq<Outcome>,
) -> bool {
    &&& states.len() == reqs.len() + 1
    &&& outs.len() == reqs.len()
    &&& states[0] == s0
    &&& states.last() == s1
    &&& forall|i: int| 0 <= i < reqs.len() ==> executes(#[trigger] states[i], reqs[i], now, states[i + 1], outs[i])
    &&& r.0 matches CommandResponse::Multiple(v) && byte_views(v@) == outs.map_values(|o: Outcome| response_bytes(&o.response))
    &&& byte_views(r.1@) == writes_of(outs)
}

pub open spec fn is_alphanumeric(c: u8) -> bool {
    (48 <= c <= 57) || (65 <= c <= 90) || (97 <= c <= 122)
}

/// Relies on `rand::distr::SampleString::sample_string` for `Alphanumeric` (rand 0.9):
/// `len` bytes, each drawn from `A-Z`, `a-z`, `0-9`.
#[verifier::external_body]
fn alphanumeric_string(len: usize) -> (r: Vec<u8>)
    ensures
        r@.len() == len,
        forall|i: int| 0 <= i < r@.len() ==> is_alphanumeric(#[trigger] r@[i]),
{
    rand::distr::Alphanumeric.sample_string(&mut rand::rng(), len).into_bytes()
}

/// A fresh 40-character alphanumeric replication ID.
pub fn gen_replication_id() -> (r: Vec<u8>)
    ensures
        r@.len() == 40,
        forall|i: int| 0 <= i < r@.len() ==> is_alphanumeric(#[trigger] r@[i]),
{
    alphanumeric_string(40)
}

/// The absolute expiry time `duration_ms` after `now_ms`; `None` when the duration is
/// not an unsigned integer or the sum overflows.
pub fn get_timestamp(duration_ms: &[u8], now_ms: u64) -> (r: Option<u64>)
    ensures
        match crate::number::uint_within(duration_ms@, u64::MAX as int) {
            Some(d) => if now_ms + d <= u64::MAX {
                r == Some((now_ms + d) as u64)
            } else {
                r is None
            },
            None => r is None,
        },
{
    match crate::number::parse_uint(duration_ms, u64::MAX) {
        Some(d) => now_ms.checked_add(d),
        None => None,
    }
}

/// The value of `key` among configuration entries.
pub fn get_config_value(config: &Vec<(Vec<u8>, Vec<u8>)>, key: &[u8]) -> (r: Option<Vec<u8>>)
    ensures
        r matches Some(v) ==> exists|i: int|
            0 <= i < config@.len() && config@[i].0@ == key@ && config@[i].1@ == v@,
        r is None ==> forall|i: int| 0 <= i < config@.len() ==> config@[i].0@ != key@,
{
    let mut i: usize = 0;
    while i < config.len()
        invariant
            i <= config@.len(),
            forall|j: int| 0 <= j < i ==> config@[j].0@ != key@,
        decreases config@.len() - i,
    {
        if bytes_eq(config[i].0.as_slice(), key) {
            return Some(copy_bytes(&config[i].1));
        }
        i = i + 1;
    }
    None
}

/// Replication convergence: a replica receives exactly the bytes of each write the
/// master accepted, decodes from them the very array the client sent, and so parses
/// the same request; a `SET` then has the same effect on equal keyspaces.
pub proof fn lemma_replication_convergence(
    args: Seq<Resp>,
    max: nat,
    m: Map<Seq<u8>, Slot>,
    now: nat,
)
    requires
        crate::protocol::well_formed(Resp::Array(args), max),
    ensures
        crate::protocol::frame_at(encode(Resp::Array(args)), 0, Resp::Array(args), max),
        forall|w: Resp| #[trigger]
            crate::protocol::frame_at(encode(Resp::Array(args)), 0, w, max) ==> w == Resp::Array(args),
        crate::command::request_of(args) matches Request::SetKey { key, value, expiry, raw } ==> raw
            == encode(Resp::Array(args)),
{
    crate::protocol::lemma_round_trip(Resp::Array(args), max);
}

/// A write whose effect on the keyspace is a function of the keyspace and the request.
pub open spec fn replicated_write(req: Request) -> bool {
    req is SetKey || req is Incr || req is ListPush || req is XAdd
}

/// Replication convergence: a replica whose keyspace equals the master's and that
/// applies the same sequence of replicated writes at the same times (as it does when it
/// replays the propagated bytes, see `lemma_replication_convergence`) ends with the same
/// keyspace as the master, write by write.
pub proof fn lemma_stores_converge(
    master: Seq<ServerContext>,
    replica: Seq<ServerContext>,
    reqs: Seq<Request>,
    nows: Seq<nat>,
    outs_m: Seq<Outcome>,
    outs_r: Seq<Outcome>,
)
    requires
        master.len() == reqs.len() + 1,
        replica.len() == reqs.len() + 1,
        nows.len() == reqs.len(),
        outs_m.len() == reqs.len(),
        outs_r.len() == reqs.len(),
        master[0].store@ == replica[0].store@,
        forall|i: int| 0 <= i < reqs.len() ==> replicated_write(#[trigger] reqs[i]),
        forall|i: int| 0 <= i < reqs.len() ==> executes(#[trigger] master[i], reqs[i], nows[i], master[i + 1], outs_m[i]),
        forall|i: int| 0 <= i < reqs.len() ==> executes(#[trigger] replica[i], reqs[i], nows[i], replica[i + 1], outs_r[i]),
    ensures
        forall|i: int| 0 <= i <= reqs.len() ==> #[trigger] master[i].store@ == replica[i].store@,
    decreases reqs.len(),
{
    if reqs.len() > 0 {
        let n = reqs.len() - 1;
        lemma_stores_converge(master.drop_last(), replica.drop_last(), reqs.drop_last(), nows.drop_last(), outs_m.drop_last(), outs_r.drop_last());
        assert(master.drop_last()[n] == master[n]);
        assert(replica.drop_last()[n] == replica[n]);
        assert(master[n].store@ == replica[n].store@);
        assert(replicated_write(reqs[n]));
        assert(executes(master[n], reqs[n], nows[n], master[n + 1], outs_m[n]));
        assert(executes(replica[n], reqs[n], nows[n], replica[n + 1], outs_r[n]));
        match reqs[n] {
            Request::ListPush { key, values, is_left, raw } => {
                let m = master[n].store@;
                if live_value(m, key, nows[n]) is Some && !(live_value(m, key, nows[n])->0 is List) {
                    assert(master[n + 1].store@ == m);
                    assert(replica[n + 1].store@ == m);
                }
            },
            _ => {},
        }
        assert(master[n + 1].store@ == replica[n + 1].store@);
        assert forall|i: int| 0 <= i <= reqs.len() implies #[trigger] master[i].store@ == replica[i].store@ by {
            if i < reqs.len() {
                assert(master.drop_last()[i] == master[i]);
                assert(replica.drop_last()[i] == replica[i]);
            }
        }
    }
}

} // verus!
