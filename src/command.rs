use vstd::prelude::*;
use crate::common::{bulk_payloads, byte_views, copy_bytes};
use crate::keywords as kw;
use crate::number::{int_within, parse_i64, parse_isize, parse_timeout_ms, parse_uint, seconds_ms, uint_within};
use crate::protocol::{Data, Resp, encode, encode_items, lemma_views, views};

verus! {

/// A parsed client request.
#[allow(inconsistent_fields)]
pub enum Command {
    Ping,
    Echo(Vec<u8>),
    Get(Vec<u8>),
    SetKey { key: Vec<u8>, value: Vec<u8>, expiry: Option<u64>, raw_command: Vec<u8> },
    ConfigGet(Vec<u8>),
    Keys(Vec<u8>),
    Info,
    Psync(Vec<u8>, Vec<u8>),
    Replconf,
    ReplconfGetAck(Vec<u8>),
    ReplconfAck(usize),
    Wait { num_replicas: i64, timeout: u64 },
    Type(Vec<u8>),
    XAdd { key: Vec<u8>, id: Vec<u8>, entry: (Vec<u8>, Vec<u8>), raw_command: Vec<u8> },
    XRange { key: Vec<u8>, start: Vec<u8>, end: Vec<u8> },
    XRead { streams: Vec<(Vec<u8>, Vec<u8>)>, block: Option<u64> },
    Incr { key: Vec<u8>, raw_command: Vec<u8> },
    Multi,
    Exec,
    Discard,
    ListPush { key: Vec<u8>, values: Vec<Vec<u8>>, is_left: bool, raw_command: Vec<u8> },
    LRange { key: Vec<u8>, start: isize, end: isize },
    LLen(Vec<u8>),
    LPop(Vec<u8>, usize),
    BLPop(Vec<Vec<u8>>, Option<u64>),
    Subscribe(Vec<u8>),
    ZAdd { key: Vec<u8>, score: i64, member: Vec<u8>, raw_command: Vec<u8> },
    ZRank(Vec<u8>, Vec<u8>),
    ZRange { key: Vec<u8>, start: isize, end: isize },
    ZScore(Vec<u8>, Vec<u8>),
    ZCard(Vec<u8>),
    ZRem { key: Vec<u8>, member: Vec<u8>, raw_command: Vec<u8> },
    /// A numeric argument that does not parse.
    NotInteger,
    /// An unknown command or a known one with the wrong arguments; holds the name.
    Invalid(Vec<u8>),
}

/// Mathematical model of a `Command`.
#[allow(inconsistent_fields)]
pub enum Request {
    Ping,
    Echo(Seq<u8>),
    Get(Seq<u8>),
    SetKey { key: Seq<u8>, value: Seq<u8>, expiry: Option<nat>, raw: Seq<u8> },
    ConfigGet(Seq<u8>),
    Keys(Seq<u8>),
    Info,
    Psync(Seq<u8>, Seq<u8>),
    Replconf,
    ReplconfGetAck(Seq<u8>),
    ReplconfAck(nat),
    Wait { num_replicas: int, timeout: nat },
    Type(Seq<u8>),
    XAdd { key: Seq<u8>, id: Seq<u8>, field: Seq<u8>, value: Seq<u8>, raw: Seq<u8> },
    XRange { key: Seq<u8>, start: Seq<u8>, end: Seq<u8> },
    XRead { streams: Seq<(Seq<u8>, Seq<u8>)>, block: Option<nat> },
    Incr { key: Seq<u8>, raw: Seq<u8> },
    Multi,
    Exec,
    Discard,
    ListPush { key: Seq<u8>, values: Seq<Seq<u8>>, is_left: bool, raw: Seq<u8> },
    LRange { key: Seq<u8>, start: int, end: int },
    LLen(Seq<u8>),
    LPop(Seq<u8>, nat),
    BLPop(Seq<Seq<u8>>, Option<nat>),
    Subscribe(Seq<u8>),
    ZAdd { key: Seq<u8>, score: int, member: Seq<u8>, raw: Seq<u8> },
    ZRank(Seq<u8>, Seq<u8>),
    ZRange { key: Seq<u8>, start: int, end: int },
    ZScore(Seq<u8>, Seq<u8>),
    ZCard(Seq<u8>),
    ZRem { key: Seq<u8>, member: Seq<u8>, raw: Seq<u8> },
    NotInteger,
    Invalid(Seq<u8>),
}

pub open spec fn opt_nat(o: Option<u64>) -> Option<nat> {
    match o {
        Some(n) => Some(n as nat),
        None => None,
    }
}

pub open spec fn pair_views(v: Seq<(Vec<u8>, Vec<u8>)>) -> Seq<(Seq<u8>, Seq<u8>)> {
    v.map_values(|p: (Vec<u8>, Vec<u8>)| (p.0@, p.1@))
}

impl Command {
    pub open spec fn view(&self) -> Request {
        match self {
            Command::Ping => Request::Ping,
            Command::Echo(v) => Request::Echo(v@),
            Command::Get(k) => Request::Get(k@),
            Command::SetKey { key, value, expiry, raw_command } => Request::SetKey {
                key: key@,
                value: value@,
                expiry: opt_nat(*expiry),
                raw: raw_command@,
            },
            Command::ConfigGet(k) => Request::ConfigGet(k@),
            Command::Keys(p) => Request::Keys(p@),
            Command::Info => Request::Info,
            Command::Psync(a, b) => Request::Psync(a@, b@),
            Command::Replconf => Request::Replconf,
            Command::ReplconfGetAck(a) => Request::ReplconfGetAck(a@),
            Command::ReplconfAck(n) => Request::ReplconfAck(*n as nat),
            Command::Wait { num_replicas, timeout } => Request::Wait {
                num_replicas: *num_replicas as int,
                timeout: *timeout as nat,
            },
            Command::Type(k) => Request::Type(k@),
            Command::XAdd { key, id, entry, raw_command } => Request::XAdd {
                key: key@,
                id: id@,
                field: entry.0@,
                value: entry.1@,
                raw: raw_command@,
            },
            Command::XRange { key, start, end } => Request::XRange {
                key: key@,
                start: start@,
                end: end@,
            },
            Command::XRead { streams, block } => Request::XRead {
                streams: pair_views(streams@),
                block: opt_nat(*block),
            },
            Command::Incr { key, raw_command } => Request::Incr { key: key@, raw: raw_command@ },
            Command::Multi => Request::Multi,
            Command::Exec => Request::Exec,
            Command::Discard => Request::Discard,
            Command::ListPush { key, values, is_left, raw_command } => Request::ListPush {
                key: key@,
                values: byte_views(values@),
                is_left: *is_left,
                raw: raw_command@,
            },
            Command::LRange { key, start, end } => Request::LRange {
                key: key@,
                start: *start as int,
                end: *end as int,
            },
            Command::LLen(k) => Request::LLen(k@),
            Command::LPop(k, c) => Request::LPop(k@, *c as nat),
            Command::BLPop(keys, t) => Request::BLPop(byte_views(keys@), opt_nat(*t)),
            Command::Subscribe(c) => Request::Subscribe(c@),
            Command::ZAdd { key, score, member, raw_command } => Request::ZAdd {
                key: key@,
                score: *score as int,
                member: member@,
                raw: raw_command@,
            },
            Command::ZRank(k, m) => Request::ZRank(k@, m@),
            Command::ZRange { key, start, end } => Request::ZRange {
                key: key@,
                start: *start as int,
                end: *end as int,
            },
            Command::ZScore(k, m) => Request::ZScore(k@, m@),
            Command::ZCard(k) => Request::ZCard(k@),
            Command::ZRem { key, member, raw_command } => Request::ZRem {
                key: key@,
                member: member@,
                raw: raw_command@,
            },
            Command::NotInteger => Request::NotInteger,
            Command::Invalid(n) => Request::Invalid(n@),
        }
    }
}

/// ASCII upper case of a byte.
pub open spec fn upper(c: u8) -> u8 {
    if 97 <= c <= 122 {
        (c - 32) as u8
    } else {
        c
    }
}

/// `a` equals the upper-case word `w` up to ASCII case.
pub open spec fn same_word(a: Seq<u8>, w: Seq<u8>) -> bool {
    a.len() == w.len() && forall|i: int| 0 <= i < a.len() ==> upper(#[trigger] a[i]) == w[i]
}

/// Compares `a` with the upper-case word `w`, ignoring ASCII case in `a`.
pub fn is_word(a: &[u8], w: &[u8]) -> (r: bool)
    ensures
        r == same_word(a@, w@),
{
    if a.len() != w.len() {
        return false;
    }
    let mut i: usize = 0;
    while i < a.len()
        invariant
            a@.len() == w@.len(),
            i <= a@.len(),
            forall|j: int| 0 <= j < i ==> upper(#[trigger] a@[j]) == w@[j],
        decreases a@.len() - i,
    {
        let c = a[i];
        let u = if 97 <= c && c <= 122 {
            c - 32
        } else {
            c
        };
        if u != w[i] {
            return false;
        }
        i = i + 1;
    }
    true
}

pub open spec fn is_bulk(args: Seq<Resp>, i: int) -> bool {
    0 <= i < args.len() && args[i] is Bulk
}

pub open spec fn arg(args: Seq<Resp>, i: int) -> Seq<u8> {
    args[i]->Bulk_0
}

/// The (key, id) pairs of `XREAD`: the first half of `rest` holds keys, the second ids;
/// a pair is kept when both are bulk strings.
pub open spec fn bulk_pairs(l: Seq<Resp>, r: Seq<Resp>) -> Seq<(Seq<u8>, Seq<u8>)>
    decreases l.len(),
{
    if l.len() == 0 || r.len() == 0 {
        seq![]
    } else {
        let rest = bulk_pairs(l.drop_last(), r.drop_last());
        if l.last() is Bulk && r.last() is Bulk {
            rest.push((l.last()->Bulk_0, r.last()->Bulk_0))
        } else {
            rest
        }
    }
}

pub open spec fn xread_block(args: Seq<Resp>) -> Option<nat> {
    if is_bulk(args, 1) && is_bulk(args, 2) && same_word(arg(args, 1), kw::kw_block()) {
        uint_within(arg(args, 2), u64::MAX as int)
    } else {
        None
    }
}

pub open spec fn xread_of(args: Seq<Resp>) -> Request {
    let block = xread_block(args);
    let start: int = if block is Some { 4 } else { 2 };
    let rest = if start <= args.len() { args.skip(start) } else { seq![] };
    let half = rest.len() as int / 2;
    Request::XRead {
        streams: bulk_pairs(rest.take(half), rest.subrange(half, 2 * half)),
        block,
    }
}

/// Largest timeout in milliseconds that `BLPOP` accepts.
pub open spec fn max_timeout_ms() -> nat {
    18446744073709550999
}

pub open spec fn timeout_within(s: Seq<u8>) -> Option<nat> {
    match seconds_ms(s) {
        Some(n) => if n <= max_timeout_ms() {
            Some(n)
        } else {
            None
        },
        None => None,
    }
}

pub open spec fn single_arg_word(name: Seq<u8>) -> bool {
    same_word(name, kw::kw_echo()) || same_word(name, kw::kw_get()) || same_word(name, kw::kw_keys())
        || same_word(name, kw::kw_type()) || same_word(name, kw::kw_llen()) || same_word(
        name,
        kw::kw_subscribe(),
    ) || same_word(name, kw::kw_zcard()) || same_word(name, kw::kw_incr())
}

/// Commands that take exactly one argument.
pub open spec fn single_arg_of(args: Seq<Resp>, name: Seq<u8>) -> Request {
    if args.len() != 2 || !is_bulk(args, 1) {
        Request::Invalid(name)
    } else {
        let a = arg(args, 1);
        if same_word(name, kw::kw_echo()) {
            Request::Echo(a)
        } else if same_word(name, kw::kw_get()) {
            Request::Get(a)
        } else if same_word(name, kw::kw_keys()) {
            Request::Keys(a)
        } else if same_word(name, kw::kw_type()) {
            Request::Type(a)
        } else if same_word(name, kw::kw_llen()) {
            Request::LLen(a)
        } else if same_word(name, kw::kw_subscribe()) {
            Request::Subscribe(a)
        } else if same_word(name, kw::kw_zcard()) {
            Request::ZCard(a)
        } else {
            Request::Incr { key: a, raw: encode(Resp::Array(args)) }
        }
    }
}

/// `SET key value [PX ms]`.
pub open spec fn set_of(args: Seq<Resp>, name: Seq<u8>) -> Request {
    let n = args.len();
    let raw = encode(Resp::Array(args));
    if n == 5 && is_bulk(args, 1) && is_bulk(args, 2) && is_bulk(args, 3) && is_bulk(args, 4)
        && same_word(arg(args, 3), kw::kw_px()) {
        match uint_within(arg(args, 4), u64::MAX as int) {
            Some(ms) => Request::SetKey {
                key: arg(args, 1),
                value: arg(args, 2),
                expiry: Some(ms),
                raw,
            },
            None => Request::NotInteger,
        }
    } else if n == 3 && is_bulk(args, 1) && is_bulk(args, 2) {
        Request::SetKey { key: arg(args, 1), value: arg(args, 2), expiry: None, raw }
    } else {
        Request::Invalid(name)
    }
}

pub open spec fn admin_word(name: Seq<u8>) -> bool {
    same_word(name, kw::kw_config()) || same_word(name, kw::kw_info()) || same_word(name, kw::kw_psync())
        || same_word(name, kw::kw_wait())
}

/// `CONFIG GET key`, `INFO replication`, `PSYNC id offset` and `WAIT count timeout`.
pub open spec fn admin_of(args: Seq<Resp>, name: Seq<u8>) -> Request {
    let n = args.len();
    if same_word(name, kw::kw_config()) {
        if n == 3 && is_bulk(args, 1) && is_bulk(args, 2) && same_word(arg(args, 1), kw::kw_get()) {
            Request::ConfigGet(arg(args, 2))
        } else {
            Request::Invalid(name)
        }
    } else if same_word(name, kw::kw_info()) {
        if n == 2 && is_bulk(args, 1) && same_word(arg(args, 1), kw::kw_replication()) {
            Request::Info
        } else {
            Request::Invalid(name)
        }
    } else if same_word(name, kw::kw_psync()) {
        if n == 3 && is_bulk(args, 1) && is_bulk(args, 2) {
            Request::Psync(arg(args, 1), arg(args, 2))
        } else {
            Request::Invalid(name)
        }
    } else {
        if n == 3 && is_bulk(args, 1) && is_bulk(args, 2) {
            match (
                int_within(arg(args, 1), i64::MIN as int, i64::MAX as int),
                uint_within(arg(args, 2), u64::MAX as int),
            ) {
                (Some(k), Some(t)) => Request::Wait { num_replicas: k, timeout: t },
                _ => Request::NotInteger,
            }
        } else {
            Request::Invalid(name)
        }
    }
}

/// `REPLCONF GETACK *`, `REPLCONF ACK offset`, and any other `REPLCONF`.
pub open spec fn replconf_of(args: Seq<Resp>) -> Request {
    if args.len() >= 3 && is_bulk(args, 1) && is_bulk(args, 2) && same_word(arg(args, 1), kw::kw_getack())
        && arg(args, 2) == seq![42u8] {
        Request::ReplconfGetAck(arg(args, 2))
    } else if args.len() >= 3 && is_bulk(args, 1) && is_bulk(args, 2) && same_word(
        arg(args, 1),
        kw::kw_ack(),
    ) && uint_within(arg(args, 2), usize::MAX as int) is Some {
        Request::ReplconfAck(uint_within(arg(args, 2), usize::MAX as int)->0)
    } else {
        Request::Replconf
    }
}

/// `XADD key id field value` and `XRANGE key start end`.
pub open spec fn stream_cmd_of(args: Seq<Resp>, name: Seq<u8>) -> Request {
    let n = args.len();
    if same_word(name, kw::kw_xadd()) {
        if n == 5 && is_bulk(args, 1) && is_bulk(args, 2) && is_bulk(args, 3) && is_bulk(args, 4) {
            Request::XAdd {
                key: arg(args, 1),
                id: arg(args, 2),
                field: arg(args, 3),
                value: arg(args, 4),
                raw: encode(Resp::Array(args)),
            }
        } else {
            Request::Invalid(name)
        }
    } else {
        if n == 4 && is_bulk(args, 1) && is_bulk(args, 2) && is_bulk(args, 3) {
            Request::XRange { key: arg(args, 1), start: arg(args, 2), end: arg(args, 3) }
        } else {
            Request::Invalid(name)
        }
    }
}

/// List and sorted-set commands; anything else is unknown.
pub open spec fn collection_of(args: Seq<Resp>, name: Seq<u8>) -> Request {
    let n = args.len();
    let raw = encode(Resp::Array(args));
    if same_word(name, kw::kw_rpush()) || same_word(name, kw::kw_lpush()) {
        if n >= 2 && is_bulk(args, 1) {
            Request::ListPush {
                key: arg(args, 1),
                values: bulk_payloads(args.skip(2)),
                is_left: same_word(name, kw::kw_lpush()),
                raw,
            }
        } else {
            Request::Invalid(name)
        }
    } else if same_word(name, kw::kw_lrange()) || same_word(name, kw::kw_zrange()) {
        if n == 4 && is_bulk(args, 1) && is_bulk(args, 2) && is_bulk(args, 3) {
            match (
                int_within(arg(args, 2), isize::MIN as int, isize::MAX as int),
                int_within(arg(args, 3), isize::MIN as int, isize::MAX as int),
            ) {
                (Some(s), Some(e)) => if same_word(name, kw::kw_lrange()) {
                    Request::LRange { key: arg(args, 1), start: s, end: e }
                } else {
                    Request::ZRange { key: arg(args, 1), start: s, end: e }
                },
                _ => Request::NotInteger,
            }
        } else {
            Request::Invalid(name)
        }
    } else if same_word(name, kw::kw_lpop()) {
        if n == 2 && is_bulk(args, 1) {
            Request::LPop(arg(args, 1), 1)
        } else if n == 3 && is_bulk(args, 1) && is_bulk(args, 2) {
            match uint_within(arg(args, 2), usize::MAX as int) {
                Some(c) => Request::LPop(arg(args, 1), c),
                None => Request::NotInteger,
            }
        } else {
            Request::Invalid(name)
        }
    } else if same_word(name, kw::kw_blpop()) {
        if n >= 3 && is_bulk(args, n - 1) {
            match timeout_within(arg(args, n - 1)) {
                Some(ms) => Request::BLPop(bulk_payloads(args.subrange(1, n - 1)), Some(ms)),
                None => Request::NotInteger,
            }
        } else {
            Request::Invalid(name)
        }
    } else if same_word(name, kw::kw_zadd()) {
        if n == 4 && is_bulk(args, 1) && is_bulk(args, 2) && is_bulk(args, 3) {
            match int_within(arg(args, 2), i64::MIN as int, i64::MAX as int) {
                Some(sc) => Request::ZAdd { key: arg(args, 1), score: sc, member: arg(args, 3), raw },
                None => Request::NotInteger,
            }
        } else {
            Request::Invalid(name)
        }
    } else if same_word(name, kw::kw_zrank()) || same_word(name, kw::kw_zscore()) || same_word(
        name,
        kw::kw_zrem(),
    ) {
        if n == 3 && is_bulk(args, 1) && is_bulk(args, 2) {
            if same_word(name, kw::kw_zrank()) {
                Request::ZRank(arg(args, 1), arg(args, 2))
            } else if same_word(name, kw::kw_zscore()) {
                Request::ZScore(arg(args, 1), arg(args, 2))
            } else {
                Request::ZRem { key: arg(args, 1), member: arg(args, 2), raw }
            }
        } else {
            Request::Invalid(name)
        }
    } else {
        Request::Invalid(name)
    }
}

/// The request that the items of a RESP array denote. Command names are matched
/// without regard to ASCII case.
pub open spec fn request_of(args: Seq<Resp>) -> Request {
    if args.len() == 0 || !(args[0] is Bulk) {
        Request::Invalid(seq![])
    } else {
        let name = arg(args, 0);
        if same_word(name, kw::kw_ping()) {
            if args.len() == 1 {
                Request::Ping
            } else {
                Request::Invalid(name)
            }
        } else if single_arg_word(name) {
            single_arg_of(args, name)
        } else if same_word(name, kw::kw_set()) {
            set_of(args, name)
        } else if admin_word(name) {
            admin_of(args, name)
        } else if same_word(name, kw::kw_replconf()) {
            replconf_of(args)
        } else if same_word(name, kw::kw_xadd()) || same_word(name, kw::kw_xrange()) {
            stream_cmd_of(args, name)
        } else if same_word(name, kw::kw_xread()) {
            xread_of(args)
        } else if same_word(name, kw::kw_multi()) {
            Request::Multi
        } else if same_word(name, kw::kw_exec()) {
            Request::Exec
        } else if same_word(name, kw::kw_discard()) {
            Request::Discard
        } else {
            collection_of(args, name)
        }
    }
}

/// The payload of `val[i]` when it is a bulk string.
pub fn bulk_arg(val: &[Data], i: usize) -> (r: Option<Vec<u8>>)
    requires
        i < val@.len(),
    ensures
        r matches Some(b) ==> val@[i as int]@ == Resp::Bulk(b@),
        r is None ==> !(val@[i as int]@ is Bulk),
{
    match &val[i] {
        Data::BStr(b) => Some(copy_bytes(b)),
        _ => None,
    }
}

fn bulk_items(val: &[Data], from: usize, to: usize) -> (r: Vec<Vec<u8>>)
    requires
        from <= to <= val@.len(),
    ensures
        byte_views(r@) == bulk_payloads(views(val@).subrange(from as int, to as int)),
{
    proof {
        lemma_views(val@);
    }
    let mut out: Vec<Vec<u8>> = Vec::new();
    let mut i: usize = from;
    while i < to
        invariant
            from <= i <= to <= val@.len(),
            views(val@).len() == val@.len(),
            forall|j: int| 0 <= j < val@.len() ==> #[trigger] views(val@)[j] == val@[j]@,
            byte_views(out@) == bulk_payloads(views(val@).subrange(from as int, i as int)),
        decreases to - i,
    {
        let ghost before = out@;
        proof {
            let sub = views(val@).subrange(from as int, i + 1);
            assert(sub.drop_last() =~= views(val@).subrange(from as int, i as int));
            assert(sub.last() == val@[i as int]@);
        }
        match bulk_arg(val, i) {
            Some(b) => {
                out.push(b);
                assert(byte_views(out@) =~= byte_views(before).push(out@[out@.len() - 1]@));
            },
            None => {},
        }
        i = i + 1;
    }
    out
}

fn xread_pairs(val: &[Data], start: usize, half: usize) -> (r: Vec<(Vec<u8>, Vec<u8>)>)
    requires
        start + 2 * half <= val@.len(),
    ensures
        pair_views(r@) == bulk_pairs(
            views(val@).subrange(start as int, start + half),
            views(val@).subrange(start + half, start + 2 * half),
        ),
{
    proof {
        lemma_views(val@);
    }
    let len = val.len();
    let mut out: Vec<(Vec<u8>, Vec<u8>)> = Vec::new();
    let mut i: usize = 0;
    while i < half
        invariant
            len == val@.len(),
            start + 2 * half <= val@.len(),
            i <= half,
            views(val@).len() == val@.len(),
            forall|j: int| 0 <= j < val@.len() ==> #[trigger] views(val@)[j] == val@[j]@,
            pair_views(out@) == bulk_pairs(
                views(val@).subrange(start as int, start + i),
                views(val@).subrange(start + half, start + half + i),
            ),
        decreases half - i,
    {
        let ghost before = out@;
        proof {
            let l = views(val@).subrange(start as int, start + i + 1);
            let r = views(val@).subrange(start + half, start + half + i + 1);
            assert(l.drop_last() =~= views(val@).subrange(start as int, start + i));
            assert(r.drop_last() =~= views(val@).subrange(start + half, start + half + i));
            assert(l.last() == val@[start + i]@);
            assert(r.last() == val@[start + half + i]@);
        }
        match (bulk_arg(val, start + i), bulk_arg(val, start + half + i)) {
            (Some(k), Some(id)) => {
                out.push((k, id));
                assert(pair_views(out@) =~= pair_views(before).push(
                    (out@[out@.len() - 1].0@, out@[out@.len() - 1].1@),
                ));
            },
            _ => {},
        }
        i = i + 1;
    }
    out
}

fn parse_xread(val: &[Data]) -> (r: Command)
    ensures
        r@ == xread_of(views(val@)),
{
    proof {
        lemma_views(val@);
    }
    let n = val.len();
    let mut block: Option<u64> = None;
    if n >= 3 {
        match (bulk_arg(val, 1), bulk_arg(val, 2)) {
            (Some(a), Some(ms)) => {
                if is_word(a.as_slice(), kw::word_block().as_slice()) {
                    block = parse_uint(ms.as_slice(), u64::MAX);
                }
            },
            _ => {},
        }
    }
    assert(opt_nat(block) == xread_block(views(val@)));
    let start: usize = if block.is_some() {
        4
    } else {
        2
    };
    let (rest_start, rest_len) = if start <= n {
        (start, n - start)
    } else {
        (n, 0)
    };
    let half = rest_len / 2;
    let streams = xread_pairs(val, rest_start, half);
    proof {
        let args = views(val@);
        let rest = if start <= args.len() {
            args.skip(start as int)
        } else {
            seq![]
        };
        assert(rest.take(half as int) =~= args.subrange(rest_start as int, rest_start + half));
        assert(rest.subrange(half as int, 2 * half) =~= args.subrange(
            rest_start + half,
            rest_start + 2 * half,
        ));
    }
    Command::XRead { streams, block }
}

fn invalid(name: Vec<u8>) -> (r: Command)
    ensures
        r@ == Request::Invalid(name@),
{
    Command::Invalid(name)
}

impl Command {
    /// Parses the items of a RESP array into a command.
    pub fn from_args(val: &[Data]) -> (r: Command)
        ensures
            r@ == request_of(views(val@)),
    {
        proof {
            lemma_views(val@);
        }
        let n = val.len();
        if n == 0 {
            return Command::Invalid(Vec::new());
        }
        let name = match bulk_arg(val, 0) {
            Some(b) => b,
            None => {
                return Command::Invalid(Vec::new());
            },
        };
        let nm = name.as_slice();
        if is_word(nm, kw::word_ping().as_slice()) {
            return if n == 1 {
                Command::Ping
            } else {
                invalid(name)
            };
        }
        if is_word(nm, kw::word_echo().as_slice()) || is_word(nm, kw::word_get().as_slice())
            || is_word(nm, kw::word_keys().as_slice()) || is_word(nm, kw::word_type().as_slice())
            || is_word(nm, kw::word_llen().as_slice()) || is_word(
            nm,
            kw::word_subscribe().as_slice(),
        ) || is_word(nm, kw::word_zcard().as_slice()) || is_word(nm, kw::word_incr().as_slice()) {
            return parse_single_arg(val, name);
        }
        if is_word(nm, kw::word_set().as_slice()) {
            return parse_set(val, name);
        }
        if is_word(nm, kw::word_config().as_slice()) || is_word(nm, kw::word_info().as_slice())
            || is_word(nm, kw::word_psync().as_slice()) || is_word(nm, kw::word_wait().as_slice()) {
            return parse_admin(val, name);
        }
        if is_word(nm, kw::word_replconf().as_slice()) {
            return parse_replconf(val);
        }
        if is_word(nm, kw::word_xadd().as_slice()) || is_word(nm, kw::word_xrange().as_slice()) {
            return parse_stream_cmd(val, name);
        }
        if is_word(nm, kw::word_xread().as_slice()) {
            return parse_xread(val);
        }
        if is_word(nm, kw::word_multi().as_slice()) {
            return Command::Multi;
        }
        if is_word(nm, kw::word_exec().as_slice()) {
            return Command::Exec;
        }
        if is_word(nm, kw::word_discard().as_slice()) {
            return Command::Discard;
        }
        parse_collection(val, name)
    }

    /// Commands that may wait for data: `BLPOP`, and `XREAD` with `BLOCK`.
    pub fn is_blocking(&self) -> (r: bool)
        ensures
            r == (self@ is BLPop || self@ matches Request::XRead { block: Some(_), .. }),
    {
        match self {
            Command::BLPop(_, _) => true,
            Command::XRead { block: Some(_), .. } => true,
            _ => false,
        }
    }

    /// Parses a decoded RESP value; anything but an array is an invalid command.
    pub fn from_data(val: &Data) -> (r: Command)
        ensures
            val@ is Array ==> r@ == request_of(val@->Array_0),
            !(val@ is Array) ==> r@ == Request::Invalid(seq![]),
    {
        match val {
            Data::Array(a) => Self::from_args(a.0.as_slice()),
            _ => Command::Invalid(Vec::new()),
        }
    }
}

fn parse_single_arg(val: &[Data], name: Vec<u8>) -> (r: Command)
    requires
        val@.len() >= 1,
        val@[0]@ == Resp::Bulk(name@),
    ensures
        r@ == single_arg_of(views(val@), name@),
{
    proof {
        lemma_views(val@);
    }
    if val.len() != 2 {
        return invalid(name);
    }
    let a = match bulk_arg(val, 1) {
        Some(a) => a,
        None => {
            return invalid(name);
        },
    };
    let nm = name.as_slice();
    if is_word(nm, kw::word_echo().as_slice()) {
        Command::Echo(a)
    } else if is_word(nm, kw::word_get().as_slice()) {
        Command::Get(a)
    } else if is_word(nm, kw::word_keys().as_slice()) {
        Command::Keys(a)
    } else if is_word(nm, kw::word_type().as_slice()) {
        Command::Type(a)
    } else if is_word(nm, kw::word_llen().as_slice()) {
        Command::LLen(a)
    } else if is_word(nm, kw::word_subscribe().as_slice()) {
        Command::Subscribe(a)
    } else if is_word(nm, kw::word_zcard().as_slice()) {
        Command::ZCard(a)
    } else {
        Command::Incr { key: a, raw_command: encode_items(val) }
    }
}

fn parse_set(val: &[Data], name: Vec<u8>) -> (r: Command)
    requires
        val@.len() >= 1,
        val@[0]@ == Resp::Bulk(name@),
    ensures
        r@ == set_of(views(val@), name@),
{
    proof {
        lemma_views(val@);
    }
    let n = val.len();
    if n == 5 {
        match (bulk_arg(val, 1), bulk_arg(val, 2), bulk_arg(val, 3), bulk_arg(val, 4)) {
            (Some(k), Some(v), Some(p), Some(ms)) => {
                if is_word(p.as_slice(), kw::word_px().as_slice()) {
                    return match parse_uint(ms.as_slice(), u64::MAX) {
                        Some(x) => Command::SetKey {
                            key: k,
                            value: v,
                            expiry: Some(x),
                            raw_command: encode_items(val),
                        },
                        None => Command::NotInteger,
                    };
                }
            },
            _ => {},
        }
    }
    if n == 3 {
        match (bulk_arg(val, 1), bulk_arg(val, 2)) {
            (Some(k), Some(v)) => {
                return Command::SetKey {
                    key: k,
                    value: v,
                    expiry: None,
                    raw_command: encode_items(val),
                };
            },
            _ => {},
        }
    }
    invalid(name)
}

fn parse_admin(val: &[Data], name: Vec<u8>) -> (r: Command)
    requires
        val@.len() >= 1,
        val@[0]@ == Resp::Bulk(name@),
    ensures
        r@ == admin_of(views(val@), name@),
{
    proof {
        lemma_views(val@);
    }
    let n = val.len();
    let nm = name.as_slice();
    if is_word(nm, kw::word_config().as_slice()) {
        if n == 3 {
            match (bulk_arg(val, 1), bulk_arg(val, 2)) {
                (Some(a), Some(k)) => {
                    if is_word(a.as_slice(), kw::word_get().as_slice()) {
                        return Command::ConfigGet(k);
                    }
                },
                _ => {},
            }
        }
        return invalid(name);
    }
    if is_word(nm, kw::word_info().as_slice()) {
        if n == 2 {
            match bulk_arg(val, 1) {
                Some(a) => {
                    if is_word(a.as_slice(), kw::word_replication().as_slice()) {
                        return Command::Info;
                    }
                },
                _ => {},
            }
        }
        return invalid(name);
    }
    if n != 3 {
        return invalid(name);
    }
    match (bulk_arg(val, 1), bulk_arg(val, 2)) {
        (Some(a), Some(b)) => {
            if is_word(nm, kw::word_psync().as_slice()) {
                Command::Psync(a, b)
            } else {
                match (parse_i64(a.as_slice()), parse_uint(b.as_slice(), u64::MAX)) {
                    (Some(k), Some(t)) => Command::Wait { num_replicas: k, timeout: t },
                    _ => Command::NotInteger,
                }
            }
        },
        _ => invalid(name),
    }
}

fn parse_replconf(val: &[Data]) -> (r: Command)
    requires
        val@.len() >= 1,
    ensures
        r@ == replconf_of(views(val@)),
{
    proof {
        lemma_views(val@);
    }
    if val.len() >= 3 {
        match (bulk_arg(val, 1), bulk_arg(val, 2)) {
            (Some(a), Some(b)) => {
                if is_word(a.as_slice(), kw::word_getack().as_slice()) && b.len() == 1 && b[0] == 42 {
                    assert(b@ =~= seq![42u8]);
                    return Command::ReplconfGetAck(b);
                }
                proof {
                    if b@ == seq![42u8] {
                        assert(b@.len() == 1 && b@[0] == 42);
                    }
                }
                if is_word(a.as_slice(), kw::word_ack().as_slice()) {
                    match parse_uint(b.as_slice(), usize::MAX as u64) {
                        Some(off) => {
                            return Command::ReplconfAck(off as usize);
                        },
                        None => {},
                    }
                }
            },
            _ => {},
        }
    }
    Command::Replconf
}

fn parse_stream_cmd(val: &[Data], name: Vec<u8>) -> (r: Command)
    requires
        val@.len() >= 1,
        val@[0]@ == Resp::Bulk(name@),
    ensures
        r@ == stream_cmd_of(views(val@), name@),
{
    proof {
        lemma_views(val@);
    }
    let n = val.len();
    if is_word(name.as_slice(), kw::word_xadd().as_slice()) {
        if n == 5 {
            match (bulk_arg(val, 1), bulk_arg(val, 2), bulk_arg(val, 3), bulk_arg(val, 4)) {
                (Some(k), Some(id), Some(f), Some(v)) => {
                    return Command::XAdd {
                        key: k,
                        id,
                        entry: (f, v),
                        raw_command: encode_items(val),
                    };
                },
                _ => {},
            }
        }
        return invalid(name);
    }
    if n == 4 {
        match (bulk_arg(val, 1), bulk_arg(val, 2), bulk_arg(val, 3)) {
            (Some(k), Some(s), Some(e)) => {
                return Command::XRange { key: k, start: s, end: e };
            },
            _ => {},
        }
    }
    invalid(name)
}

#[verifier::rlimit(60)]
fn parse_collection(val: &[Data], name: Vec<u8>) -> (r: Command)
    requires
        val@.len() >= 1,
        val@[0]@ == Resp::Bulk(name@),
    ensures
        r@ == collection_of(views(val@), name@),
{
    proof {
        lemma_views(val@);
    }
    let n = val.len();
    let nm = name.as_slice();
    if is_word(nm, kw::word_rpush().as_slice()) || is_word(nm, kw::word_lpush().as_slice()) {
        if n >= 2 {
            match bulk_arg(val, 1) {
                Some(k) => {
                    let values = bulk_items(val, 2, n);
                    proof {
                        assert(views(val@).subrange(2, n as int) =~= views(val@).skip(2));
                    }
                    return Command::ListPush {
                        key: k,
                        values,
                        is_left: is_word(nm, kw::word_lpush().as_slice()),
                        raw_command: encode_items(val),
                    };
                },
                None => {},
            }
        }
        return invalid(name);
    }
    if is_word(nm, kw::word_lrange().as_slice()) || is_word(nm, kw::word_zrange().as_slice()) {
        if n == 4 {
            match (bulk_arg(val, 1), bulk_arg(val, 2), bulk_arg(val, 3)) {
                (Some(k), Some(a), Some(b)) => {
                    return match (parse_isize(a.as_slice()), parse_isize(b.as_slice())) {
                        (Some(s), Some(e)) => if is_word(nm, kw::word_lrange().as_slice()) {
                            Command::LRange { key: k, start: s, end: e }
                        } else {
                            Command::ZRange { key: k, start: s, end: e }
                        },
                        _ => Command::NotInteger,
                    };
                },
                _ => {},
            }
        }
        return invalid(name);
    }
    if is_word(nm, kw::word_lpop().as_slice()) {
        if n == 2 {
            match bulk_arg(val, 1) {
                Some(k) => {
                    return Command::LPop(k, 1);
                },
                None => {},
            }
        } else if n == 3 {
            match (bulk_arg(val, 1), bulk_arg(val, 2)) {
                (Some(k), Some(c)) => {
                    return match parse_uint(c.as_slice(), usize::MAX as u64) {
                        Some(c) => Command::LPop(k, c as usize),
                        None => Command::NotInteger,
                    };
                },
                _ => {},
            }
        }
        return invalid(name);
    }
    if is_word(nm, kw::word_blpop().as_slice()) {
        if n >= 3 {
            match bulk_arg(val, n - 1) {
                Some(t) => {
                    return match parse_timeout_ms(t.as_slice()) {
                        Some(ms) => Command::BLPop(bulk_items(val, 1, n - 1), Some(ms)),
                        None => Command::NotInteger,
                    };
                },
                None => {},
            }
        }
        return invalid(name);
    }
    if is_word(nm, kw::word_zadd().as_slice()) {
        if n == 4 {
            match (bulk_arg(val, 1), bulk_arg(val, 2), bulk_arg(val, 3)) {
                (Some(k), Some(sc), Some(m)) => {
                    return match parse_i64(sc.as_slice()) {
                        Some(score) => Command::ZAdd {
                            key: k,
                            score,
                            member: m,
                            raw_command: encode_items(val),
                        },
                        None => Command::NotInteger,
                    };
                },
                _ => {},
            }
        }
        return invalid(name);
    }
    if is_word(nm, kw::word_zrank().as_slice()) || is_word(nm, kw::word_zscore().as_slice())
        || is_word(nm, kw::word_zrem().as_slice()) {
        if n == 3 {
            match (bulk_arg(val, 1), bulk_arg(val, 2)) {
                (Some(k), Some(m)) => {
                    return if is_word(nm, kw::word_zrank().as_slice()) {
                        Command::ZRank(k, m)
                    } else if is_word(nm, kw::word_zscore().as_slice()) {
                        Command::ZScore(k, m)
                    } else {
                        Command::ZRem { key: k, member: m, raw_command: encode_items(val) }
                    };
                },
                _ => {},
            }
        }
        return invalid(name);
    }
    invalid(name)
}

} // verus!
