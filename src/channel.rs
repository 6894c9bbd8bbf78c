use vstd::prelude::*;
use crate::command::{is_word, is_bulk, arg, same_word};
use crate::common::{bulk_payloads, byte_views, copy_bytes, parse_string_args};
use crate::keywords as kw;
use crate::protocol::{Data, Resp, lemma_views, views};
use crate::response::{bulks, encode_array_of_bstrings};
use crate::store::bytes_eq;

verus! {

/// A request on a connection in subscribed mode.
pub enum ChannelCommand {
    Subscribe(Vec<u8>),
    Unsubscribe(Vec<Vec<u8>>),
    Ping,
    Publish(Vec<u8>, Vec<u8>),
    Invalid(Vec<u8>),
}

pub enum ChannelRequest {
    Subscribe(Seq<u8>),
    Unsubscribe(Seq<Seq<u8>>),
    Ping,
    Publish(Seq<u8>, Seq<u8>),
    Invalid(Seq<u8>),
}

impl ChannelCommand {
    pub open spec fn view(&self) -> ChannelRequest {
        match self {
            ChannelCommand::Subscribe(c) => ChannelRequest::Subscribe(c@),
            ChannelCommand::Unsubscribe(cs) => ChannelRequest::Unsubscribe(byte_views(cs@)),
            ChannelCommand::Ping => ChannelRequest::Ping,
            ChannelCommand::Publish(c, m) => ChannelRequest::Publish(c@, m@),
            ChannelCommand::Invalid(n) => ChannelRequest::Invalid(n@),
        }
    }
}

/// The request the items of a RESP array denote in subscribed mode.
pub open spec fn channel_request_of(args: Seq<Resp>) -> ChannelRequest {
    if args.len() == 0 || !(args[0] is Bulk) {
        ChannelRequest::Invalid(seq![])
    } else {
        let name = arg(args, 0);
        if same_word(name, kw::kw_subscribe()) && args.len() == 2 && is_bulk(args, 1) {
            ChannelRequest::Subscribe(arg(args, 1))
        } else if same_word(name, kw::kw_unsubscribe()) {
            ChannelRequest::Unsubscribe(bulk_payloads(args.skip(1)))
        } else if same_word(name, kw::kw_ping()) && args.len() == 1 {
            ChannelRequest::Ping
        } else if same_word(name, kw::kw_publish()) && args.len() == 3 && is_bulk(args, 1) && is_bulk(args, 2) {
            ChannelRequest::Publish(arg(args, 1), arg(args, 2))
        } else {
            ChannelRequest::Invalid(name)
        }
    }
}

impl ChannelCommand {
    /// Parses the items of a RESP array in subscribed mode.
    pub fn from_args(val: &[Data]) -> (r: ChannelCommand)
        ensures
            r@ == channel_request_of(views(val@)),
    {
        proof {
            lemma_views(val@);
        }
        let n = val.len();
        if n == 0 {
            return ChannelCommand::Invalid(Vec::new());
        }
        let name = match crate::command::bulk_arg(val, 0) {
            Some(b) => b,
            None => {
                return ChannelCommand::Invalid(Vec::new());
            },
        };
        if is_word(name.as_slice(), kw::word_subscribe().as_slice()) && n == 2 {
            match crate::command::bulk_arg(val, 1) {
                Some(c) => {
                    return ChannelCommand::Subscribe(c);
                },
                None => {},
            }
        }
        if is_word(name.as_slice(), kw::word_unsubscribe().as_slice()) {
            let rest = slice_from(val, 1);
            let channels = parse_string_args(rest.as_slice());
            proof {
                assert(views(rest@) =~= views(val@).skip(1)) by {
                    lemma_views(rest@);
                }
            }
            return ChannelCommand::Unsubscribe(channels);
        }
        if is_word(name.as_slice(), kw::word_ping().as_slice()) && n == 1 {
            return ChannelCommand::Ping;
        }
        if is_word(name.as_slice(), kw::word_publish().as_slice()) && n == 3 {
            match (crate::command::bulk_arg(val, 1), crate::command::bulk_arg(val, 2)) {
                (Some(c), Some(m)) => {
                    return ChannelCommand::Publish(c, m);
                },
                _ => {},
            }
        }
        ChannelCommand::Invalid(name)
    }
}

fn copy_data(d: &Data) -> (r: Data)
    ensures
        r@ == d@,
    decreases crate::protocol::encode(d@).len(),
{
    match d {
        Data::BStr(b) => Data::BStr(copy_bytes(b)),
        Data::SStr(b) => Data::SStr(copy_bytes(b)),
        Data::SimpleError(b) => Data::SimpleError(copy_bytes(b)),
        Data::Int(i) => Data::Int(*i),
        Data::Array(a) => {
            let mut items: Vec<Data> = Vec::new();
            let mut i: usize = 0;
            proof {
                lemma_views(a.0@);
            }
            while i < a.0.len()
                invariant
                    i <= a.0@.len(),
                    d@ == Resp::Array(views(a.0@)),
                    views(a.0@).len() == a.0@.len(),
                    forall|j: int| 0 <= j < a.0@.len() ==> #[trigger] views(a.0@)[j] == a.0@[j]@,
                    items@.len() == i,
                    forall|j: int| 0 <= j < i ==> #[trigger] items@[j]@ == a.0@[j]@,
                decreases a.0@.len() - i,
            {
                proof {
                    crate::protocol::lemma_encode_all_len(views(a.0@), i as int);
                    assert(crate::protocol::encode(d@) == seq![42u8] + crate::protocol::decimal(views(a.0@).len())
                        + crate::protocol::crlf() + crate::protocol::encode_all(views(a.0@)));
                }
                items.push(copy_data(&a.0[i]));
                i = i + 1;
            }
            proof {
                lemma_views(items@);
                assert(views(items@) =~= views(a.0@));
            }
            Data::Array(crate::protocol::RedisArray(items))
        },
    }
}

fn slice_from(val: &[Data], start: usize) -> (r: Vec<Data>)
    requires
        start <= val@.len(),
    ensures
        r@.len() == val@.len() - start,
        forall|j: int| 0 <= j < r@.len() ==> #[trigger] r@[j]@ == val@[start + j]@,
{
    let mut out: Vec<Data> = Vec::new();
    let mut i: usize = start;
    while i < val.len()
        invariant
            start <= i <= val@.len(),
            out@.len() == i - start,
            forall|j: int| 0 <= j < out@.len() ==> #[trigger] out@[j]@ == val@[start + j]@,
        decreases val@.len() - i,
    {
        out.push(copy_data(&val[i]));
        i = i + 1;
    }
    out
}

/// One subscriber: its ID and the channels it listens on.
pub struct Subscriber {
    pub id: u64,
    pub channels: Vec<Vec<u8>>,
}

/// Channel subscriptions of all connections in subscribed mode.
pub struct ChannelManager {
    subscribers: Vec<Subscriber>,
}

pub open spec fn sub_view(s: Subscriber) -> (u64, Seq<Seq<u8>>) {
    (s.id, byte_views(s.channels@))
}

impl ChannelManager {
    pub closed spec fn view(&self) -> Seq<(u64, Seq<Seq<u8>>)> {
        self.subscribers@.map_values(|s: Subscriber| sub_view(s))
    }

    pub fn new() -> (r: Self)
        ensures
            r@.len() == 0,
    {
        let r = ChannelManager { subscribers: Vec::new() };
        assert(r@ =~= seq![]);
        r
    }

    /// Registers the subscriber `id` with no channels.
    pub fn init(&mut self, id: u64)
        ensures
            final(self)@ == old(self)@.push((id, seq![])),
    {
        let s = Subscriber { id, channels: Vec::new() };
        self.subscribers.push(s);
        assert(byte_views(s.channels@) =~= seq![]);
        assert(self@ =~= old(self)@.push((id, seq![])));
    }

    fn position(&self, id: u64) -> (r: Option<usize>)
        ensures
            r matches Some(i) ==> i < self@.len() && self@[i as int].0 == id,
            r is None ==> forall|i: int| 0 <= i < self@.len() ==> self@[i].0 != id,
    {
        let mut i: usize = 0;
        while i < self.subscribers.len()
            invariant
                i <= self@.len(),
                self@.len() == self.subscribers@.len(),
                forall|j: int| 0 <= j < i ==> self@[j].0 != id,
            decreases self.subscribers@.len() - i,
        {
            if self.subscribers[i].id == id {
                return Some(i);
            }
            i = i + 1;
        }
        None
    }

    /// Adds `channel` to the subscriptions of `id`; returns how many it now has, or
    /// `None` when `id` is not registered.
    pub fn subscribe(&mut self, id: u64, channel: Vec<u8>) -> (r: Option<usize>)
        ensures
            r is None <==> forall|i: int| 0 <= i < old(self)@.len() ==> old(self)@[i].0 != id,
            r is None ==> final(self)@ == old(self)@,
            r matches Some(n) ==> exists|i: int|
                0 <= i < old(self)@.len() && old(self)@[i].0 == id && final(self)@[i].1.contains(channel@)
                    && n == final(self)@[i].1.len() && (forall|c: Seq<u8>|
                    final(self)@[i].1.contains(c) <==> (old(self)@[i].1.contains(c) || c == channel@)),
    {
        match self.position(id) {
            Some(i) => {
                let mut chans: Vec<Vec<u8>> = Vec::new();
                let mut k: usize = 0;
                let mut present = false;
                while k < self.subscribers[i].channels.len()
                    invariant
                        i < self.subscribers@.len(),
                        self@ == old(self)@,
                        k <= self.subscribers@[i as int].channels@.len(),
                        byte_views(chans@) == byte_views(self.subscribers@[i as int].channels@).take(k as int),
                        present == byte_views(self.subscribers@[i as int].channels@).take(k as int).contains(channel@),
                    decreases self.subscribers@[i as int].channels@.len() - k,
                {
                    let c = copy_bytes(&self.subscribers[i].channels[k]);
                    let same = bytes_eq(c.as_slice(), channel.as_slice());
                    let ghost before = byte_views(chans@);
                    chans.push(c);
                    proof {
                        let all = byte_views(self.subscribers@[i as int].channels@);
                        assert(all.take(k + 1) =~= all.take(k as int).push(all[k as int]));
                        assert(byte_views(chans@) =~= before.push(all[k as int]));
                        let t1 = all.take(k + 1);
                        let t0 = all.take(k as int);
                        if t1.contains(channel@) && !t0.contains(channel@) {
                            let j = choose|j: int| 0 <= j < t1.len() && #[trigger] t1[j] == channel@;
                            if j < k {
                                assert(t0[j] == channel@);
                            }
                        }
                        if t0.contains(channel@) {
                            let j = choose|j: int| 0 <= j < t0.len() && #[trigger] t0[j] == channel@;
                            assert(t1[j] == channel@);
                        }
                        if same {
                            assert(t1[k as int] == channel@);
                        }
                    }
                    present = present || same;
                    k = k + 1;
                }
                let ghost all = byte_views(self.subscribers@[i as int].channels@);
                assert(all.take(k as int) =~= all);
                if !present {
                    let ghost before = byte_views(chans@);
                    chans.push(channel);
                    assert(byte_views(chans@) =~= before.push(chans@[chans@.len() - 1]@));
                }
                let n = chans.len();
                let ghost nv = byte_views(chans@);
                self.subscribers.set(i, Subscriber { id, channels: chans });
                proof {
                    assert(self@[i as int] == (id, nv));
                    assert forall|c: Seq<u8>| nv.contains(c) <==> (all.contains(c) || c == channel@) by {
                        if !present {
                            if nv.contains(c) {
                                let j = choose|j: int| 0 <= j < nv.len() && nv[j] == c;
                                if j < all.len() {
                                    assert(all[j] == c);
                                }
                            }
                            if all.contains(c) {
                                let j = choose|j: int| 0 <= j < all.len() && all[j] == c;
                                assert(nv[j] == c);
                            }
                            if c == channel@ {
                                assert(nv[nv.len() - 1] == c);
                            }
                        }
                    }
                    assert(nv.contains(channel@));
                }
                Some(n)
            },
            None => None,
        }
    }

    /// Drops the subscriptions of `id` to `channels` (to all of them when `channels` is
    /// empty); returns how many it still has, or `None` when `id` is not registered.
    pub fn unsubscribe(&mut self, id: u64, channels: &Vec<Vec<u8>>) -> (r: Option<usize>)
        ensures
            r is None <==> forall|i: int| 0 <= i < old(self)@.len() ==> old(self)@[i].0 != id,
            r is None ==> final(self)@ == old(self)@,
            r matches Some(n) ==> exists|i: int|
                0 <= i < old(self)@.len() && old(self)@[i].0 == id && final(self)@.len() == old(self)@.len()
                    && final(self)@[i] == (id, remaining(old(self)@[i].1, byte_views(channels@)))
                    && n == final(self)@[i].1.len(),
    {
        match self.position(id) {
            Some(i) => {
                let mut kept: Vec<Vec<u8>> = Vec::new();
                if channels.len() > 0 {
                    let mut k: usize = 0;
                    while k < self.subscribers[i].channels.len()
                        invariant
                            i < self.subscribers@.len(),
                            self@ == old(self)@,
                            channels@.len() > 0,
                            k <= self.subscribers@[i as int].channels@.len(),
                            byte_views(kept@) == keep_unlisted(byte_views(self.subscribers@[i as int].channels@).take(k as int), byte_views(channels@)),
                        decreases self.subscribers@[i as int].channels@.len() - k,
                    {
                        let c = copy_bytes(&self.subscribers[i].channels[k]);
                        let drop = crate::waiters::contains_bytes(channels, c.as_slice());
                        let ghost before = byte_views(kept@);
                        let ghost all = byte_views(self.subscribers@[i as int].channels@);
                        assert(all.take(k + 1).drop_last() =~= all.take(k as int));
                        assert(all.take(k + 1).last() == c@);
                        if !drop {
                            kept.push(c);
                            assert(byte_views(kept@) =~= before.push(c@));
                        }
                        k = k + 1;
                    }
                    let ghost all = byte_views(self.subscribers@[i as int].channels@);
                    assert(all.take(k as int) =~= all);
                } else {
                    assert(byte_views(kept@) =~= seq![]);
                }
                let n = kept.len();
                let ghost nv = byte_views(kept@);
                self.subscribers.set(i, Subscriber { id, channels: kept });
                assert(self@[i as int] == (id, nv));
                Some(n)
            },
            None => None,
        }
    }

    /// Removes the subscriber `id`.
    pub fn quit(&mut self, id: u64)
        ensures
            forall|i: int| 0 <= i < final(self)@.len() ==> final(self)@[i].0 != id || !old(self)@.contains(final(self)@[i]),
            final(self)@.len() <= old(self)@.len(),
    {
        let mut i: usize = 0;
        while i < self.subscribers.len()
            invariant
                i <= self.subscribers@.len(),
                self@.len() <= old(self)@.len(),
                forall|j: int| 0 <= j < i ==> self@[j].0 != id,
            decreases self.subscribers@.len() - i,
        {
            if self.subscribers[i].id == id {
                let ghost before = self@;
                self.subscribers.remove(i);
                assert(self@ =~= before.remove(i as int));
            } else {
                i = i + 1;
            }
        }
    }

    /// The subscribers of `channel`, in registration order.
    pub fn publish(&self, channel: &[u8]) -> (r: Vec<u64>)
        ensures
            r@ == recipients(self@, channel@),
    {
        let mut out: Vec<u64> = Vec::new();
        let mut i: usize = 0;
        while i < self.subscribers.len()
            invariant
                i <= self@.len(),
                self@.len() == self.subscribers@.len(),
                out@ == recipients(self@.take(i as int), channel@),
            decreases self.subscribers@.len() - i,
        {
            assert(self@.take(i + 1).drop_last() =~= self@.take(i as int));
            assert(self@[i as int] == sub_view(self.subscribers@[i as int]));
            if crate::waiters::contains_bytes(&self.subscribers[i].channels, channel) {
                out.push(self.subscribers[i].id);
            }
            i = i + 1;
        }
        assert(self@.take(i as int) =~= self@);
        out
    }
}

/// The channels of `chans` not listed in `drop`, in order.
pub open spec fn keep_unlisted(chans: Seq<Seq<u8>>, drop: Seq<Seq<u8>>) -> Seq<Seq<u8>>
    decreases chans.len(),
{
    if chans.len() == 0 {
        seq![]
    } else if drop.contains(chans.last()) {
        keep_unlisted(chans.drop_last(), drop)
    } else {
        keep_unlisted(chans.drop_last(), drop).push(chans.last())
    }
}

/// The channels left after unsubscribing from `drop` (from all when it is empty).
pub open spec fn remaining(chans: Seq<Seq<u8>>, drop: Seq<Seq<u8>>) -> Seq<Seq<u8>> {
    if drop.len() == 0 {
        seq![]
    } else {
        keep_unlisted(chans, drop)
    }
}

/// IDs of the subscribers of `channel` among `subs`, in order.
pub open spec fn recipients(subs: Seq<(u64, Seq<Seq<u8>>)>, channel: Seq<u8>) -> Seq<u64>
    decreases subs.len(),
{
    if subs.len() == 0 {
        seq![]
    } else {
        let rest = recipients(subs.drop_last(), channel);
        if subs.last().1.contains(channel) {
            rest.push(subs.last().0)
        } else {
            rest
        }
    }
}

/// The frame delivered to subscribers: `["message", channel, message]`.
pub fn get_message(channel: &[u8], message: &[u8]) -> (r: Vec<u8>)
    ensures
        r@ == crate::protocol::encode(Resp::Array(bulks(seq![seq![109u8, 101, 115, 115, 97, 103, 101], channel@, message@]))),
{
    let word = vec![109u8, 101, 115, 115, 97, 103, 101];
    let ch = crate::common::copy_slice(channel, 0, channel.len());
    let msg = crate::common::copy_slice(message, 0, message.len());
    assert(word@ =~= seq![109u8, 101, 115, 115, 97, 103, 101]);
    assert(ch@ =~= channel@);
    assert(msg@ =~= message@);
    let items = vec![word, ch, msg];
    assert(byte_views(items@) =~= seq![seq![109u8, 101, 115, 115, 97, 103, 101], channel@, message@]);
    encode_array_of_bstrings(items.as_slice())
}

/// `[kind, channel, :n]`, the reply to `SUBSCRIBE` and `UNSUBSCRIBE`.
pub open spec fn count_reply(kind: Seq<u8>, channel: Seq<u8>, n: int) -> Seq<u8> {
    crate::protocol::encode(Resp::Array(seq![Resp::Bulk(kind), Resp::Bulk(channel), Resp::Integer(n)]))
}

pub open spec fn clamp_count(n: nat) -> int {
    if n > i64::MAX {
        i64::MAX as int
    } else {
        n as int
    }
}

/// `m1` is `m0` after subscriber `id` subscribed to `ch`, and `n` is how many channels it
/// now has (0, with nothing changed, when `id` is not registered).
pub open spec fn subscribed(m0: Seq<(u64, Seq<Seq<u8>>)>, m1: Seq<(u64, Seq<Seq<u8>>)>, id: u64, ch: Seq<u8>, n: int) -> bool {
    ||| (forall|i: int| 0 <= i < m0.len() ==> m0[i].0 != id) && m1 == m0 && n == 0
    ||| exists|i: int|
        0 <= i < m0.len() && m0[i].0 == id && m1[i].1.contains(ch) && n == clamp_count(m1[i].1.len()) && (forall|c: Seq<u8>|
            m1[i].1.contains(c) <==> (m0[i].1.contains(c) || c == ch))
}

/// `m1` is `m0` after subscriber `id` dropped the channels `chs` (all when empty), and `n`
/// is how many it still has (0, with nothing changed, when `id` is not registered).
pub open spec fn unsubscribed(m0: Seq<(u64, Seq<Seq<u8>>)>, m1: Seq<(u64, Seq<Seq<u8>>)>, id: u64, chs: Seq<Seq<u8>>, n: int) -> bool {
    ||| (forall|i: int| 0 <= i < m0.len() ==> m0[i].0 != id) && m1 == m0 && n == 0
    ||| exists|i: int|
        0 <= i < m0.len() && m0[i].0 == id && m1.len() == m0.len() && m1[i] == (id, remaining(m0[i].1, chs)) && n
            == clamp_count(m1[i].1.len())
}

/// The reply to `PUBLISH`: the number of subscribers the message reached.
pub fn publish_reply(delivered: usize) -> (r: Vec<u8>)
    ensures
        r@ == crate::protocol::encode(Resp::Integer(clamp_count(delivered as nat))),
{
    let n: i64 = if (delivered as u64) > 9223372036854775807u64 {
        i64::MAX
    } else {
        delivered as i64
    };
    crate::common::encode_int(n)
}

/// What a command in subscribed mode produces: the reply, and for `PUBLISH` the frame
/// to deliver and the subscribers to deliver it to.
pub struct ChannelReply {
    pub reply: Vec<u8>,
    /// The subscription count a `SUBSCRIBE` or `UNSUBSCRIBE` reply reports.
    pub count: i64,
    pub recipients: Vec<u64>,
    pub message: Option<Vec<u8>>,
}

/// The subscribed mode of one connection.
pub struct SubscriptionContext {
    pub subscription_id: u64,
}

fn reply_array(kind: Vec<u8>, channel: Vec<u8>, count: i64) -> (r: Vec<u8>)
    ensures
        r@ == crate::protocol::encode(Resp::Array(seq![Resp::Bulk(kind@), Resp::Bulk(channel@), Resp::Integer(count as int)])),
{
    let ghost k = kind@;
    let ghost c = channel@;
    let items = vec![Data::BStr(kind), Data::BStr(channel), Data::Int(count)];
    let d = Data::Array(crate::protocol::RedisArray(items));
    proof {
        lemma_views(items@);
        assert(views(items@) =~= seq![Resp::Bulk(k), Resp::Bulk(c), Resp::Integer(count as int)]);
    }
    d.encode()
}

impl SubscriptionContext {
    /// Registers the connection `id` as a subscriber.
    pub fn new(manager: &mut ChannelManager, id: u64) -> (r: Self)
        ensures
            r.subscription_id == id,
            final(manager)@ == old(manager)@.push((id, seq![])),
    {
        manager.init(id);
        SubscriptionContext { subscription_id: id }
    }

    /// Handles one command in subscribed mode.
    pub fn process_command(&self, manager: &mut ChannelManager, command: ChannelCommand) -> (r: ChannelReply)
        ensures
            command@ matches ChannelRequest::Publish(ch, _) ==> r.recipients@ == recipients(old(manager)@, ch)
                && final(manager)@ == old(manager)@,
            command@ matches ChannelRequest::Publish(ch, msg) ==> r.message matches Some(m) && m@
                == crate::protocol::encode(Resp::Array(bulks(seq![seq![109u8, 101, 115, 115, 97, 103, 101], ch, msg]))),
            !(command@ is Publish) ==> r.recipients@.len() == 0 && r.message is None,
            command@ is Ping ==> r.reply@ == crate::protocol::encode(Resp::Array(bulks(seq![seq![112u8, 111, 110, 103], seq![]]))),
            command@ matches ChannelRequest::Publish(_, _) ==> r.reply@.len() == 0,
            command@ matches ChannelRequest::Subscribe(ch) ==> count_reply(
                seq![115u8, 117, 98, 115, 99, 114, 105, 98, 101],
                ch,
                r.count as int,
            ) == r.reply@ && subscribed(old(manager)@, final(manager)@, self.subscription_id, ch, r.count as int),
            command@ matches ChannelRequest::Unsubscribe(chs) ==> count_reply(
                seq![117u8, 110, 115, 117, 98, 115, 99, 114, 105, 98, 101],
                if chs.len() > 0 {
                    chs[0]
                } else {
                    seq![]
                },
                r.count as int,
            ) == r.reply@ && unsubscribed(old(manager)@, final(manager)@, self.subscription_id, chs, r.count as int),
    {
        match command {
            ChannelCommand::Subscribe(ch) => {
                let c2 = copy_bytes(&ch);
                let ghost m0 = manager@;
                let res = manager.subscribe(self.subscription_id, ch);
                let n = match res {
                    Some(n) => n,
                    None => 0,
                };
                let count: i64 = if (n as u64) > 9223372036854775807u64 { 9223372036854775807 } else { n as i64 };
                proof {
                    assert(subscribed(m0, manager@, self.subscription_id, c2@, count as int));
                }
                let kind = vec![115u8, 117, 98, 115, 99, 114, 105, 98, 101];
                assert(kind@ =~= seq![115u8, 117, 98, 115, 99, 114, 105, 98, 101]);
                let ghost cv = c2@;
                let reply = reply_array(kind, c2, count);
                assert(count_reply(seq![115u8, 117, 98, 115, 99, 114, 105, 98, 101], cv, count as int) == reply@);
                ChannelReply {
                    reply,
                    count,
                    recipients: Vec::new(),
                    message: None,
                }
            },
            ChannelCommand::Unsubscribe(chs) => {
                let first = if chs.len() > 0 {
                    copy_bytes(&chs[0])
                } else {
                    Vec::new()
                };
                let ghost m0 = manager@;
                let res = manager.unsubscribe(self.subscription_id, &chs);
                let n = match res {
                    Some(n) => n,
                    None => 0,
                };
                let count: i64 = if (n as u64) > 9223372036854775807u64 { 9223372036854775807 } else { n as i64 };
                proof {
                    assert(unsubscribed(m0, manager@, self.subscription_id, byte_views(chs@), count as int));
                    if chs@.len() > 0 {
                        assert(byte_views(chs@)[0] == chs@[0]@);
                    } else {
                        assert(first@ =~= seq![]);
                    }
                }
                let kind = vec![117u8, 110, 115, 117, 98, 115, 99, 114, 105, 98, 101];
                assert(kind@ =~= seq![117u8, 110, 115, 117, 98, 115, 99, 114, 105, 98, 101]);
                let ghost fv = first@;
                let reply = reply_array(kind, first, count);
                assert(count_reply(seq![117u8, 110, 115, 117, 98, 115, 99, 114, 105, 98, 101], fv, count as int) == reply@);
                ChannelReply {
                    reply,
                    count,
                    recipients: Vec::new(),
                    message: None,
                }
            },
            ChannelCommand::Ping => {
                let items = vec![vec![112u8, 111, 110, 103], Vec::new()];
                assert(byte_views(items@) =~= seq![seq![112u8, 111, 110, 103], seq![]]);
                ChannelReply {
                    reply: encode_array_of_bstrings(items.as_slice()),
                    count: 0,
                    recipients: Vec::new(),
                    message: None,
                }
            },
            ChannelCommand::Publish(ch, msg) => {
                let ids = manager.publish(ch.as_slice());
                ChannelReply {
                    reply: Vec::new(),
                    count: 0,
                    recipients: ids,
                    message: Some(get_message(ch.as_slice(), msg.as_slice())),
                }
            },
            ChannelCommand::Invalid(name) => {
                let mut text = vec![67u8, 97, 110, 39, 116, 32, 101, 120, 101, 99, 117, 116, 101, 32, 39];
                crate::common::push_all(&mut text, name.as_slice());
                text.push(39u8);
                ChannelReply {
                    reply: crate::common::encode_error(text.as_slice()),
                    count: 0,
                    recipients: Vec::new(),
                    message: None,
                }
            },
        }
    }
}

} // verus!
