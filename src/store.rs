use vstd::prelude::*;
use crate::common::{byte_views, copy_bytes, decimal_bytes, range_indices};
use crate::number::{int_within, parse_i64};
use crate::protocol::signed_decimal;
use crate::sorted_set::{SortedSet, ZSetView, wf_zset, zrange};
use crate::stream::{StreamEntry, StreamError, StreamId, StreamView, copy_entry, entries_in_range, entry_view, get_stream_id, id_lt, id_of, id_spec_of, in_range, parse_bound, parse_stream_id, resolve_id, stream_views, top_id, bound_of, wf_stream};

verus! {

/// A stored value.
pub enum Value {
    Str(Vec<u8>),
    List(Vec<Vec<u8>>),
    Stream(Vec<StreamEntry>),
    SortedSet(SortedSet),
}

/// Mathematical model of a stored value.
pub enum ValueView {
    Str(Seq<u8>),
    List(Seq<Seq<u8>>),
    Stream(StreamView),
    SortedSet(ZSetView),
}

impl Value {
    pub open spec fn view(&self) -> ValueView {
        match self {
            Value::Str(s) => ValueView::Str(s@),
            Value::List(l) => ValueView::List(byte_views(l@)),
            Value::Stream(s) => ValueView::Stream(stream_views(s@)),
            Value::SortedSet(z) => ValueView::SortedSet(z@),
        }
    }

    /// Containers are never empty, and sorted sets keep their order.
    pub open spec fn wf(&self) -> bool {
        match self {
            Value::Str(_) => true,
            Value::List(l) => l@.len() > 0,
            Value::Stream(s) => crate::stream::wf_stream(stream_views(s@)) && s@.len() > 0,
            Value::SortedSet(z) => z.wf() && z@.len() > 0,
        }
    }
}

/// A value with its absolute expiry time in milliseconds since the Unix epoch.
pub struct ValueWrapper {
    pub value: Value,
    pub expiry: Option<u64>,
}

/// What a key holds: its value and its expiry time.
pub type Slot = (ValueView, Option<nat>);

pub struct Entry {
    pub key: Vec<u8>,
    pub item: ValueWrapper,
}

pub open spec fn opt_u64(o: Option<u64>) -> Option<nat> {
    match o {
        Some(n) => Some(n as nat),
        None => None,
    }
}

pub open spec fn slot_of(e: Entry) -> Slot {
    (e.item.value@, opt_u64(e.item.expiry))
}

/// The keyspace that a list of entries holds.
pub open spec fn model_of(s: Seq<Entry>) -> Map<Seq<u8>, Slot>
    decreases s.len(),
{
    if s.len() == 0 {
        Map::empty()
    } else {
        model_of(s.drop_last()).insert(s.last().key@, slot_of(s.last()))
    }
}

pub open spec fn unique_keys(s: Seq<Entry>) -> bool {
    forall|i: int, j: int| 0 <= i < j < s.len() ==> s[i].key@ != s[j].key@
}

/// A slot is alive at time `now` when it has no expiry or the expiry lies ahead.
pub open spec fn alive(slot: Slot, now: nat) -> bool {
    match slot.1 {
        Some(t) => now < t,
        None => true,
    }
}

/// The keyspace after the lazy expiry of `key` at time `now`.
pub open spec fn purge(m: Map<Seq<u8>, Slot>, key: Seq<u8>, now: nat) -> Map<Seq<u8>, Slot> {
    if m.contains_key(key) && !alive(m[key], now) {
        m.remove(key)
    } else {
        m
    }
}

/// The live value of `key` at time `now`.
pub open spec fn live_value(m: Map<Seq<u8>, Slot>, key: Seq<u8>, now: nat) -> Option<ValueView> {
    if m.contains_key(key) && alive(m[key], now) {
        Some(m[key].0)
    } else {
        None
    }
}

proof fn lemma_model_absent(s: Seq<Entry>, k: Seq<u8>)
    requires
        forall|i: int| 0 <= i < s.len() ==> s[i].key@ != k,
    ensures
        !model_of(s).contains_key(k),
    decreases s.len(),
{
    if s.len() > 0 {
        lemma_model_absent(s.drop_last(), k);
    }
}

proof fn lemma_model_at(s: Seq<Entry>, i: int)
    requires
        unique_keys(s),
        0 <= i < s.len(),
    ensures
        model_of(s).contains_key(s[i].key@),
        model_of(s)[s[i].key@] == slot_of(s[i]),
    decreases s.len(),
{
    if i < s.len() - 1 {
        lemma_model_at(s.drop_last(), i);
    }
}

proof fn lemma_model_dom(s: Seq<Entry>, k: Seq<u8>)
    ensures
        model_of(s).contains_key(k) <==> exists|i: int| 0 <= i < s.len() && s[i].key@ == k,
    decreases s.len(),
{
    if s.len() > 0 {
        lemma_model_dom(s.drop_last(), k);
        if model_of(s.drop_last()).contains_key(k) {
            let i = choose|i: int| 0 <= i < s.len() - 1 && s.drop_last()[i].key@ == k;
            assert(s[i].key@ == k);
        }
        if exists|i: int| 0 <= i < s.len() && s[i].key@ == k {
            let i = choose|i: int| 0 <= i < s.len() && s[i].key@ == k;
            if i < s.len() - 1 {
                assert(s.drop_last()[i].key@ == k);
            }
        }
    }
}

proof fn lemma_model_update(s: Seq<Entry>, i: int, e: Entry)
    requires
        unique_keys(s),
        0 <= i < s.len(),
        e.key@ == s[i].key@,
    ensures
        model_of(s.update(i, e)) == model_of(s).insert(e.key@, slot_of(e)),
        unique_keys(s.update(i, e)),
    decreases s.len(),
{
    let t = s.update(i, e);
    if i == s.len() - 1 {
        assert(t.drop_last() =~= s.drop_last());
        let k = e.key@;
        lemma_model_absent(s.drop_last(), k);
        assert(model_of(t) =~= model_of(s).insert(k, slot_of(e)));
    } else {
        lemma_model_update(s.drop_last(), i, e);
        assert(t.drop_last() =~= s.drop_last().update(i, e));
        assert(s.last().key@ != e.key@);
        assert(model_of(t) =~= model_of(s).insert(e.key@, slot_of(e)));
    }
}

proof fn lemma_model_push(s: Seq<Entry>, e: Entry)
    requires
        unique_keys(s),
        !model_of(s).contains_key(e.key@),
    ensures
        model_of(s.push(e)) == model_of(s).insert(e.key@, slot_of(e)),
        unique_keys(s.push(e)),
{
    assert(s.push(e).drop_last() =~= s);
    lemma_model_dom(s, e.key@);
}

proof fn lemma_model_remove(s: Seq<Entry>, i: int)
    requires
        unique_keys(s),
        0 <= i < s.len(),
    ensures
        model_of(s.remove(i)) == model_of(s).remove(s[i].key@),
        unique_keys(s.remove(i)),
    decreases s.len(),
{
    let t = s.remove(i);
    let k = s[i].key@;
    if i == s.len() - 1 {
        assert(t =~= s.drop_last());
        lemma_model_absent(s.drop_last(), k);
        assert(model_of(t) =~= model_of(s).remove(k));
    } else {
        lemma_model_remove(s.drop_last(), i);
        assert(t.drop_last() =~= s.drop_last().remove(i));
        assert(t.last() == s.last());
        assert(model_of(t) =~= model_of(s).remove(k));
    }
}

/// Errors of typed keyspace operations.
#[derive(Debug, PartialEq, Eq, Structural)]
pub enum StoreError {
    /// The key holds a value of another type.
    WrongType,
    /// The stored string is not a 64-bit integer, or the result overflows.
    NotInteger,
}

/// The in-memory keyspace.
pub struct InMemoryStore {
    entries: Vec<Entry>,
}

pub fn bytes_eq(a: &[u8], b: &[u8]) -> (r: bool)
    ensures
        r == (a@ == b@),
{
    if a.len() != b.len() {
        return false;
    }
    let mut i: usize = 0;
    while i < a.len()
        invariant
            a@.len() == b@.len(),
            i <= a@.len(),
            forall|j: int| 0 <= j < i ==> a@[j] == b@[j],
        decreases a@.len() - i,
    {
        if a[i] != b[i] {
            return false;
        }
        i = i + 1;
    }
    assert(a@ =~= b@);
    true
}

impl InMemoryStore {
    pub closed spec fn view(&self) -> Map<Seq<u8>, Slot> {
        model_of(self.entries@)
    }

    pub closed spec fn wf(&self) -> bool {
        &&& unique_keys(self.entries@)
        &&& forall|i: int| 0 <= i < self.entries@.len() ==> (#[trigger] self.entries@[i]).item.value.wf()
    }

    /// Every stored value is well formed (see `Value::wf`).
    pub proof fn lemma_values_wf(&self, key: Seq<u8>)
        requires
            self.wf(),
            self@.contains_key(key),
        ensures
            match self@[key].0 {
                ValueView::List(l) => l.len() > 0,
                ValueView::Stream(s) => crate::stream::wf_stream(s) && s.len() > 0,
                ValueView::SortedSet(z) => crate::sorted_set::wf_zset(z) && z.len() > 0,
                _ => true,
            },
    {
        lemma_model_dom(self.entries@, key);
        let i = choose|i: int| 0 <= i < self.entries@.len() && self.entries@[i].key@ == key;
        lemma_model_at(self.entries@, i);
        assert(self.entries@[i].item.value.wf());
    }

    /// An empty keyspace.
    pub fn new() -> (r: Self)
        ensures
            r.wf(),
            r@ == Map::<Seq<u8>, Slot>::empty(),
    {
        let r = InMemoryStore { entries: Vec::new() };
        assert(r@ =~= Map::<Seq<u8>, Slot>::empty());
        r
    }

    fn find(&self, key: &[u8]) -> (r: Option<usize>)
        requires
            self.wf(),
        ensures
            r matches Some(i) ==> i < self.entries@.len() && self.entries@[i as int].key@ == key@
                && self@.contains_key(key@) && self@[key@] == slot_of(self.entries@[i as int]),
            r is None ==> !self@.contains_key(key@),
    {
        let mut i: usize = 0;
        while i < self.entries.len()
            invariant
                self.wf(),
                i <= self.entries@.len(),
                forall|j: int| 0 <= j < i ==> self.entries@[j].key@ != key@,
            decreases self.entries@.len() - i,
        {
            if bytes_eq(self.entries[i].key.as_slice(), key) {
                proof {
                    lemma_model_at(self.entries@, i as int);
                }
                return Some(i);
            }
            i = i + 1;
        }
        proof {
            lemma_model_absent(self.entries@, key@);
        }
        None
    }

    /// Looks `key` up at time `now`, deleting it first when it has expired.
    fn find_live(&mut self, key: &[u8], now: u64) -> (r: Option<usize>)
        requires
            old(self).wf(),
        ensures
            final(self).wf(),
            final(self)@ == purge(old(self)@, key@, now as nat),
            r matches Some(i) ==> i < final(self).entries@.len() && final(self).entries@[i as int].key@
                == key@ && final(self)@.contains_key(key@) && final(self)@[key@] == slot_of(
                final(self).entries@[i as int],
            ) && alive(final(self)@[key@], now as nat),
            r is None ==> !final(self)@.contains_key(key@),
    {
        match self.find(key) {
            Some(i) => {
                let expired = match self.entries[i].item.expiry {
                    Some(t) => now >= t,
                    None => false,
                };
                if expired {
                    proof {
                        lemma_model_remove(self.entries@, i as int);
                    }
                    self.entries.remove(i);
                    proof {
                        assert forall|j: int| 0 <= j < self.entries@.len() implies (
                        #[trigger] self.entries@[j]).item.value.wf() by {
                            if j >= i {
                                assert(self.entries@[j] == old(self).entries@[j + 1]);
                            } else {
                                assert(self.entries@[j] == old(self).entries@[j]);
                            }
                        }
                    }
                    None
                } else {
                    Some(i)
                }
            },
            None => None,
        }
    }

    fn replace_at(&mut self, i: usize, item: ValueWrapper)
        requires
            old(self).wf(),
            i < old(self).entries@.len(),
            item.value.wf(),
        ensures
            final(self).wf(),
            final(self)@ == old(self)@.insert(
                old(self).entries@[i as int].key@,
                (item.value@, opt_u64(item.expiry)),
            ),
            final(self).entries@.len() == old(self).entries@.len(),
            final(self).entries@[i as int].key@ == old(self).entries@[i as int].key@,
    {
        let key = copy_bytes(&self.entries[i].key);
        let e = Entry { key, item };
        proof {
            lemma_model_update(self.entries@, i as int, e);
        }
        self.entries.set(i, e);
        proof {
            assert forall|j: int| 0 <= j < self.entries@.len() implies (
            #[trigger] self.entries@[j]).item.value.wf() by {
                if j != i {
                    assert(self.entries@[j] == old(self).entries@[j]);
                }
            }
        }
    }

    fn insert_new(&mut self, key: &[u8], item: ValueWrapper)
        requires
            old(self).wf(),
            !old(self)@.contains_key(key@),
            item.value.wf(),
        ensures
            final(self).wf(),
            final(self)@ == old(self)@.insert(key@, (item.value@, opt_u64(item.expiry))),
    {
        let e = Entry { key: crate::common::copy_slice(key, 0, key.len()), item };
        assert(e.key@ =~= key@);
        proof {
            lemma_model_push(self.entries@, e);
        }
        self.entries.push(e);
        proof {
            assert forall|j: int| 0 <= j < self.entries@.len() implies (
            #[trigger] self.entries@[j]).item.value.wf() by {
                if j < old(self).entries@.len() {
                    assert(self.entries@[j] == old(self).entries@[j]);
                }
            }
        }
    }

    /// Stores the string `value` under `key`, replacing whatever it held.
    pub fn set(&mut self, key: &[u8], value: Vec<u8>, expiry: Option<u64>)
        requires
            old(self).wf(),
        ensures
            final(self).wf(),
            final(self)@ == old(self)@.insert(key@, (ValueView::Str(value@), opt_u64(expiry))),
    {
        let item = ValueWrapper { value: Value::Str(value), expiry };
        match self.find(key) {
            Some(i) => self.replace_at(i, item),
            None => self.insert_new(key, item),
        }
    }

    /// The string stored under `key` at time `now`; an expired key is deleted first.
    pub fn get(&mut self, key: &[u8], now: u64) -> (r: Result<Option<Vec<u8>>, StoreError>)
        requires
            old(self).wf(),
        ensures
            final(self).wf(),
            final(self)@ == purge(old(self)@, key@, now as nat),
            match live_value(old(self)@, key@, now as nat) {
                None => r == Ok::<Option<Vec<u8>>, StoreError>(None),
                Some(ValueView::Str(s)) => r matches Ok(Some(v)) && v@ == s,
                Some(_) => r == Err::<Option<Vec<u8>>, StoreError>(StoreError::WrongType),
            },
    {
        match self.find_live(key, now) {
            Some(i) => match &self.entries[i].item.value {
                Value::Str(s) => Ok(Some(copy_bytes(s))),
                _ => Err(StoreError::WrongType),
            },
            None => Ok(None),
        }
    }

    /// Adds one to the integer stored under `key` at time `now`; an absent key counts as 0.
    pub fn incr(&mut self, key: &[u8], now: u64) -> (r: Result<i64, StoreError>)
        requires
            old(self).wf(),
        ensures
            final(self).wf(),
            ({
                let m = purge(old(self)@, key@, now as nat);
                match incr_result(live_value(old(self)@, key@, now as nat)) {
                    Ok(n) => r == Ok::<i64, StoreError>(n as i64) && final(self)@ == m.insert(
                        key@,
                        (
                            ValueView::Str(signed_decimal(n)),
                            if m.contains_key(key@) {
                                m[key@].1
                            } else {
                                None
                            },
                        ),
                    ),
                    Err(e) => r == Err::<i64, StoreError>(e) && final(self)@ == m,
                }
            }),
    {
        match self.find_live(key, now) {
            Some(i) => {
                let parsed = match &self.entries[i].item.value {
                    Value::Str(s) => match parse_i64(s.as_slice()) {
                        Some(n) => {
                            if n < i64::MAX {
                                Ok(n + 1)
                            } else {
                                Err(StoreError::NotInteger)
                            }
                        },
                        None => Err(StoreError::NotInteger),
                    },
                    _ => Err(StoreError::WrongType),
                };
                match parsed {
                    Ok(next) => {
                        let expiry = self.entries[i].item.expiry;
                        let item = ValueWrapper { value: Value::Str(decimal_bytes(next)), expiry };
                        self.replace_at(i, item);
                        Ok(next)
                    },
                    Err(e) => Err(e),
                }
            },
            None => {
                let item = ValueWrapper { value: Value::Str(decimal_bytes(1)), expiry: None };
                self.insert_new(key, item);
                Ok(1)
            },
        }
    }

    /// The live keys at time `now` that match `pattern` (see `key_matches`), each once.
    pub fn get_keys(&self, pattern: &[u8], now: u64) -> (r: Vec<Vec<u8>>)
        requires
            self.wf(),
        ensures
            byte_views(r@).no_duplicates(),
            forall|k: Seq<u8>|
                #[trigger] byte_views(r@).contains(k) <==> (self@.contains_key(k) && alive(self@[k], now as nat)
                    && key_matches(k, pattern@)),
    {
        let prefix_len = trimmed_len(pattern);
        proof {
            lemma_trim_stars(pattern@);
        }
        let exact = prefix_len == pattern.len();
        let mut out: Vec<Vec<u8>> = Vec::new();
        let mut i: usize = 0;
        while i < self.entries.len()
            invariant
                self.wf(),
                i <= self.entries@.len(),
                prefix_len as int == trim_stars(pattern@).len(),
                prefix_len <= pattern@.len(),
                trim_stars(pattern@) == pattern@.take(prefix_len as int),
                exact == (trim_stars(pattern@) == pattern@),
                byte_views(out@).no_duplicates(),
                forall|k: Seq<u8>|
                    byte_views(out@).contains(k) <==> exists|j: int|
                        0 <= j < i && #[trigger] self.entries@[j].key@ == k && alive(
                            slot_of(self.entries@[j]),
                            now as nat,
                        ) && key_matches(k, pattern@),
            decreases self.entries@.len() - i,
        {
            let e = &self.entries[i];
            let live = match e.item.expiry {
                Some(t) => now < t,
                None => true,
            };
            let matches = if exact {
                bytes_eq(e.key.as_slice(), pattern)
            } else {
                has_prefix(e.key.as_slice(), pattern, prefix_len)
            };
            let ghost before = out@;
            if live && matches {
                proof {
                    lemma_trim_stars(pattern@);
                    assert(!byte_views(before).contains(e.key@)) by {
                        if byte_views(before).contains(e.key@) {
                            let j = choose|j: int|
                                0 <= j < i && #[trigger] self.entries@[j].key@ == e.key@ && alive(
                                    slot_of(self.entries@[j]),
                                    now as nat,
                                ) && key_matches(e.key@, pattern@);
                        }
                    }
                }
                out.push(copy_bytes(&e.key));
                proof {
                    assert(byte_views(out@) =~= byte_views(before).push(e.key@));
                    assert forall|k: Seq<u8>|
                        byte_views(out@).contains(k) <==> exists|j: int|
                            0 <= j < i + 1 && #[trigger] self.entries@[j].key@ == k && alive(
                                slot_of(self.entries@[j]),
                                now as nat,
                            ) && key_matches(k, pattern@) by {
                        if byte_views(out@).contains(k) && k != e.key@ {
                            assert(byte_views(before).contains(k)) by {
                                let a = choose|a: int| 0 <= a < byte_views(out@).len() && byte_views(out@)[a] == k;
                                assert(a < before.len());
                                assert(byte_views(before)[a] == k);
                            }
                        }
                        if k == e.key@ {
                            assert(byte_views(out@)[before.len() as int] == k);
                        }
                        if byte_views(before).contains(k) {
                            let a = choose|a: int| 0 <= a < byte_views(before).len() && byte_views(before)[a] == k;
                            assert(byte_views(out@)[a] == k);
                        }
                    }
                }
            } else {
                proof {
                    lemma_trim_stars(pattern@);
                    assert forall|k: Seq<u8>|
                        byte_views(out@).contains(k) <==> exists|j: int|
                            0 <= j < i + 1 && #[trigger] self.entries@[j].key@ == k && alive(
                                slot_of(self.entries@[j]),
                                now as nat,
                            ) && key_matches(k, pattern@) by {
                        if exists|j: int|
                            0 <= j < i + 1 && #[trigger] self.entries@[j].key@ == k && alive(
                                slot_of(self.entries@[j]),
                                now as nat,
                            ) && key_matches(k, pattern@) {
                            let j = choose|j: int|
                                0 <= j < i + 1 && #[trigger] self.entries@[j].key@ == k && alive(
                                    slot_of(self.entries@[j]),
                                    now as nat,
                                ) && key_matches(k, pattern@);
                            if j == i {
                                assert(false);
                            }
                        }
                    }
                }
            }
            i = i + 1;
        }
        proof {
            assert forall|k: Seq<u8>|
                byte_views(out@).contains(k) <==> (self@.contains_key(k) && alive(
                    self@[k],
                    now as nat,
                ) && key_matches(k, pattern@)) by {
                lemma_model_dom(self.entries@, k);
                if self@.contains_key(k) {
                    let j = choose|j: int| 0 <= j < self.entries@.len() && self.entries@[j].key@ == k;
                    lemma_model_at(self.entries@, j);
                }
                if byte_views(out@).contains(k) {
                    let j = choose|j: int|
                        0 <= j < i && #[trigger] self.entries@[j].key@ == k && alive(
                            slot_of(self.entries@[j]),
                            now as nat,
                        ) && key_matches(k, pattern@);
                    lemma_model_at(self.entries@, j);
                }
            }
        }
        out
    }

    /// Pushes `values` onto the list under `key` at time `now`, creating the list when the
    /// key is absent; returns the new length. Left pushes go in one at a time, so they end
    /// up in reverse order at the head.
    pub fn list_push(&mut self, key: &[u8], values: Vec<Vec<u8>>, is_left: bool, now: u64) -> (r: Result<usize, StoreError>)
        requires
            old(self).wf(),
        ensures
            final(self).wf(),
            ({
                let m = purge(old(self)@, key@, now as nat);
                let vals = byte_views(values@);
                match live_value(old(self)@, key@, now as nat) {
                    None => if vals.len() == 0 {
                        r == Ok::<usize, StoreError>(0) && final(self)@ == m
                    } else {
                        (r matches Ok(n) && n == vals.len()) && final(self)@ == m.insert(
                            key@,
                            (ValueView::List(pushed(seq![], vals, is_left)), None),
                        )
                    },
                    Some(ValueView::List(l)) => (r matches Ok(n) && n == l.len() + vals.len())
                        && final(self)@ == m.insert(
                        key@,
                        (ValueView::List(pushed(l, vals, is_left)), m[key@].1),
                    ),
                    Some(_) => r == Err::<usize, StoreError>(StoreError::WrongType) && final(self)@ == m,
                }
            }),
    {
        let found = self.find_live(key, now);
        let (mut list, expiry): (Vec<Vec<u8>>, Option<u64>) = match found {
            Some(i) => match &self.entries[i].item.value {
                Value::List(l) => (copy_list(l), self.entries[i].item.expiry),
                _ => {
                    return Err(StoreError::WrongType);
                },
            },
            None => {
                if values.len() == 0 {
                    return Ok(0);
                }
                (Vec::new(), None)
            },
        };
        let ghost l0 = byte_views(list@);
        let ghost vals = byte_views(values@);
        let mut k: usize = 0;
        while k < values.len()
            invariant
                k <= values@.len(),
                vals == byte_views(values@),
                byte_views(list@) == pushed(l0, vals.take(k as int), is_left),
            decreases values@.len() - k,
        {
            let v = copy_bytes(&values[k]);
            let ghost before = byte_views(list@);
            if is_left {
                list.insert(0, v);
                assert(byte_views(list@) =~= seq![v@] + before);
            } else {
                list.push(v);
                assert(byte_views(list@) =~= before.push(v@));
            }
            assert(vals.take(k + 1) =~= vals.take(k as int).push(vals[k as int]));
            assert(pushed(l0, vals.take(k + 1), is_left) =~= if is_left {
                seq![vals[k as int]] + pushed(l0, vals.take(k as int), is_left)
            } else {
                pushed(l0, vals.take(k as int), is_left).push(vals[k as int])
            });
            k = k + 1;
        }
        assert(vals.take(k as int) =~= vals);
        let n = list.len();
        let item = ValueWrapper { value: Value::List(list), expiry };
        match found {
            Some(i) => self.replace_at(i, item),
            None => self.insert_new(key, item),
        }
        Ok(n)
    }

    /// The items of the list under `key` between `start` and `end` (see `range_slice`).
    pub fn list_range(&self, key: &[u8], start: isize, end: isize, now: u64) -> (r: Result<Vec<Vec<u8>>, StoreError>)
        requires
            self.wf(),
        ensures
            match live_value(self@, key@, now as nat) {
                None => r matches Ok(v) && v@.len() == 0,
                Some(ValueView::List(l)) => r matches Ok(v) && byte_views(v@) == range_slice(
                    l,
                    start as int,
                    end as int,
                ),
                Some(_) => r matches Err(e) && e == StoreError::WrongType,
            },
    {
        match self.find(key) {
            Some(i) => {
                let e = &self.entries[i];
                let live = match e.item.expiry {
                    Some(t) => now < t,
                    None => true,
                };
                if !live {
                    return Ok(Vec::new());
                }
                match &e.item.value {
                    Value::List(l) => match range_bounds(start, end, l.len()) {
                        Some((a, b)) => {
                            let out = copy_range_list(l, a, b + 1);
                            Ok(out)
                        },
                        None => Ok(Vec::new()),
                    },
                    _ => Err(StoreError::WrongType),
                }
            },
            None => Ok(Vec::new()),
        }
    }

    /// The length of the list under `key` (0 when absent).
    pub fn list_len(&self, key: &[u8], now: u64) -> (r: Result<usize, StoreError>)
        requires
            self.wf(),
        ensures
            match live_value(self@, key@, now as nat) {
                None => r == Ok::<usize, StoreError>(0),
                Some(ValueView::List(l)) => (r matches Ok(n) && n == l.len()),
                Some(_) => r == Err::<usize, StoreError>(StoreError::WrongType),
            },
    {
        match self.find(key) {
            Some(i) => {
                let e = &self.entries[i];
                let live = match e.item.expiry {
                    Some(t) => now < t,
                    None => true,
                };
                if !live {
                    return Ok(0);
                }
                match &e.item.value {
                    Value::List(l) => Ok(l.len()),
                    _ => Err(StoreError::WrongType),
                }
            },
            None => Ok(0),
        }
    }

    /// Pops up to `count` items from the head of the list under `key`, deleting the key
    /// when the list empties; `None` when the key is absent.
    #[verifier::spinoff_prover]
    #[verifier::rlimit(40)]
    pub fn list_pop(&mut self, key: &[u8], count: usize, now: u64) -> (r: Result<Option<Vec<Vec<u8>>>, StoreError>)
        requires
            old(self).wf(),
        ensures
            final(self).wf(),
            ({
                let m = purge(old(self)@, key@, now as nat);
                match live_value(old(self)@, key@, now as nat) {
                    None => r matches Ok(None) && final(self)@ == m,
                    Some(ValueView::List(l)) => {
                        let c = if count < l.len() { count as int } else { l.len() as int };
                        &&& r matches Ok(Some(v)) && byte_views(v@) == l.take(c)
                        &&& final(self)@ == if c == l.len() {
                            m.remove(key@)
                        } else {
                            m.insert(key@, (ValueView::List(l.skip(c)), m[key@].1))
                        }
                    },
                    Some(_) => r matches Err(e) && e == StoreError::WrongType && final(self)@ == m,
                }
            }),
    {
        match self.find_live(key, now) {
            Some(i) => {
                let (popped, rest) = match &self.entries[i].item.value {
                    Value::List(l) => {
                        let c = if count < l.len() {
                            count
                        } else {
                            l.len()
                        };
                        let p = copy_range_list(l, 0, c);
                        let rest = copy_range_list(l, c, l.len());
                        assert(byte_views(l@).skip(0).take(c as int) =~= byte_views(l@).take(c as int));
                        assert(byte_views(l@).skip(c as int).take(l@.len() - c) =~= byte_views(l@).skip(c as int));
                        (p, rest)
                    },
                    _ => {
                        return Err(StoreError::WrongType);
                    },
                };
                let ghost lv = live_value(old(self)@, key@, now as nat);
                assert(lv == Some(self@[key@].0));
                let ghost m0 = self@;
                let ghost l = byte_views(rest@);
                if rest.len() == 0 {
                    proof {
                        lemma_model_remove(self.entries@, i as int);
                    }
                    let ghost prev = self.entries@;
                    self.entries.remove(i);
                    assert(self@ == m0.remove(key@));
                    proof {
                        assert forall|j: int| 0 <= j < self.entries@.len() implies (
                        #[trigger] self.entries@[j]).item.value.wf() by {
                            if j >= i {
                                assert(self.entries@[j] == prev[j + 1]);
                            } else {
                                assert(self.entries@[j] == prev[j]);
                            }
                        }
                    }
                } else {
                    let expiry = self.entries[i].item.expiry;
                    let ghost m = self@;
                    let ghost k = self.entries@[i as int].key@;
                    self.replace_at(i, ValueWrapper { value: Value::List(rest), expiry });
                    assert(k == key@);
                    assert(self@ == m.insert(key@, (ValueView::List(byte_views(rest@)), m[key@].1)));
                }
                Ok(Some(popped))
            },
            None => Ok(None),
        }
    }

    /// Pops the head of the first list among `keys` that holds one at time `now`.
    pub fn blpop(&mut self, keys: &[Vec<u8>], now: u64) -> (r: Option<(Vec<u8>, Vec<u8>)>)
        requires
            old(self).wf(),
        ensures
            final(self).wf(),
            r is None ==> final(self)@ == old(self)@ && forall|j: int|
                0 <= j < keys@.len() ==> !(live_value(old(self)@, #[trigger] keys@[j]@, now as nat) matches Some(
                    ValueView::List(_),
                )),
            r matches Some((k, v)) ==> exists|i: int|
                #![trigger keys@[i]]
                {
                    &&& 0 <= i < keys@.len()
                    &&& k@ == keys@[i]@
                    &&& forall|j: int|
                        0 <= j < i ==> !(live_value(old(self)@, #[trigger] keys@[j]@, now as nat) matches Some(
                            ValueView::List(_),
                        ))
                    &&& popped_head(old(self)@, final(self)@, k@, v@, now as nat)
                },
    {
        let mut q: usize = 0;
        while q < keys.len()
            invariant
                self.wf(),
                self@ == old(self)@,
                q <= keys@.len(),
                forall|j: int|
                    0 <= j < q ==> !(live_value(old(self)@, #[trigger] keys@[j]@, now as nat) matches Some(
                        ValueView::List(_),
                    )),
            decreases keys@.len() - q,
        {
            match self.find(keys[q].as_slice()) {
                Some(i) => {
                    let live = match self.entries[i].item.expiry {
                        Some(t) => now < t,
                        None => true,
                    };
                    let is_list = match &self.entries[i].item.value {
                        Value::List(_) => true,
                        _ => false,
                    };
                    if live && is_list {
                        let ghost key = keys@[q as int]@;
                        proof {
                            self.lemma_values_wf(key);
                            assert(live_value(self@, key, now as nat) is Some);
                            assert(live_value(self@, key, now as nat)->0 is List);
                        }
                        let k = copy_bytes(&keys[q]);
                        let popped = self.list_pop(k.as_slice(), 1, now);
                        match popped {
                            Ok(Some(v)) => {
                                proof {
                                    let l = live_value(old(self)@, key, now as nat)->0->List_0;
                                    assert(byte_views(v@) == l.take(1));
                                    assert(byte_views(v@).len() == 1);
                                    assert(l.skip(1) =~= l.drop_first());
                                }
                                if v.len() == 1 {
                                    let head = copy_bytes(&v[0]);
                                    proof {
                                        assert(byte_views(v@)[0] == v@[0]@);
                                        assert(popped_head(old(self)@, self@, k@, head@, now as nat));
                                    }
                                    return Some((k, head));
                                }
                            },
                            _ => {},
                        }
                        proof {
                            assert(false);
                        }
                        return None;
                    }
                },
                None => {},
            }
            q = q + 1;
        }
        None
    }

    /// The type name of the value under `key`: `string`, `list`, `stream`, `zset`, or `none`.
    pub fn type_of(&self, key: &[u8], now: u64) -> (r: Vec<u8>)
        requires
            self.wf(),
        ensures
            r@ == type_label(live_value(self@, key@, now as nat)),
    {
        match self.find(key) {
            Some(i) => {
                let e = &self.entries[i];
                let live = match e.item.expiry {
                    Some(t) => now < t,
                    None => true,
                };
                if !live {
                    let r = vec![110u8, 111, 110, 101];
                    assert(r@ =~= type_label(None));
                    return r;
                }
                let r = match &e.item.value {
                    Value::Str(_) => vec![115u8, 116, 114, 105, 110, 103],
                    Value::List(_) => vec![108u8, 105, 115, 116],
                    Value::Stream(_) => vec![115u8, 116, 114, 101, 97, 109],
                    Value::SortedSet(_) => vec![122u8, 115, 101, 116],
                };
                assert(r@ =~= type_label(live_value(self@, key@, now as nat)));
                r
            },
            None => {
                let r = vec![110u8, 111, 110, 101];
                assert(r@ =~= type_label(None));
                r
            },
        }
    }

    /// Appends an entry with a field/value pair to the stream under `key`, creating the
    /// stream when the key is absent; returns the entry's ID (see `xadd_outcome`).
    pub fn add_stream(&mut self, key: &[u8], id: &[u8], field: Vec<u8>, value: Vec<u8>, now: u64) -> (r: Result<(u64, u64), StreamError>)
        requires
            old(self).wf(),
        ensures
            final(self).wf(),
            ({
                let m = purge(old(self)@, key@, now as nat);
                let lv = live_value(old(self)@, key@, now as nat);
                match xadd_outcome(lv, id@, now as nat) {
                    Ok(nid) => r matches Ok(x) && x.0 as nat == nid.0 && x.1 as nat == nid.1
                        && final(self)@ == m.insert(
                        key@,
                        (
                            ValueView::Stream(stream_of(lv).push((nid.0, nid.1, field@, value@))),
                            if m.contains_key(key@) {
                                m[key@].1
                            } else {
                                None
                            },
                        ),
                    ),
                    Err(e) => r matches Err(x) && x == e && final(self)@ == m,
                }
            }),
    {
        let found = self.find_live(key, now);
        let (mut entries, expiry): (Vec<StreamEntry>, Option<u64>) = match found {
            Some(i) => match &self.entries[i].item.value {
                Value::Stream(st) => (copy_stream(st), self.entries[i].item.expiry),
                _ => {
                    return Err(StreamError::WrongType);
                },
            },
            None => (Vec::new(), None),
        };
        proof {
            if found is Some {
                self.lemma_values_wf(key@);
            }
        }
        let ghost lv = live_value(old(self)@, key@, now as nat);
        assert(stream_views(entries@) == stream_of(lv));
        assert(found is Some ==> self@.contains_key(key@) && self@[key@].1 == opt_u64(expiry));
        assert(found is None ==> expiry is None && !self@.contains_key(key@));
        let top: (u64, u64) = if entries.len() == 0 {
            (0, 0)
        } else {
            (entries[entries.len() - 1].ms, entries[entries.len() - 1].seq)
        };
        assert(top.0 as nat == top_id(stream_views(entries@)).0 && top.1 as nat == top_id(stream_views(entries@)).1);
        let spec = match parse_stream_id(id) {
            Some(sp) => sp,
            None => {
                return Err(StreamError::InvalidId);
            },
        };
        let nid = match get_stream_id(&spec, top, now) {
            Ok(nid) => nid,
            Err(e) => {
                return Err(e);
            },
        };
        let ghost before = stream_views(entries@);
        let e = StreamEntry { ms: nid.0, seq: nid.1, field, value };
        entries.push(e);
        proof {
            assert(stream_views(entries@) =~= before.push(entry_view(e)));
            assert(wf_stream(stream_views(entries@))) by {
                let sv = stream_views(entries@);
                assert forall|a: int, b: int| 0 <= a < b < sv.len() implies id_lt(id_of(sv[a]), id_of(sv[b])) by {
                    if b == sv.len() - 1 && a < b && before.len() > 0 {
                        assert(id_lt(id_of(before[a]), top_id(before)) || id_of(before[a]) == top_id(before));
                    }
                }
            }
        }
        let item = ValueWrapper { value: Value::Stream(entries), expiry };
        match found {
            Some(i) => self.replace_at(i, item),
            None => self.insert_new(key, item),
        }
        Ok(nid)
    }

    /// The entries of the stream under `key` with IDs between the `XRANGE` bounds `start`
    /// and `end` (see `bound_of`), in stream order.
    pub fn stream_range(&self, key: &[u8], start: &[u8], end: &[u8], now: u64) -> (r: Result<Vec<StreamEntry>, StreamError>)
        requires
            self.wf(),
        ensures
            match (bound_of(start@, false), bound_of(end@, true)) {
                (Some(lo), Some(hi)) => match live_value(self@, key@, now as nat) {
                    None => r matches Ok(v) && v@.len() == 0,
                    Some(ValueView::Stream(st)) => r matches Ok(v) && stream_views(v@) == in_range(st, lo, hi),
                    Some(_) => r matches Err(e) && e == StreamError::WrongType,
                },
                _ => r matches Err(e) && e == StreamError::InvalidId,
            },
    {
        let lo = match parse_bound(start, false) {
            Some(b) => b,
            None => {
                return Err(StreamError::InvalidId);
            },
        };
        let hi = match parse_bound(end, true) {
            Some(b) => b,
            None => {
                return Err(StreamError::InvalidId);
            },
        };
        self.stream_between(key, lo, hi, now)
    }

    /// The entries of the stream under `key` with IDs in `lo..=hi`.
    pub fn stream_between(&self, key: &[u8], lo: (u64, u64), hi: (u64, u64), now: u64) -> (r: Result<Vec<StreamEntry>, StreamError>)
        requires
            self.wf(),
        ensures
            match live_value(self@, key@, now as nat) {
                None => r matches Ok(v) && v@.len() == 0,
                Some(ValueView::Stream(st)) => r matches Ok(v) && stream_views(v@) == in_range(
                    st,
                    (lo.0 as nat, lo.1 as nat),
                    (hi.0 as nat, hi.1 as nat),
                ),
                Some(_) => r matches Err(e) && e == StreamError::WrongType,
            },
    {
        match self.find(key) {
            Some(i) => {
                let e = &self.entries[i];
                let live = match e.item.expiry {
                    Some(t) => now < t,
                    None => true,
                };
                if !live {
                    return Ok(Vec::new());
                }
                match &e.item.value {
                    Value::Stream(st) => Ok(entries_in_range(st, lo, hi)),
                    _ => Err(StreamError::WrongType),
                }
            },
            None => Ok(Vec::new()),
        }
    }

    /// The top ID of the live stream under `key`, if it holds one.
    pub fn stream_top(&self, key: &[u8], now: u64) -> (r: Option<(u64, u64)>)
        requires
            self.wf(),
        ensures
            match live_value(self@, key@, now as nat) {
                Some(ValueView::Stream(st)) => r matches Some(x) && x.0 as nat == top_id(st).0
                    && x.1 as nat == top_id(st).1,
                _ => r is None,
            },
    {
        match self.find(key) {
            Some(i) => {
                let e = &self.entries[i];
                let live = match e.item.expiry {
                    Some(t) => now < t,
                    None => true,
                };
                if !live {
                    return None;
                }
                match &e.item.value {
                    Value::Stream(st) => {
                        if st.len() == 0 {
                            Some((0, 0))
                        } else {
                            Some((st[st.len() - 1].ms, st[st.len() - 1].seq))
                        }
                    },
                    _ => None,
                }
            },
            None => None,
        }
    }


    /// The sorted set stored under `key` at time `now`, if any.
    fn live_zset(&self, key: &[u8], now: u64) -> (r: Result<Option<usize>, StoreError>)
        requires
            self.wf(),
        ensures
            match live_value(self@, key@, now as nat) {
                None => r matches Ok(None),
                Some(ValueView::SortedSet(z)) => r matches Ok(Some(i)) && i < self.entries@.len()
                    && self.entries@[i as int].item.value@ == ValueView::SortedSet(z)
                    && self.entries@[i as int].item.value.wf(),
                Some(_) => r matches Err(e) && e == StoreError::WrongType,
            },
    {
        match self.find(key) {
            Some(i) => {
                let live = match self.entries[i].item.expiry {
                    Some(t) => now < t,
                    None => true,
                };
                if !live {
                    return Ok(None);
                }
                proof {
                    self.lemma_values_wf(key@);
                }
                match &self.entries[i].item.value {
                    Value::SortedSet(_) => Ok(Some(i)),
                    _ => Err(StoreError::WrongType),
                }
            },
            None => Ok(None),
        }
    }

    /// Adds `member` with `score` to the sorted set under `key`, creating it when absent;
    /// returns 1 when the member is new, 0 when its score was replaced.
    pub fn zadd(&mut self, key: &[u8], score: i64, member: Vec<u8>, now: u64) -> (r: Result<i64, StoreError>)
        requires
            old(self).wf(),
        ensures
            final(self).wf(),
            ({
                let m = purge(old(self)@, key@, now as nat);
                match live_value(old(self)@, key@, now as nat) {
                    Some(ValueView::Str(_)) | Some(ValueView::List(_)) | Some(ValueView::Stream(_)) => r
                        == Err::<i64, StoreError>(StoreError::WrongType) && final(self)@ == m,
                    lv => {
                        let z0 = zset_of(lv);
                        &&& final(self)@.dom() == m.dom().insert(key@)
                        &&& forall|k: Seq<u8>| k != key@ && m.contains_key(k) ==> final(self)@[k] == m[k]
                        &&& final(self)@[key@].0 matches ValueView::SortedSet(z1) && wf_zset(z1) && (
                        forall|p: (int, Seq<u8>)|
                            z1.contains(p) <==> (p == (score as int, member@) || (z0.contains(p)
                                && p.1 != member@)))
                        &&& r matches Ok(n) && (n == 1 <==> forall|i: int|
                            0 <= i < z0.len() ==> z0[i].1 != member@) && (n == 0 || n == 1)
                    },
                }
            }),
    {
        let found = self.find_live(key, now);
        let (mut z, expiry) = match found {
            Some(i) => match &self.entries[i].item.value {
                Value::SortedSet(zs) => (zs.copy(), self.entries[i].item.expiry),
                _ => {
                    return Err(StoreError::WrongType);
                },
            },
            None => (SortedSet::new(), None),
        };
        proof {
            if found is Some {
                self.lemma_values_wf(key@);
            }
        }
        let ghost lv = live_value(old(self)@, key@, now as nat);
        assert(z@ == zset_of(lv));
        let n = z.insert(member, score);
        proof {
            assert(z@.contains(z@[0])) by {
                assert(z@.contains((score as int, member@)));
            }
        }
        let item = ValueWrapper { value: Value::SortedSet(z), expiry };
        match found {
            Some(i) => self.replace_at(i, item),
            None => self.insert_new(key, item),
        }
        Ok(n)
    }

    /// Removes `member` from the sorted set under `key`; deletes the key when the set
    /// empties. Returns 1 when the member was there.
    pub fn zrem(&mut self, key: &[u8], member: &[u8], now: u64) -> (r: Result<i64, StoreError>)
        requires
            old(self).wf(),
        ensures
            final(self).wf(),
            match live_value(old(self)@, key@, now as nat) {
                None => r == Ok::<i64, StoreError>(0),
                Some(ValueView::SortedSet(z)) => r matches Ok(n) && (n == 1 <==> exists|i: int|
                    0 <= i < z.len() && z[i].1 == member@) && (n == 0 || n == 1),
                Some(_) => r == Err::<i64, StoreError>(StoreError::WrongType),
            },
    {
        let found = self.find_live(key, now);
        match found {
            Some(i) => {
                proof {
                    self.lemma_values_wf(key@);
                }
                let mut z = match &self.entries[i].item.value {
                    Value::SortedSet(zs) => zs.copy(),
                    _ => {
                        return Err(StoreError::WrongType);
                    },
                };
                let n = z.remove(member);
                if z.len() == 0 {
                    proof {
                        lemma_model_remove(self.entries@, i as int);
                    }
                    let ghost prev = self.entries@;
                    self.entries.remove(i);
                    proof {
                        assert forall|j: int| 0 <= j < self.entries@.len() implies (
                        #[trigger] self.entries@[j]).item.value.wf() by {
                            if j >= i {
                                assert(self.entries@[j] == prev[j + 1]);
                            } else {
                                assert(self.entries@[j] == prev[j]);
                            }
                        }
                    }
                } else {
                    let expiry = self.entries[i].item.expiry;
                    self.replace_at(i, ValueWrapper { value: Value::SortedSet(z), expiry });
                }
                Ok(n)
            },
            None => Ok(0),
        }
    }

    /// The score of `member` in the sorted set under `key`.
    pub fn zscore(&self, key: &[u8], member: &[u8], now: u64) -> (r: Result<Option<i64>, StoreError>)
        requires
            self.wf(),
        ensures
            match live_value(self@, key@, now as nat) {
                None => r matches Ok(None),
                Some(ValueView::SortedSet(z)) => match r {
                    Ok(Some(sc)) => z.contains((sc as int, member@)),
                    Ok(None) => forall|i: int| 0 <= i < z.len() ==> z[i].1 != member@,
                    Err(_) => false,
                },
                Some(_) => r matches Err(e) && e == StoreError::WrongType,
            },
    {
        match self.live_zset(key, now) {
            Ok(Some(i)) => match &self.entries[i].item.value {
                Value::SortedSet(z) => Ok(z.get_score(member)),
                _ => Ok(None),
            },
            Ok(None) => Ok(None),
            Err(e) => Err(e),
        }
    }

    /// The number of members of the sorted set under `key` (0 when absent).
    pub fn zcard(&self, key: &[u8], now: u64) -> (r: Result<usize, StoreError>)
        requires
            self.wf(),
        ensures
            match live_value(self@, key@, now as nat) {
                None => r == Ok::<usize, StoreError>(0),
                Some(ValueView::SortedSet(z)) => (r matches Ok(n) && n == z.len()),
                Some(_) => r == Err::<usize, StoreError>(StoreError::WrongType),
            },
    {
        match self.live_zset(key, now) {
            Ok(Some(i)) => match &self.entries[i].item.value {
                Value::SortedSet(z) => Ok(z.len()),
                _ => Ok(0),
            },
            Ok(None) => Ok(0),
            Err(e) => Err(e),
        }
    }

    /// The rank of `member` in the sorted set under `key`.
    pub fn zrank(&self, key: &[u8], member: &[u8], now: u64) -> (r: Result<Option<usize>, StoreError>)
        requires
            self.wf(),
        ensures
            match live_value(self@, key@, now as nat) {
                None => r matches Ok(None),
                Some(ValueView::SortedSet(z)) => match r {
                    Ok(Some(i)) => i < z.len() && z[i as int].1 == member@,
                    Ok(None) => forall|i: int| 0 <= i < z.len() ==> z[i].1 != member@,
                    Err(_) => false,
                },
                Some(_) => r matches Err(e) && e == StoreError::WrongType,
            },
    {
        match self.live_zset(key, now) {
            Ok(Some(i)) => match &self.entries[i].item.value {
                Value::SortedSet(z) => Ok(z.get_rank(member)),
                _ => Ok(None),
            },
            Ok(None) => Ok(None),
            Err(e) => Err(e),
        }
    }

    /// The members of the sorted set under `key` between `start` and `end`, in index order.
    pub fn zrange(&self, key: &[u8], start: isize, end: isize, now: u64) -> (r: Result<Vec<Vec<u8>>, StoreError>)
        requires
            self.wf(),
        ensures
            match live_value(self@, key@, now as nat) {
                None => r matches Ok(v) && v@.len() == 0,
                Some(ValueView::SortedSet(z)) => r matches Ok(v) && byte_views(v@) == zrange(
                    z,
                    start as int,
                    end as int,
                ),
                Some(_) => r matches Err(e) && e == StoreError::WrongType,
            },
    {
        match self.live_zset(key, now) {
            Ok(Some(i)) => match &self.entries[i].item.value {
                Value::SortedSet(z) => {
                    let v = z.list_members(start, end);
                    assert(byte_views(v@) =~= zrange(z@, start as int, end as int));
                    Ok(v)
                },
                _ => Ok(Vec::new()),
            },
            Ok(None) => Ok(Vec::new()),
            Err(e) => Err(e),
        }
    }

    /// The entries newer than each filter's ID, for every filter whose key holds a live
    /// stream with such entries (in filter order), and the top ID of every filtered key
    /// that holds a live stream.
    pub fn get_filtered_streams(&self, filters: &Vec<StreamFilter>, now: u64) -> (r: StreamQueryResult)
        requires
            self.wf(),
        ensures
            match r.data {
                Some(v) => stream_data_views(v@) == query(self@, filter_views(filters@), now as nat)
                    && v@.len() > 0,
                None => query(self@, filter_views(filters@), now as nat).len() == 0,
            },
            max_id_views(r.max_ids@) == filter_views(filters@).map_values(
                |f: (Seq<u8>, (nat, nat))| (f.0, top_of(self@, f.0, now as nat)),
            ),
    {
        let mut out: Vec<StreamData> = Vec::new();
        let mut max_ids: Vec<(Vec<u8>, Option<(u64, u64)>)> = Vec::new();
        let mut i: usize = 0;
        while i < filters.len()
            invariant
                self.wf(),
                i <= filters@.len(),
                stream_data_views(out@) == query(self@, filter_views(filters@).take(i as int), now as nat),
                max_id_views(max_ids@) == filter_views(filters@).take(i as int).map_values(
                    |f: (Seq<u8>, (nat, nat))| (f.0, top_of(self@, f.0, now as nat)),
                ),
            decreases filters@.len() - i,
        {
            let f = &filters[i];
            let ghost fs = filter_views(filters@);
            assert(fs.take(i + 1).drop_last() =~= fs.take(i as int));
            assert(fs.take(i + 1).last() == fs[i as int]);
            let top = self.stream_top(f.key.as_slice(), now);
            let ghost m0 = max_id_views(max_ids@);
            let kc = copy_bytes(&f.key);
            max_ids.push((kc, top));
            proof {
                assert(max_id_views(max_ids@) =~= m0.push((f.key@, top_of(self@, f.key@, now as nat))));
                assert(fs.take(i + 1).map_values(|f: (Seq<u8>, (nat, nat))| (f.0, top_of(self@, f.0, now as nat)))
                    =~= fs.take(i as int).map_values(|f: (Seq<u8>, (nat, nat))| (f.0, top_of(self@, f.0, now as nat))).push(
                    (f.key@, top_of(self@, f.key@, now as nat))));
            }
            let lo = if f.after.1 < u64::MAX {
                Some((f.after.0, f.after.1 + 1))
            } else if f.after.0 < u64::MAX {
                Some((f.after.0 + 1, 0))
            } else {
                None
            };
            let ghost before = stream_data_views(out@);
            match lo {
                Some(lo) => match self.stream_between(f.key.as_slice(), lo, (u64::MAX, u64::MAX), now) {
                    Ok(entries) => {
                        if entries.len() > 0 {
                            let d = StreamData { key: copy_bytes(&f.key), entries };
                            out.push(d);
                            assert(stream_data_views(out@) =~= before.push((d.key@, stream_views(d.entries@))));
                        }
                    },
                    Err(_) => {},
                },
                None => {},
            }
            i = i + 1;
        }
        assert(filter_views(filters@).take(i as int) =~= filter_views(filters@));
        let data = if out.len() > 0 {
            Some(out)
        } else {
            None
        };
        StreamQueryResult { data, max_ids }
    }
}

/// The entries of one stream in an `XREAD` answer.
pub struct StreamData {
    pub key: Vec<u8>,
    pub entries: Vec<StreamEntry>,
}

/// One stream of an `XREAD` request and the ID after which to read it.
pub struct StreamFilter {
    pub key: Vec<u8>,
    pub after: (u64, u64),
}

/// The answer to a set of stream filters.
pub struct StreamQueryResult {
    /// The streams with new entries, `None` when there are none.
    pub data: Option<Vec<StreamData>>,
    /// The top ID of each filtered key that holds a stream.
    pub max_ids: Vec<(Vec<u8>, Option<(u64, u64)>)>,
}

pub open spec fn stream_data_views(v: Seq<StreamData>) -> Seq<(Seq<u8>, StreamView)> {
    v.map_values(|d: StreamData| (d.key@, stream_views(d.entries@)))
}

pub open spec fn filter_views(v: Seq<StreamFilter>) -> Seq<(Seq<u8>, (nat, nat))> {
    v.map_values(|f: StreamFilter| (f.key@, (f.after.0 as nat, f.after.1 as nat)))
}

/// The top ID of the live stream under `key`, if it holds one.
pub open spec fn top_of(m: Map<Seq<u8>, Slot>, key: Seq<u8>, now: nat) -> Option<(nat, nat)> {
    match live_value(m, key, now) {
        Some(ValueView::Stream(st)) => Some(top_id(st)),
        _ => None,
    }
}

pub open spec fn max_id_views(v: Seq<(Vec<u8>, Option<(u64, u64)>)>) -> Seq<(Seq<u8>, Option<(nat, nat)>)> {
    v.map_values(
        |p: (Vec<u8>, Option<(u64, u64)>)|
            (
                p.0@,
                match p.1 {
                    Some(t) => Some((t.0 as nat, t.1 as nat)),
                    None => None,
                },
            ),
    )
}

/// The entries of `st` with IDs strictly above `after`.
pub open spec fn newer(st: StreamView, after: (nat, nat)) -> StreamView {
    if after.1 < u64::MAX {
        in_range(st, (after.0, after.1 + 1), (u64::MAX as nat, u64::MAX as nat))
    } else if after.0 < u64::MAX {
        in_range(st, (after.0 + 1, 0), (u64::MAX as nat, u64::MAX as nat))
    } else {
        seq![]
    }
}

/// For each filter whose key holds a live stream with newer entries: the key and those
/// entries, in filter order.
pub open spec fn query(m: Map<Seq<u8>, Slot>, fs: Seq<(Seq<u8>, (nat, nat))>, now: nat) -> Seq<(Seq<u8>, StreamView)>
    decreases fs.len(),
{
    if fs.len() == 0 {
        seq![]
    } else {
        let rest = query(m, fs.drop_last(), now);
        let f = fs.last();
        match live_value(m, f.0, now) {
            Some(ValueView::Stream(st)) => if newer(st, f.1).len() > 0 {
                rest.push((f.0, newer(st, f.1)))
            } else {
                rest
            },
            _ => rest,
        }
    }
}

/// The sorted set that a live value holds, empty when there is none.
pub open spec fn zset_of(lv: Option<ValueView>) -> ZSetView {
    match lv {
        Some(ValueView::SortedSet(z)) => z,
        _ => seq![],
    }
}

/// The stream that a live value holds, empty when there is none.
pub open spec fn stream_of(lv: Option<ValueView>) -> StreamView {
    match lv {
        Some(ValueView::Stream(st)) => st,
        _ => seq![],
    }
}

/// What `XADD` with the ID text `id` at time `now` does to the live value `lv`.
pub open spec fn xadd_outcome(lv: Option<ValueView>, id: Seq<u8>, now: nat) -> Result<(nat, nat), StreamError> {
    match lv {
        Some(ValueView::Str(_)) | Some(ValueView::List(_)) | Some(ValueView::SortedSet(_)) => Err(
            StreamError::WrongType,
        ),
        _ => match id_spec_of(id) {
            None => Err(StreamError::InvalidId),
            Some(sp) => resolve_id(sp, top_id(stream_of(lv)), now),
        },
    }
}

fn copy_stream(st: &Vec<StreamEntry>) -> (r: Vec<StreamEntry>)
    ensures
        stream_views(r@) == stream_views(st@),
{
    let mut out: Vec<StreamEntry> = Vec::new();
    let mut i: usize = 0;
    while i < st.len()
        invariant
            i <= st@.len(),
            stream_views(out@) == stream_views(st@).take(i as int),
        decreases st@.len() - i,
    {
        let ghost before = out@;
        let c = copy_entry(&st[i]);
        out.push(c);
        assert(stream_views(out@) =~= stream_views(before).push(entry_view(c)));
        assert(stream_views(st@).take(i + 1) =~= stream_views(st@).take(i as int).push(entry_view(st@[i as int])));
        i = i + 1;
    }
    assert(stream_views(st@).take(i as int) =~= stream_views(st@));
    out
}

/// The list after pushing `vals` at the head (one by one) or at the tail.
pub open spec fn pushed(l: Seq<Seq<u8>>, vals: Seq<Seq<u8>>, left: bool) -> Seq<Seq<u8>> {
    if left {
        Seq::new(vals.len(), |j: int| vals[vals.len() - 1 - j]) + l
    } else {
        l + vals
    }
}

/// The items of `l` that a range from `start` to `end` selects (see `range_indices`).
pub open spec fn range_slice(l: Seq<Seq<u8>>, start: int, end: int) -> Seq<Seq<u8>> {
    match range_indices(start, end, l.len() as int) {
        Some((a, b)) => l.subrange(a, b + 1),
        None => seq![],
    }
}

/// `m1` is `m0` after taking the head `v` off the live list under `k`.
pub open spec fn popped_head(m0: Map<Seq<u8>, Slot>, m1: Map<Seq<u8>, Slot>, k: Seq<u8>, v: Seq<u8>, now: nat) -> bool {
    match live_value(m0, k, now) {
        Some(ValueView::List(l)) => v == l[0] && m1 == if l.len() == 1 {
            m0.remove(k)
        } else {
            m0.insert(k, (ValueView::List(l.drop_first()), m0[k].1))
        },
        _ => false,
    }
}

/// The name `TYPE` reports for a live value.
pub open spec fn type_label(v: Option<ValueView>) -> Seq<u8> {
    match v {
        None => seq![110u8, 111, 110, 101],
        Some(ValueView::Str(_)) => seq![115u8, 116, 114, 105, 110, 103],
        Some(ValueView::List(_)) => seq![108u8, 105, 115, 116],
        Some(ValueView::Stream(_)) => seq![115u8, 116, 114, 101, 97, 109],
        Some(ValueView::SortedSet(_)) => seq![122u8, 115, 101, 116],
    }
}

/// `range_indices` for a length given as `usize`.
pub fn range_bounds(start: isize, end: isize, len: usize) -> (r: Option<(usize, usize)>)
    ensures
        r matches Some((a, b)) ==> range_indices(start as int, end as int, len as int) == Some(
            (a as int, b as int),
        ) && b < len,
        r is None ==> range_indices(start as int, end as int, len as int) is None,
{
    if len == 0 {
        return None;
    }
    let n = len as i128;
    let mut s = start as i128;
    let mut e = end as i128;
    if s < 0 {
        s = s + n;
    }
    if e < 0 {
        e = e + n;
    }
    if s < 0 {
        s = 0;
    }
    if e > n - 1 {
        e = n - 1;
    }
    if s > e {
        return None;
    }
    Some((s as usize, e as usize))
}

fn copy_list(l: &Vec<Vec<u8>>) -> (r: Vec<Vec<u8>>)
    ensures
        byte_views(r@) == byte_views(l@),
{
    copy_range_list(l, 0, l.len())
}

fn copy_range_list(l: &Vec<Vec<u8>>, a: usize, b: usize) -> (r: Vec<Vec<u8>>)
    requires
        a <= b <= l@.len(),
    ensures
        byte_views(r@) == byte_views(l@).subrange(a as int, b as int),
        byte_views(r@) == byte_views(l@).skip(a as int).take(b - a),
{
    let mut out: Vec<Vec<u8>> = Vec::new();
    let mut j: usize = a;
    while j < b
        invariant
            a <= j <= b <= l@.len(),
            byte_views(out@) == byte_views(l@).subrange(a as int, j as int),
        decreases b - j,
    {
        let ghost before = out@;
        let c = copy_bytes(&l[j]);
        out.push(c);
        assert(byte_views(out@) =~= byte_views(before).push(c@));
        assert(byte_views(l@).subrange(a as int, j + 1) =~= byte_views(l@).subrange(a as int, j as int).push(
            l@[j as int]@,
        ));
        j = j + 1;
    }
    assert(byte_views(l@).subrange(a as int, b as int) =~= byte_views(l@).skip(a as int).take(b - a));
    out

}

/// The result of `INCR` on the live value `v`.
pub open spec fn incr_result(v: Option<ValueView>) -> Result<int, StoreError> {
    match v {
        None => Ok(1),
        Some(ValueView::Str(s)) => match int_within(s, i64::MIN as int, i64::MAX as int) {
            Some(n) => if n < i64::MAX {
                Ok(n + 1)
            } else {
                Err(StoreError::NotInteger)
            },
            None => Err(StoreError::NotInteger),
        },
        Some(_) => Err(StoreError::WrongType),
    }
}

/// `p` without its trailing `*` characters.
pub open spec fn trim_stars(p: Seq<u8>) -> Seq<u8>
    decreases p.len(),
{
    if p.len() > 0 && p.last() == 42 {
        trim_stars(p.drop_last())
    } else {
        p
    }
}

/// Key patterns: a pattern that ends in `*` matches every key that starts with what
/// precedes the stars (so `*` matches all keys); any other pattern matches itself.
pub open spec fn key_matches(k: Seq<u8>, p: Seq<u8>) -> bool {
    let t = trim_stars(p);
    if t == p {
        k == p
    } else {
        t.len() <= k.len() && k.take(t.len() as int) == t
    }
}

proof fn lemma_trim_stars(p: Seq<u8>)
    ensures
        trim_stars(p).len() <= p.len(),
        trim_stars(p) == p.take(trim_stars(p).len() as int),
        trim_stars(p) == p <==> trim_stars(p).len() == p.len(),
    decreases p.len(),
{
    if p.len() > 0 && p.last() == 42 {
        lemma_trim_stars(p.drop_last());
        assert(p.drop_last().take(trim_stars(p).len() as int) =~= p.take(trim_stars(p).len() as int));
    } else {
        assert(p.take(p.len() as int) =~= p);
    }
}

fn trimmed_len(p: &[u8]) -> (r: usize)
    ensures
        r == trim_stars(p@).len(),
{
    let mut n: usize = p.len();
    assert(p@.take(n as int) =~= p@);
    while n > 0 && p[n - 1] == 42
        invariant
            n <= p@.len(),
            trim_stars(p@.take(n as int)) == trim_stars(p@),
        decreases n,
    {
        assert(p@.take(n as int).drop_last() =~= p@.take(n - 1));
        n = n - 1;
    }
    proof {
        if n > 0 {
            assert(p@.take(n as int).last() == p@[n - 1]);
        }
    }
    n
}

fn has_prefix(k: &[u8], p: &[u8], n: usize) -> (r: bool)
    requires
        n <= p@.len(),
    ensures
        r == (n <= k@.len() && k@.take(n as int) == p@.take(n as int)),
{
    if n > k.len() {
        return false;
    }
    let mut i: usize = 0;
    while i < n
        invariant
            n <= k@.len(),
            n <= p@.len(),
            i <= n,
            forall|j: int| 0 <= j < i ==> k@[j] == p@[j],
        decreases n - i,
    {
        if k[i] != p[i] {
            assert(k@.take(n as int)[i as int] != p@.take(n as int)[i as int]);
            return false;
        }
        i = i + 1;
    }
    assert(k@.take(n as int) =~= p@.take(n as int));
    true
}

impl InMemoryStore {
    /// A keyspace holding the keys of a snapshot, with their values and expiry times;
    /// a key listed twice keeps its later entry.
    pub fn from_rdb_file(entries: Vec<crate::rdb::RdbEntry>) -> (r: Self)
        ensures
            r.wf(),
            r@ == rdb_model(crate::rdb::entry_views(entries@)),
    {
        let mut s = InMemoryStore::new();
        let mut i: usize = 0;
        while i < entries.len()
            invariant
                s.wf(),
                i <= entries@.len(),
                s@ == rdb_model(crate::rdb::entry_views(entries@).take(i as int)),
            decreases entries@.len() - i,
        {
            let e = &entries[i];
            let ghost ev = crate::rdb::entry_views(entries@);
            assert(ev.take(i + 1).drop_last() =~= ev.take(i as int));
            assert(ev.take(i + 1).last() == e@);
            match &e.value {
                crate::rdb::RdbValue::String(v) => {
                    s.set(e.key.as_slice(), copy_bytes(v), e.expiry);
                },
            }
            i = i + 1;
        }
        assert(crate::rdb::entry_views(entries@).take(i as int) =~= crate::rdb::entry_views(entries@));
        s
    }
}

/// The keyspace a snapshot's entries give, later entries replacing earlier ones.
pub open spec fn rdb_model(es: Seq<crate::rdb::RdbEntryView>) -> Map<Seq<u8>, Slot>
    decreases es.len(),
{
    if es.len() == 0 {
        Map::empty()
    } else {
        rdb_model(es.drop_last()).insert(es.last().0, (ValueView::Str(es.last().1), es.last().2))
    }
}

/// SET then GET: before its expiry the key reads back the value; from the expiry on it
/// is neither readable nor listed by `KEYS`.
pub proof fn lemma_set_get(m: Map<Seq<u8>, Slot>, k: Seq<u8>, v: Seq<u8>, expiry: Option<nat>, now: nat)
    ensures
        (expiry is None || now < expiry->0) ==> live_value(m.insert(k, (ValueView::Str(v), expiry)), k, now)
            == Some(ValueView::Str(v)),
        (expiry is Some && now >= expiry->0) ==> live_value(m.insert(k, (ValueView::Str(v), expiry)), k, now) is None
            && !alive(m.insert(k, (ValueView::Str(v), expiry))[k], now),
{
}

/// INCR: an absent key becomes 1, a key holding the decimal `n` becomes `n + 1`.
pub proof fn lemma_incr(n: int)
    requires
        i64::MIN <= n < i64::MAX,
    ensures
        incr_result(None) == Ok::<int, StoreError>(1),
        incr_result(Some(ValueView::Str(signed_decimal(n)))) == Ok::<int, StoreError>(n + 1),
{
    if n < 0 {
        crate::protocol::lemma_decimal_shape((-n) as nat);
        let s = signed_decimal(n);
        assert(s.drop_first() =~= crate::protocol::decimal((-n) as nat));
    } else {
        crate::protocol::lemma_decimal_shape(n as nat);
        let d = crate::protocol::decimal(n as nat);
        assert(crate::protocol::is_digit(d[0]));
    }
}

/// List range: `0 .. -1` selects the whole list and `-2 .. -1` its last two items.
pub proof fn lemma_list_range(l: Seq<Seq<u8>>)
    ensures
        range_slice(l, 0, -1) == l,
        l.len() >= 2 ==> range_slice(l, -2, -1) == l.skip(l.len() - 2),
{
    if l.len() > 0 {
        assert(l.subrange(0, l.len() as int) =~= l);
    } else {
        assert(range_slice(l, 0, -1) =~= l);
    }
    if l.len() >= 2 {
        assert(l.subrange(l.len() - 2, l.len() as int) =~= l.skip(l.len() - 2));
    }
}

/// Stream ordering: `XRANGE - +` returns every entry, in insertion order.
pub proof fn lemma_xrange_all(s: StreamView)
    requires
        forall|i: int| 0 <= i < s.len() ==> (#[trigger] s[i]).0 <= u64::MAX && s[i].1 <= u64::MAX,
    ensures
        in_range(s, (0, 0), (u64::MAX as nat, u64::MAX as nat)) == s,
    decreases s.len(),
{
    if s.len() > 0 {
        let t = s.drop_last();
        assert forall|i: int| 0 <= i < t.len() implies (#[trigger] t[i]).0 <= u64::MAX && t[i].1 <= u64::MAX by {
            assert(t[i] == s[i]);
        }
        lemma_xrange_all(t);
        assert(s[s.len() - 1] == s.last());
        assert(t.push(s.last()) =~= s);
    }
}

/// Sorted set: `ZRANGE 0 -1` lists the members in index order, which is by score with
/// ties broken by member (`pair_lt`).
pub proof fn lemma_zrange_sorted(z: ZSetView)
    requires
        wf_zset(z),
    ensures
        zrange(z, 0, -1) == crate::sorted_set::members(z),
        forall|i: int, j: int| 0 <= i < j < z.len() ==> #[trigger] crate::sorted_set::pair_lt(z[i], z[j]),
{
    let ms = crate::sorted_set::members(z);
    if z.len() > 0 {
        assert(ms.subrange(0, z.len() as int) =~= ms);
    } else {
        assert(zrange(z, 0, -1) =~= ms);
    }
}

} // verus!
