use vstd::prelude::*;
use crate::common::byte_views;
use crate::store::bytes_eq;

verus! {

/// A client blocked until one of `keys` changes.
pub struct Subscription {
    pub id: u64,
    pub keys: Vec<Vec<u8>>,
    pub timestamp: u64,
}

/// Model of a waiter: `(id, keys, registration time)`.
pub type WaiterView = (u64, Seq<Seq<u8>>, nat);

pub open spec fn waiter_view(w: Subscription) -> WaiterView {
    (w.id, byte_views(w.keys@), w.timestamp as nat)
}

/// The waiter at `i` is interested in `key` and no interested waiter registered
/// earlier: none has a smaller timestamp, nor an equal one at an earlier place.
pub open spec fn is_first_waiter(ws: Seq<WaiterView>, key: Seq<u8>, i: int) -> bool {
    &&& 0 <= i < ws.len()
    &&& ws[i].1.contains(key)
    &&& forall|j: int|
        0 <= j < ws.len() && ws[j].1.contains(key) ==> ws[i].2 < ws[j].2 || (ws[i].2 == ws[j].2
            && i <= j)
}

/// The notification bus of blocking reads: each change of a key wakes the single
/// oldest waiter interested in it.
pub struct WaitQueue {
    waiters: Vec<Subscription>,
}

/// Whether `keys` holds `key`.
pub fn contains_bytes(keys: &Vec<Vec<u8>>, key: &[u8]) -> (r: bool)
    ensures
        r == byte_views(keys@).contains(key@),
{
    let mut i: usize = 0;
    while i < keys.len()
        invariant
            i <= keys@.len(),
            forall|j: int| 0 <= j < i ==> keys@[j]@ != key@,
        decreases keys@.len() - i,
    {
        if bytes_eq(keys[i].as_slice(), key) {
            assert(byte_views(keys@)[i as int] == key@);
            return true;
        }
        i = i + 1;
    }
    proof {
        if byte_views(keys@).contains(key@) {
            let j = choose|j: int| 0 <= j < byte_views(keys@).len() && byte_views(keys@)[j] == key@;
            assert(keys@[j]@ == key@);
        }
    }
    false
}

impl WaitQueue {
    pub closed spec fn view(&self) -> Seq<WaiterView> {
        self.waiters@.map_values(|w: Subscription| waiter_view(w))
    }

    pub fn new() -> (r: Self)
        ensures
            r@.len() == 0,
    {
        let r = WaitQueue { waiters: Vec::new() };
        assert(r@ =~= seq![]);
        r
    }

    /// Registers the waiter `id` on `keys` at time `timestamp`.
    pub fn subscribe(&mut self, id: u64, keys: Vec<Vec<u8>>, timestamp: u64)
        ensures
            final(self)@ == old(self)@.push((id, byte_views(keys@), timestamp as nat)),
    {
        let w = Subscription { id, keys, timestamp };
        self.waiters.push(w);
        assert(self@ =~= old(self)@.push(waiter_view(w)));
    }

    /// Removes the waiter `id` (it timed out or was served).
    pub fn unsubscribe(&mut self, id: u64)
        ensures
            forall|w: WaiterView| final(self)@.contains(w) <==> old(self)@.contains(w) && w.0 != id,
    {
        let mut i: usize = 0;
        while i < self.waiters.len()
            invariant
                i <= self.waiters@.len(),
                forall|j: int| 0 <= j < i ==> self@[j].0 != id,
                forall|w: WaiterView| self@.contains(w) && w.0 != id ==> old(self)@.contains(w),
                forall|w: WaiterView| old(self)@.contains(w) && w.0 != id ==> self@.contains(w),
            decreases self.waiters@.len() - i,
        {
            if self.waiters[i].id == id {
                let ghost before = self@;
                self.waiters.remove(i);
                proof {
                    assert(self@ =~= before.remove(i as int));
                    assert forall|w: WaiterView| self@.contains(w) implies before.contains(w) by {
                        let j = choose|j: int| 0 <= j < self@.len() && self@[j] == w;
                        if j < i {
                            assert(before[j] == w);
                        } else {
                            assert(before[j + 1] == w);
                        }
                    }
                    assert forall|w: WaiterView| before.contains(w) && w.0 != id implies self@.contains(w) by {
                        let j = choose|j: int| 0 <= j < before.len() && before[j] == w;
                        if j < i {
                            assert(self@[j] == w);
                        } else if j > i {
                            assert(self@[j - 1] == w);
                        }
                    }
                }
            } else {
                i = i + 1;
            }
        }
        proof {
            assert forall|w: WaiterView| self@.contains(w) implies w.0 != id by {
                let j = choose|j: int| 0 <= j < self@.len() && self@[j] == w;
            }
        }
    }

    /// Signals a change of `key`: removes and returns the oldest waiter interested in
    /// it; the others stay registered.
    pub fn broadcast(&mut self, key: &[u8]) -> (r: Option<u64>)
        ensures
            r is None ==> final(self)@ == old(self)@ && forall|j: int|
                0 <= j < old(self)@.len() ==> !(#[trigger] old(self)@[j]).1.contains(key@),
            r matches Some(id) ==> exists|i: int|
                #![trigger old(self)@[i]]
                is_first_waiter(old(self)@, key@, i) && old(self)@[i].0 == id && final(self)@
                    == old(self)@.remove(i),
    {
        let mut best: Option<usize> = None;
        let mut i: usize = 0;
        while i < self.waiters.len()
            invariant
                i <= self.waiters@.len(),
                self@ == old(self)@,
                best is None ==> forall|j: int| 0 <= j < i ==> !(#[trigger] self@[j]).1.contains(key@),
                best matches Some(b) ==> b < i && is_first_waiter(self@.take(i as int), key@, b as int),
            decreases self.waiters@.len() - i,
        {
            let interested = contains_bytes(&self.waiters[i].keys, key);
            assert(self@[i as int] == waiter_view(self.waiters@[i as int]));
            let ghost t = self@.take(i + 1);
            assert(t.take(i as int) =~= self@.take(i as int));
            if interested {
                match best {
                    None => {
                        best = Some(i);
                        proof {
                            assert forall|j: int| 0 <= j < t.len() && t[j].1.contains(key@) implies t[i as int].2 < t[j].2 || (t[i as int].2 == t[j].2 && i <= j) by {
                                assert(t[j] == self@[j]);
                            }
                        }
                    },
                    Some(b) => {
                        if self.waiters[i].timestamp < self.waiters[b].timestamp {
                            best = Some(i);
                            proof {
                                assert(self@[b as int] == waiter_view(self.waiters@[b as int]));
                                assert forall|j: int| 0 <= j < t.len() && t[j].1.contains(key@) implies t[i as int].2 < t[j].2 || (t[i as int].2 == t[j].2 && i <= j) by {
                                    if j < i {
                                        assert(t[j] == self@.take(i as int)[j]);
                                    }
                                }
                            }
                        } else {
                            proof {
                                assert(self@[b as int] == waiter_view(self.waiters@[b as int]));
                                assert forall|j: int| 0 <= j < t.len() && t[j].1.contains(key@) implies t[b as int].2 < t[j].2 || (t[b as int].2 == t[j].2 && b <= j) by {
                                    if j < i {
                                        assert(t[j] == self@.take(i as int)[j]);
                                    }
                                }
                            }
                        }
                    },
                }
            } else {
                proof {
                    if best is Some {
                        let b = best->0;
                        assert forall|j: int| 0 <= j < t.len() && t[j].1.contains(key@) implies t[b as int].2 < t[j].2 || (t[b as int].2 == t[j].2 && b <= j) by {
                            if j < i {
                                assert(t[j] == self@.take(i as int)[j]);
                            }
                        }
                    }
                }
            }
            i = i + 1;
        }
        assert(self@.take(i as int) =~= self@);
        match best {
            Some(b) => {
                let id = self.waiters[b].id;
                assert(self@[b as int] == waiter_view(self.waiters@[b as int]));
                let ghost before = self@;
                self.waiters.remove(b);
                assert(self@ =~= before.remove(b as int));
                Some(id)
            },
            None => None,
        }
    }
}

/// Blocking fairness: the waiter a change wakes registered before every other waiter
/// on that key (earlier time, or same time and earlier place).
pub proof fn lemma_wakes_earliest(ws: Seq<WaiterView>, key: Seq<u8>, i: int, j: int)
    requires
        is_first_waiter(ws, key, i),
        0 <= j < ws.len(),
        ws[j].1.contains(key),
        j != i,
    ensures
        ws[i].2 < ws[j].2 || (ws[i].2 == ws[j].2 && i < j),
{
}

} // verus!
