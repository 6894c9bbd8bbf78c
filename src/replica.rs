use vstd::prelude::*;

verus! {

/// What the master knows of one replica link.
pub struct ReplicaState {
    pub id: u64,
    /// Bytes of write commands sent to this replica.
    pub expected_offset: u64,
    /// The offset the replica last acknowledged.
    pub latest_offset: u64,
}

/// Model of a replica: `(id, expected offset, latest offset)`.
pub type ReplicaView = (u64, nat, nat);

pub open spec fn replica_view(r: ReplicaState) -> ReplicaView {
    (r.id, r.expected_offset as nat, r.latest_offset as nat)
}

/// A replica is in sync when it has acknowledged every byte sent to it.
pub open spec fn in_sync(r: ReplicaView) -> bool {
    r.2 >= r.1
}

/// The number of replicas in sync among `rs`.
pub open spec fn synced_count(rs: Seq<ReplicaView>) -> nat
    decreases rs.len(),
{
    if rs.len() == 0 {
        0
    } else {
        synced_count(rs.drop_last()) + if in_sync(rs.last()) {
            1nat
        } else {
            0nat
        }
    }
}

pub proof fn lemma_synced_count_le(rs: Seq<ReplicaView>)
    ensures
        synced_count(rs) <= rs.len(),
        (forall|i: int| 0 <= i < rs.len() ==> in_sync(#[trigger] rs[i])) ==> synced_count(rs)
            == rs.len(),
    decreases rs.len(),
{
    if rs.len() > 0 {
        lemma_synced_count_le(rs.drop_last());
        if forall|i: int| 0 <= i < rs.len() ==> in_sync(#[trigger] rs[i]) {
            assert forall|i: int| 0 <= i < rs.drop_last().len() implies in_sync(
                #[trigger] rs.drop_last()[i],
            ) by {
                assert(rs.drop_last()[i] == rs[i]);
            }
            assert(in_sync(rs[rs.len() - 1]));
        }
    }
}

/// `rs` without the replicas named `id`.
pub open spec fn without(rs: Seq<ReplicaView>, id: u64) -> Seq<ReplicaView>
    decreases rs.len(),
{
    if rs.len() == 0 {
        rs
    } else if rs.last().0 != id {
        without(rs.drop_last(), id).push(rs.last())
    } else {
        without(rs.drop_last(), id)
    }
}

/// What the next round of `WAIT` does.
pub enum WaitAction {
    /// Reply with this count.
    Done(i64),
    /// Poll again after a short sleep.
    Poll,
}

/// The replicas attached to a master, and the master's replication offset.
pub struct ReplicaManager {
    replicas: Vec<ReplicaState>,
    master_repl_offset: u64,
}

impl ReplicaManager {
    pub closed spec fn view(&self) -> Seq<ReplicaView> {
        self.replicas@.map_values(|r: ReplicaState| replica_view(r))
    }

    pub closed spec fn offset(&self) -> nat {
        self.master_repl_offset as nat
    }

    /// No replica was sent more than the master's offset.
    pub open spec fn wf(&self) -> bool {
        forall|i: int| 0 <= i < self@.len() ==> #[trigger] self@[i].1 <= self.offset()
    }

    pub fn new() -> (r: Self)
        ensures
            r.wf(),
            r@.len() == 0,
            r.offset() == 0,
    {
        let r = ReplicaManager { replicas: Vec::new(), master_repl_offset: 0 };
        assert(r@ =~= seq![]);
        r
    }

    pub fn master_offset(&self) -> (r: u64)
        ensures
            r == self.offset(),
    {
        self.master_repl_offset
    }

    /// Attaches a replica that has received the snapshot: nothing is owed to it yet.
    pub fn add_channel(&mut self, id: u64)
        requires
            old(self).wf(),
        ensures
            final(self).wf(),
            final(self)@ == old(self)@.push((id, 0, 0)),
            final(self).offset() == old(self).offset(),
    {
        self.replicas.push(ReplicaState { id, expected_offset: 0, latest_offset: 0 });
        assert(self@ =~= old(self)@.push((id, 0, 0)));
    }

    /// Detaches the replica `id` (its link closed).
    pub fn remove_channel(&mut self, id: u64)
        requires
            old(self).wf(),
        ensures
            final(self).wf(),
            final(self).offset() == old(self).offset(),
            final(self)@ == without(old(self)@, id),
    {
        let mut kept: Vec<ReplicaState> = Vec::new();
        let mut i: usize = 0;
        while i < self.replicas.len()
            invariant
                i <= self.replicas@.len(),
                self@ == old(self)@,
                self.replicas@.len() == old(self)@.len(),
                kept@.map_values(|r: ReplicaState| replica_view(r)) == without(old(self)@.take(i as int), id),
                old(self).wf(),
                forall|k: int| 0 <= k < kept@.len() ==> #[trigger] kept@[k].expected_offset <= old(self).offset(),
            decreases self.replicas@.len() - i,
        {
            let r = &self.replicas[i];
            let ghost before = kept@;
            proof {
                assert(old(self)@.take(i + 1).drop_last() =~= old(self)@.take(i as int));
                assert(old(self)@.take(i + 1).last() == old(self)@[i as int]);
                assert(self@[i as int].1 <= old(self).offset());
            }
            if r.id != id {
                kept.push(ReplicaState { id: r.id, expected_offset: r.expected_offset, latest_offset: r.latest_offset });
                assert(kept@.map_values(|r: ReplicaState| replica_view(r)) =~= before.map_values(|r: ReplicaState| replica_view(r)).push(replica_view(self.replicas@[i as int])));
            }
            i = i + 1;
        }
        assert(old(self)@.take(i as int) =~= old(self)@);
        self.replicas = kept;
        proof {
            assert forall|k: int| 0 <= k < self@.len() implies #[trigger] self@[k].1 <= self.offset() by {
                assert(self@[k] == replica_view(self.replicas@[k]));
            }
        }
    }

    /// Records an acknowledged offset from the replica `id`.
    pub fn update_latest_offset(&mut self, id: u64, offset: u64)
        requires
            old(self).wf(),
        ensures
            final(self).wf(),
            final(self).offset() == old(self).offset(),
            final(self)@.len() == old(self)@.len(),
            forall|i: int|
                0 <= i < old(self)@.len() ==> #[trigger] final(self)@[i] == if old(self)@[i].0 == id {
                    (id, old(self)@[i].1, offset as nat)
                } else {
                    old(self)@[i]
                },
    {
        let mut i: usize = 0;
        while i < self.replicas.len()
            invariant
                i <= self.replicas@.len(),
                self.replicas@.len() == old(self)@.len(),
                self.master_repl_offset == old(self).master_repl_offset,
                forall|k: int|
                    0 <= k < old(self)@.len() ==> #[trigger] self@[k] == if k < i && old(self)@[k].0 == id {
                        (id, old(self)@[k].1, offset as nat)
                    } else {
                        old(self)@[k]
                    },
            decreases self.replicas@.len() - i,
        {
            assert(self@[i as int] == old(self)@[i as int]);
            if self.replicas[i].id == id {
                let e = self.replicas[i].expected_offset;
                let ghost before = self@;
                let nr = ReplicaState { id, expected_offset: e, latest_offset: offset };
                self.replicas.set(i, nr);
                assert(self@ =~= before.update(i as int, replica_view(nr)));
            }
            i = i + 1;
        }
    }

    /// Accounts for `len` bytes of a write command sent to every replica: each one's
    /// expected offset and the master's offset advance by `len`.
    pub fn broadcast(&mut self, len: u64)
        requires
            old(self).wf(),
            old(self).offset() + len <= u64::MAX,
        ensures
            final(self).wf(),
            final(self).offset() == old(self).offset() + len,
            final(self)@.len() == old(self)@.len(),
            forall|i: int|
                0 <= i < old(self)@.len() ==> #[trigger] final(self)@[i] == (
                    old(self)@[i].0,
                    (old(self)@[i].1 + len) as nat,
                    old(self)@[i].2,
                ),
    {
        self.master_repl_offset = self.master_repl_offset + len;
        let mut i: usize = 0;
        while i < self.replicas.len()
            invariant
                i <= self.replicas@.len(),
                self.replicas@.len() == old(self)@.len(),
                self.master_repl_offset == old(self).master_repl_offset + len,
                old(self).wf(),
                old(self).offset() + len <= u64::MAX,
                forall|k: int|
                    0 <= k < old(self)@.len() ==> #[trigger] self@[k] == if k < i {
                        (old(self)@[k].0, (old(self)@[k].1 + len) as nat, old(self)@[k].2)
                    } else {
                        old(self)@[k]
                    },
            decreases self.replicas@.len() - i,
        {
            let r = &self.replicas[i];
            assert(self@[i as int] == old(self)@[i as int]);
            assert(self@[i as int] == replica_view(self.replicas@[i as int]));
            assert(old(self)@[i as int].1 <= old(self).offset());
            let next = ReplicaState {
                id: r.id,
                expected_offset: r.expected_offset + len,
                latest_offset: r.latest_offset,
            };
            let ghost before = self@;
            self.replicas.set(i, next);
            assert(self@ =~= before.update(i as int, replica_view(next)));
            i = i + 1;
        }
        proof {
            assert forall|k: int| 0 <= k < self@.len() implies #[trigger] self@[k].1 <= self.offset() by {
                assert(old(self)@[k].1 <= old(self).offset());
            }
        }
    }

    /// The number of attached replicas.
    pub fn count(&self) -> (r: usize)
        ensures
            r == self@.len(),
    {
        self.replicas.len()
    }

    /// The number of replicas that have acknowledged everything sent to them.
    pub fn acked_count(&self) -> (r: usize)
        ensures
            r == synced_count(self@),
            r <= self@.len(),
    {
        let mut n: usize = 0;
        let mut i: usize = 0;
        while i < self.replicas.len()
            invariant
                i <= self.replicas@.len(),
                n == synced_count(self@.take(i as int)),
                n <= i,
            decreases self.replicas@.len() - i,
        {
            assert(self@.take(i + 1).drop_last() =~= self@.take(i as int));
            if self.replicas[i].latest_offset >= self.replicas[i].expected_offset {
                n = n + 1;
            }
            i = i + 1;
        }
        assert(self@.take(i as int) =~= self@);
        n
    }

    /// One round of `WAIT num_replicas timeout_ms`, `elapsed_ms` after it began: done
    /// with the count of replicas in sync once it reaches `num_replicas` or once the
    /// timeout has passed (a timeout of 0 never passes); otherwise poll again.
    pub fn wait_step(&self, num_replicas: i64, elapsed_ms: u64, timeout_ms: u64) -> (r: WaitAction)
        requires
            self@.len() <= i64::MAX,
        ensures
            ({
                let k = synced_count(self@);
                if k >= num_replicas || (timeout_ms != 0 && elapsed_ms >= timeout_ms) {
                    r == WaitAction::Done(k as i64)
                } else {
                    r == WaitAction::Poll
                }
            }),
            r matches WaitAction::Done(k) ==> 0 <= k <= self@.len(),
    {
        let k = self.acked_count();
        proof {
            lemma_synced_count_le(self@);
        }
        if (k as i128) >= (num_replicas as i128) || (timeout_ms != 0 && elapsed_ms >= timeout_ms) {
            WaitAction::Done(k as i64)
        } else {
            WaitAction::Poll
        }
    }
}

/// `WAIT` never reports more replicas than are attached, and when every replica has
/// acknowledged all it was sent, it reports all of them at once.
pub proof fn lemma_wait_correct(m: ReplicaManager, num_replicas: i64, timeout_ms: u64)
    requires
        m.wf(),
    ensures
        synced_count(m@) <= m@.len(),
        (forall|i: int| 0 <= i < m@.len() ==> in_sync(#[trigger] m@[i])) && num_replicas <= m@.len()
            ==> synced_count(m@) == m@.len() && synced_count(m@) >= num_replicas,
{
    lemma_synced_count_le(m@);
}

} // verus!
