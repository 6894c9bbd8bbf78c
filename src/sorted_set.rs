use vstd::prelude::*;
use crate::common::{copy_bytes, range_indices};
use crate::store::{bytes_eq, range_bounds};

verus! {

/// Members with integer scores, kept ordered by `(score, member)`.
pub struct SortedSet {
    items: Vec<(i64, Vec<u8>)>,
}

/// Model of a sorted set: `(score, member)` pairs in index order.
pub type ZSetView = Seq<(int, Seq<u8>)>;

/// Byte strings in lexicographic order.
pub open spec fn bytes_lt(a: Seq<u8>, b: Seq<u8>) -> bool
    decreases a.len(),
{
    if a.len() == 0 {
        b.len() > 0
    } else if b.len() == 0 {
        false
    } else if a[0] != b[0] {
        a[0] < b[0]
    } else {
        bytes_lt(a.drop_first(), b.drop_first())
    }
}

/// Index order: by score, ties broken by member.
pub open spec fn pair_lt(a: (int, Seq<u8>), b: (int, Seq<u8>)) -> bool {
    a.0 < b.0 || (a.0 == b.0 && bytes_lt(a.1, b.1))
}

/// Strictly ordered by `pair_lt`, with each member once.
pub open spec fn wf_zset(z: ZSetView) -> bool {
    &&& forall|i: int, j: int| 0 <= i < j < z.len() ==> pair_lt(z[i], z[j])
    &&& forall|i: int, j: int| 0 <= i < j < z.len() ==> z[i].1 != z[j].1
}

impl SortedSet {
    pub closed spec fn view(&self) -> ZSetView {
        self.items@.map_values(|p: (i64, Vec<u8>)| (p.0 as int, p.1@))
    }

    pub open spec fn wf(&self) -> bool {
        wf_zset(self@)
    }
}

pub proof fn lemma_bytes_lt_irrefl(a: Seq<u8>)
    ensures
        !bytes_lt(a, a),
    decreases a.len(),
{
    if a.len() > 0 {
        lemma_bytes_lt_irrefl(a.drop_first());
    }
}

pub proof fn lemma_bytes_lt_trans(a: Seq<u8>, b: Seq<u8>, c: Seq<u8>)
    requires
        bytes_lt(a, b),
        bytes_lt(b, c),
    ensures
        bytes_lt(a, c),
    decreases a.len(),
{
    if a.len() > 0 && b.len() > 0 && c.len() > 0 && a[0] == b[0] && b[0] == c[0] {
        lemma_bytes_lt_trans(a.drop_first(), b.drop_first(), c.drop_first());
    }
}

pub proof fn lemma_bytes_lt_total(a: Seq<u8>, b: Seq<u8>)
    ensures
        a == b || bytes_lt(a, b) || bytes_lt(b, a),
    decreases a.len(),
{
    if a.len() == 0 || b.len() == 0 {
        if a.len() == 0 && b.len() == 0 {
            assert(a =~= b);
        }
    } else if a[0] == b[0] {
        lemma_bytes_lt_total(a.drop_first(), b.drop_first());
        if a.drop_first() == b.drop_first() {
            assert(a.drop_first().len() == b.drop_first().len());
            assert(a.len() == b.len());
            assert forall|i: int| 0 <= i < a.len() implies a[i] == b[i] by {
                if i > 0 {
                    assert(a[i] == a.drop_first()[i - 1]);
                    assert(b[i] == b.drop_first()[i - 1]);
                }
            }
            assert(a =~= b);
        }
    }
}

pub proof fn lemma_pair_order(a: (int, Seq<u8>), b: (int, Seq<u8>), c: (int, Seq<u8>))
    ensures
        !pair_lt(a, a),
        pair_lt(a, b) && pair_lt(b, c) ==> pair_lt(a, c),
        a == b || pair_lt(a, b) || pair_lt(b, a),
        pair_lt(a, b) ==> !pair_lt(b, a),
{
    lemma_bytes_lt_irrefl(a.1);
    lemma_bytes_lt_total(a.1, b.1);
    if pair_lt(a, b) && pair_lt(b, c) && a.0 == b.0 && b.0 == c.0 {
        lemma_bytes_lt_trans(a.1, b.1, c.1);
    }
    if pair_lt(a, b) && pair_lt(b, a) {
        if a.0 == b.0 {
            lemma_bytes_lt_trans(a.1, b.1, a.1);
        }
    }
}

/// Compares two byte strings in lexicographic order.
pub fn bytes_less(a: &[u8], b: &[u8]) -> (r: bool)
    ensures
        r == bytes_lt(a@, b@),
{
    let mut i: usize = 0;
    assert(a@.skip(0) =~= a@);
    assert(b@.skip(0) =~= b@);
    while i < a.len() && i < b.len()
        invariant
            i <= a@.len(),
            i <= b@.len(),
            bytes_lt(a@, b@) == bytes_lt(a@.skip(i as int), b@.skip(i as int)),
        decreases a@.len() - i,
    {
        if a[i] != b[i] {
            assert(a@.skip(i as int)[0] == a@[i as int]);
            assert(b@.skip(i as int)[0] == b@[i as int]);
            return a[i] < b[i];
        }
        assert(a@.skip(i as int).drop_first() =~= a@.skip(i + 1));
        assert(b@.skip(i as int).drop_first() =~= b@.skip(i + 1));
        i = i + 1;
    }
    i == a.len() && i < b.len()
}

fn item_less(a: &(i64, Vec<u8>), b: &(i64, Vec<u8>)) -> (r: bool)
    ensures
        r == pair_lt((a.0 as int, a.1@), (b.0 as int, b.1@)),
{
    a.0 < b.0 || (a.0 == b.0 && bytes_less(a.1.as_slice(), b.1.as_slice()))
}

/// The members of a sorted set, in index order.
pub open spec fn members(z: ZSetView) -> Seq<Seq<u8>> {
    z.map_values(|p: (int, Seq<u8>)| p.1)
}

impl SortedSet {
    /// An empty sorted set.
    pub fn new() -> (r: Self)
        ensures
            r.wf(),
            r@.len() == 0,
    {
        let r = SortedSet { items: Vec::new() };
        assert(r@ =~= seq![]);
        r
    }

    /// A copy of this set.
    pub fn copy(&self) -> (r: Self)
        ensures
            r@ == self@,
    {
        let mut items: Vec<(i64, Vec<u8>)> = Vec::new();
        let mut i: usize = 0;
        while i < self.items.len()
            invariant
                i <= self.items@.len(),
                items@.len() == i,
                forall|j: int| 0 <= j < i ==> #[trigger] items@[j].0 == self.items@[j].0 && items@[j].1@
                    == self.items@[j].1@,
            decreases self.items@.len() - i,
        {
            items.push((self.items[i].0, copy_bytes(&self.items[i].1)));
            i = i + 1;
        }
        let r = SortedSet { items };
        assert(r@ =~= self@);
        r
    }

    pub fn len(&self) -> (r: usize)
        ensures
            r == self@.len(),
    {
        self.items.len()
    }

    /// The position of `member`, if present.
    pub fn get_rank(&self, member: &[u8]) -> (r: Option<usize>)
        requires
            self.wf(),
        ensures
            r matches Some(i) ==> i < self@.len() && self@[i as int].1 == member@,
            r is None ==> forall|i: int| 0 <= i < self@.len() ==> self@[i].1 != member@,
    {
        let mut i: usize = 0;
        while i < self.items.len()
            invariant
                i <= self@.len(),
                self@.len() == self.items@.len(),
                forall|j: int| 0 <= j < i ==> self@[j].1 != member@,
            decreases self.items@.len() - i,
        {
            if bytes_eq(self.items[i].1.as_slice(), member) {
                return Some(i);
            }
            i = i + 1;
        }
        None
    }

    /// The score of `member`, if present.
    pub fn get_score(&self, member: &[u8]) -> (r: Option<i64>)
        requires
            self.wf(),
        ensures
            r matches Some(sc) ==> self@.contains((sc as int, member@)),
            r is None ==> forall|i: int| 0 <= i < self@.len() ==> self@[i].1 != member@,
    {
        match self.get_rank(member) {
            Some(i) => {
                let sc = self.items[i].0;
                assert(self@[i as int] == (sc as int, member@));
                Some(sc)
            },
            None => None,
        }
    }

    /// Removes `member`; returns 1 when it was present, else 0.
    pub fn remove(&mut self, member: &[u8]) -> (r: i64)
        requires
            old(self).wf(),
        ensures
            final(self).wf(),
            r == 1 <==> exists|i: int| 0 <= i < old(self)@.len() && old(self)@[i].1 == member@,
            r == 0 || r == 1,
            forall|p: (int, Seq<u8>)|
                final(self)@.contains(p) <==> (old(self)@.contains(p) && p.1 != member@),
    {
        match self.get_rank(member) {
            Some(i) => {
                let ghost z = self@;
                self.items.remove(i);
                proof {
                    assert(self@ =~= z.remove(i as int));
                    assert forall|p: (int, Seq<u8>)|
                        self@.contains(p) <==> (z.contains(p) && p.1 != member@) by {
                        if z.contains(p) && p.1 != member@ {
                            let j = choose|j: int| 0 <= j < z.len() && z[j] == p;
                            if j < i {
                                assert(self@[j] == p);
                            } else {
                                assert(j != i);
                                assert(self@[j - 1] == p);
                            }
                        }
                        if self@.contains(p) {
                            let j = choose|j: int| 0 <= j < self@.len() && self@[j] == p;
                            if j < i {
                                assert(z[j] == p);
                            } else {
                                assert(z[j + 1] == p);
                            }
                        }
                    }
                }
                1
            },
            None => {
                proof {
                    assert forall|p: (int, Seq<u8>)|
                        self@.contains(p) <==> (self@.contains(p) && p.1 != member@) by {
                        if self@.contains(p) {
                            let j = choose|j: int| 0 <= j < self@.len() && self@[j] == p;
                        }
                    }
                }
                0
            },
        }
    }

    /// Sets the score of `member`, adding it when absent; returns 1 when it was added,
    /// 0 when it was already there.
    pub fn insert(&mut self, member: Vec<u8>, score: i64) -> (r: i64)
        requires
            old(self).wf(),
        ensures
            final(self).wf(),
            r == 1 <==> forall|i: int| 0 <= i < old(self)@.len() ==> old(self)@[i].1 != member@,
            r == 0 || r == 1,
            forall|p: (int, Seq<u8>)|
                final(self)@.contains(p) <==> (p == (score as int, member@) || (old(self)@.contains(p)
                    && p.1 != member@)),
    {
        let removed = self.remove(member.as_slice());
        let ghost z = self@;
        proof {
            assert forall|j: int| 0 <= j < z.len() implies z[j].1 != member@ by {
                assert(z.contains(z[j]));
            }
        }
        let ghost x = (score as int, member@);
        let item = (score, member);
        let mut p: usize = 0;
        while p < self.items.len() && !item_less(&item, &self.items[p])
            invariant
                p <= self.items@.len(),
                self@ == z,
                x == (item.0 as int, item.1@),
                wf_zset(z),
                forall|j: int| 0 <= j < z.len() ==> z[j].1 != x.1,
                forall|j: int| 0 <= j < p ==> pair_lt(z[j], x),
            decreases self.items@.len() - p,
        {
            proof {
                lemma_pair_order(z[p as int], x, x);
                assert(z[p as int] != x);
            }
            p = p + 1;
        }
        self.items.insert(p, item);
        proof {
            assert(self@ =~= z.insert(p as int, x));
            let n = self@;
            assert forall|a: int, b: int| 0 <= a < b < n.len() implies pair_lt(n[a], n[b]) by {
                if b == p {
                    assert(n[a] == z[a]);
                } else if a == p {
                    assert(n[b] == z[b - 1]);
                    if b - 1 > p {
                        lemma_pair_order(x, z[p as int], z[b - 1]);
                    }
                } else {
                    let za = if a < p { a } else { a - 1 };
                    let zb = if b < p { b } else { b - 1 };
                    assert(n[a] == z[za]);
                    assert(n[b] == z[zb]);
                }
            }
            assert forall|a: int, b: int| 0 <= a < b < n.len() implies n[a].1 != n[b].1 by {
                if b == p {
                    assert(n[a] == z[a]);
                } else if a == p {
                    assert(n[b] == z[b - 1]);
                } else {
                    let za = if a < p { a } else { a - 1 };
                    let zb = if b < p { b } else { b - 1 };
                    assert(n[a] == z[za]);
                    assert(n[b] == z[zb]);
                }
            }
            assert forall|q: (int, Seq<u8>)| n.contains(q) <==> (q == x || z.contains(q)) by {
                if z.contains(q) {
                    let j = choose|j: int| 0 <= j < z.len() && z[j] == q;
                    if j < p {
                        assert(n[j] == q);
                    } else {
                        assert(n[j + 1] == q);
                    }
                }
                if q == x {
                    assert(n[p as int] == x);
                }
                if n.contains(q) {
                    let j = choose|j: int| 0 <= j < n.len() && n[j] == q;
                    if j < p {
                        assert(z[j] == q);
                    } else if j > p {
                        assert(z[j - 1] == q);
                    }
                }
            }
        }
        1 - removed
    }

    /// The members at the positions that `start` and `end` select (see `range_indices`).
    pub fn list_members(&self, start: isize, end: isize) -> (r: Vec<Vec<u8>>)
        requires
            self.wf(),
        ensures
            r@.len() == zrange(self@, start as int, end as int).len(),
            forall|i: int| 0 <= i < r@.len() ==> #[trigger] r@[i]@ == zrange(self@, start as int, end as int)[i],
    {
        let mut out: Vec<Vec<u8>> = Vec::new();
        let n = self.items.len();
        match range_bounds(start, end, n) {
            Some((a, b)) => {
                let mut j: usize = a;
                while j <= b
                    invariant
                        a <= j <= b + 1,
                        b < self@.len(),
                        n == self@.len(),
                        self@.len() == self.items@.len(),
                        range_indices(start as int, end as int, self@.len() as int) == Some((a as int, b as int)),
                        out@.len() == j - a,
                        forall|i: int| 0 <= i < out@.len() ==> #[trigger] out@[i]@ == self@[a + i].1,
                    decreases b + 1 - j,
                {
                    out.push(copy_bytes(&self.items[j].1));
                    j = j + 1;
                }
            },
            None => {},
        }
        out
    }
}

/// The members that a `ZRANGE` from `start` to `end` returns.
pub open spec fn zrange(z: ZSetView, start: int, end: int) -> Seq<Seq<u8>> {
    match range_indices(start, end, z.len() as int) {
        Some((a, b)) => members(z).subrange(a, b + 1),
        None => seq![],
    }
}

} // verus!
