use vstd::prelude::*;
use crate::common::copy_bytes;
use crate::number::{parse_uint, uint_within};

verus! {

/// One stream entry: its ID `ms-seq` and a field/value pair.
pub struct StreamEntry {
    pub ms: u64,
    pub seq: u64,
    pub field: Vec<u8>,
    pub value: Vec<u8>,
}

/// Model of a stream entry: `(ms, seq, field, value)`.
pub type EntryView = (nat, nat, Seq<u8>, Seq<u8>);

/// Model of a stream: its entries in insertion order.
pub type StreamView = Seq<EntryView>;

pub open spec fn entry_view(e: StreamEntry) -> EntryView {
    (e.ms as nat, e.seq as nat, e.field@, e.value@)
}

pub open spec fn stream_views(s: Seq<StreamEntry>) -> StreamView {
    s.map_values(|e: StreamEntry| entry_view(e))
}

/// Stream IDs compare as the integer pair `(ms, seq)`.
pub open spec fn id_lt(a: (nat, nat), b: (nat, nat)) -> bool {
    a.0 < b.0 || (a.0 == b.0 && a.1 < b.1)
}

pub open spec fn id_of(e: EntryView) -> (nat, nat) {
    (e.0, e.1)
}

/// IDs are above `0-0` and strictly increase along the stream.
pub open spec fn wf_stream(s: StreamView) -> bool {
    &&& forall|i: int| 0 <= i < s.len() ==> id_lt((0, 0), #[trigger] id_of(s[i]))
    &&& forall|i: int, j: int| 0 <= i < j < s.len() ==> id_lt(id_of(s[i]), id_of(s[j]))
}

/// How `XADD` names the ID of a new entry.
#[derive(PartialEq, Eq, Structural)]
pub enum StreamId {
    /// `*`: from the clock.
    Generate,
    /// `ms-*`: the given time, next sequence number.
    TimeOnly(u64),
    /// `ms-seq`.
    Explicit(u64, u64),
}

/// Why `XADD` refused an entry.
#[derive(Debug, PartialEq, Eq, Structural)]
pub enum StreamError {
    /// The ID is not `*`, `ms-*` or `ms-seq`.
    InvalidId,
    /// The ID is `0-0`.
    IdZero,
    /// The ID is not above the stream's top entry.
    IdSmall,
    /// The key holds a value of another type.
    WrongType,
}

/// The single position of `-` in `s`, if `s` holds exactly one.
pub open spec fn dash_at(s: Seq<u8>, k: int) -> bool {
    0 <= k < s.len() && s[k] == 45 && forall|j: int| 0 <= j < s.len() && j != k ==> s[j] != 45
}

/// The ID forms `XADD` accepts.
pub open spec fn id_spec_of(s: Seq<u8>) -> Option<StreamId> {
    if s == seq![42u8] {
        Some(StreamId::Generate)
    } else if exists|k: int| dash_at(s, k) {
        let k = choose|k: int| dash_at(s, k);
        let left = s.take(k);
        let right = s.skip(k + 1);
        match uint_within(left, u64::MAX as int) {
            Some(ms) => if right == seq![42u8] {
                Some(StreamId::TimeOnly(ms as u64))
            } else {
                match uint_within(right, u64::MAX as int) {
                    Some(sq) => Some(StreamId::Explicit(ms as u64, sq as u64)),
                    None => None,
                }
            },
            None => None,
        }
    } else {
        None
    }
}

/// Reads an `XADD` ID.
pub fn parse_stream_id(s: &[u8]) -> (r: Option<StreamId>)
    ensures
        r == id_spec_of(s@),
{
    if s.len() == 1 && s[0] == 42 {
        assert(s@ =~= seq![42u8]);
        return Some(StreamId::Generate);
    }
    proof {
        if s@ == seq![42u8] {
            assert(s@.len() == 1 && s@[0] == 42);
        }
    }
    let mut k: usize = 0;
    let mut found: Option<usize> = None;
    let mut count: usize = 0;
    while k < s.len()
        invariant
            k <= s@.len(),
            count <= k,
            count == 0 ==> found is None && forall|j: int| 0 <= j < k ==> s@[j] != 45,
            count == 1 ==> (found matches Some(f) && f < k && s@[f as int] == 45 && forall|j: int|
                0 <= j < k && j != f ==> s@[j] != 45),
            count >= 2 ==> exists|a: int, b: int| 0 <= a < b < k && s@[a] == 45 && s@[b] == 45,
        decreases s@.len() - k,
    {
        if s[k] == 45 {
            if count == 1 {
                let ghost f = found->0;
                assert(s@[f as int] == 45 && s@[k as int] == 45);
            }
            if count < 2 {
                count = count + 1;
            }
            if count == 1 {
                found = Some(k);
            }
        }
        k = k + 1;
    }
    if count != 1 {
        proof {
            assert forall|k2: int| !dash_at(s@, k2) by {
                if dash_at(s@, k2) && count >= 2 {
                    let (a, b) = choose|a: int, b: int| 0 <= a < b < k && s@[a] == 45 && s@[b] == 45;
                    assert(a == k2 || s@[a] != 45);
                }
            }
        }
        return None;
    }
    let f = match found {
        Some(f) => f,
        None => {
            return None;
        },
    };
    proof {
        assert(dash_at(s@, f as int));
        assert forall|k2: int| dash_at(s@, k2) implies k2 == f by {}
    }
    let left = crate::common::copy_slice(s, 0, f);
    let right = crate::common::copy_slice(s, f + 1, s.len());
    assert(left@ =~= s@.take(f as int));
    assert(right@ =~= s@.skip(f + 1));
    match parse_uint(left.as_slice(), u64::MAX) {
        Some(ms) => {
            if right.len() == 1 && right[0] == 42 {
                assert(right@ =~= seq![42u8]);
                Some(StreamId::TimeOnly(ms))
            } else {
                proof {
                    if right@ == seq![42u8] {
                        assert(right@.len() == 1 && right@[0] == 42);
                    }
                }
                match parse_uint(right.as_slice(), u64::MAX) {
                    Some(sq) => Some(StreamId::Explicit(ms, sq)),
                    None => None,
                }
            }
        },
        None => None,
    }
}

/// The ID that `XADD` gives a new entry, from the requested form, the stream's top ID
/// (`0-0` when empty) and the clock.
pub open spec fn resolve_id(spec: StreamId, top: (nat, nat), now: nat) -> Result<(nat, nat), StreamError> {
    match spec {
        StreamId::Explicit(ms, sq) => if ms == 0 && sq == 0 {
            Err(StreamError::IdZero)
        } else if id_lt(top, (ms as nat, sq as nat)) {
            Ok((ms as nat, sq as nat))
        } else {
            Err(StreamError::IdSmall)
        },
        StreamId::TimeOnly(ms) => if (ms as nat) < top.0 {
            Err(StreamError::IdSmall)
        } else if ms as nat == top.0 {
            if top.1 < u64::MAX {
                Ok((ms as nat, top.1 + 1))
            } else {
                Err(StreamError::IdSmall)
            }
        } else {
            Ok((ms as nat, 0))
        },
        StreamId::Generate => if now > top.0 {
            Ok((now, 0))
        } else if top.1 < u64::MAX {
            Ok((top.0, top.1 + 1))
        } else {
            Err(StreamError::IdSmall)
        },
    }
}

/// Resolves a requested ID against the top ID `top` and the time `now` (see `resolve_id`).
pub fn get_stream_id(incoming: &StreamId, top: (u64, u64), now: u64) -> (r: Result<(u64, u64), StreamError>)
    ensures
        match resolve_id(*incoming, (top.0 as nat, top.1 as nat), now as nat) {
            Ok(id) => r matches Ok(x) && x.0 as nat == id.0 && x.1 as nat == id.1,
            Err(e) => r matches Err(x) && x == e,
        },
{
    match incoming {
        StreamId::Explicit(ms, sq) => {
            if *ms == 0 && *sq == 0 {
                Err(StreamError::IdZero)
            } else if *ms > top.0 || (*ms == top.0 && *sq > top.1) {
                Ok((*ms, *sq))
            } else {
                Err(StreamError::IdSmall)
            }
        },
        StreamId::TimeOnly(ms) => {
            if *ms < top.0 {
                Err(StreamError::IdSmall)
            } else if *ms == top.0 {
                if top.1 < u64::MAX {
                    Ok((*ms, top.1 + 1))
                } else {
                    Err(StreamError::IdSmall)
                }
            } else {
                Ok((*ms, 0))
            }
        },
        StreamId::Generate => {
            if now > top.0 {
                Ok((now, 0))
            } else if top.1 < u64::MAX {
                Ok((top.0, top.1 + 1))
            } else {
                Err(StreamError::IdSmall)
            }
        },
    }
}

/// The top ID of a stream, `0-0` when it is empty.
pub open spec fn top_id(s: StreamView) -> (nat, nat) {
    if s.len() == 0 {
        (0, 0)
    } else {
        id_of(s.last())
    }
}

/// The entries of `s` whose IDs lie in `lo..=hi`, in stream order.
pub open spec fn in_range(s: StreamView, lo: (nat, nat), hi: (nat, nat)) -> StreamView
    decreases s.len(),
{
    if s.len() == 0 {
        seq![]
    } else {
        let rest = in_range(s.drop_last(), lo, hi);
        if !id_lt(id_of(s.last()), lo) && !id_lt(hi, id_of(s.last())) {
            rest.push(s.last())
        } else {
            rest
        }
    }
}

pub fn copy_entry(e: &StreamEntry) -> (r: StreamEntry)
    ensures
        entry_view(r) == entry_view(*e),
{
    StreamEntry { ms: e.ms, seq: e.seq, field: copy_bytes(&e.field), value: copy_bytes(&e.value) }
}

/// The entries of `s` with IDs in `lo..=hi`.
pub fn entries_in_range(s: &Vec<StreamEntry>, lo: (u64, u64), hi: (u64, u64)) -> (r: Vec<StreamEntry>)
    ensures
        stream_views(r@) == in_range(stream_views(s@), (lo.0 as nat, lo.1 as nat), (hi.0 as nat, hi.1 as nat)),
{
    let ghost lo_n = (lo.0 as nat, lo.1 as nat);
    let ghost hi_n = (hi.0 as nat, hi.1 as nat);
    let mut out: Vec<StreamEntry> = Vec::new();
    let mut i: usize = 0;
    while i < s.len()
        invariant
            i <= s@.len(),
            lo_n == (lo.0 as nat, lo.1 as nat),
            hi_n == (hi.0 as nat, hi.1 as nat),
            stream_views(out@) == in_range(stream_views(s@).take(i as int), lo_n, hi_n),
        decreases s@.len() - i,
    {
        let e = &s[i];
        let ghost before = out@;
        proof {
            assert(stream_views(s@).take(i + 1).drop_last() =~= stream_views(s@).take(i as int));
            assert(stream_views(s@).take(i + 1).last() == entry_view(s@[i as int]));
        }
        let above_lo = e.ms > lo.0 || (e.ms == lo.0 && e.seq >= lo.1);
        let below_hi = e.ms < hi.0 || (e.ms == hi.0 && e.seq <= hi.1);
        proof {
            let t = stream_views(s@).take(i + 1);
            assert(id_of(t.last()) == (e.ms as nat, e.seq as nat));
            assert((above_lo && below_hi) == (!id_lt(id_of(t.last()), lo_n) && !id_lt(hi_n, id_of(t.last()))));
        }
        if above_lo && below_hi {
            let c = copy_entry(e);
            out.push(c);
            assert(stream_views(out@) =~= stream_views(before).push(entry_view(c)));
        }
        i = i + 1;
    }
    assert(stream_views(s@).take(i as int) =~= stream_views(s@));
    out
}

/// Reads an `XRANGE` bound: `-` and `+` stand for the smallest and largest IDs, `ms` for
/// `ms-0` as a start and `ms-<max>` as an end.
pub open spec fn bound_of(s: Seq<u8>, is_end: bool) -> Option<(nat, nat)> {
    if s == seq![45u8] {
        Some((0, 0))
    } else if s == seq![43u8] {
        Some((u64::MAX as nat, u64::MAX as nat))
    } else {
        match id_spec_of(s) {
            Some(StreamId::Explicit(ms, sq)) => Some((ms as nat, sq as nat)),
            _ => if exists|k: int| dash_at(s, k) {
                None
            } else {
                match uint_within(s, u64::MAX as int) {
                    Some(ms) => Some((ms, if is_end { u64::MAX as nat } else { 0 })),
                    None => None,
                }
            },
        }
    }
}

pub fn parse_bound(s: &[u8], is_end: bool) -> (r: Option<(u64, u64)>)
    ensures
        match bound_of(s@, is_end) {
            Some(b) => r matches Some(x) && x.0 as nat == b.0 && x.1 as nat == b.1,
            None => r is None,
        },
{
    if s.len() == 1 && s[0] == 45 {
        assert(s@ =~= seq![45u8]);
        return Some((0, 0));
    }
    if s.len() == 1 && s[0] == 43 {
        assert(s@ =~= seq![43u8]);
        assert(s@ != seq![45u8]);
        return Some((u64::MAX, u64::MAX));
    }
    proof {
        if s@ == seq![45u8] || s@ == seq![43u8] {
            assert(s@.len() == 1);
        }
    }
    match parse_stream_id(s) {
        Some(StreamId::Explicit(ms, sq)) => {
            return Some((ms, sq));
        },
        _ => {},
    }
    let mut k: usize = 0;
    while k < s.len()
        invariant
            k <= s@.len(),
            forall|j: int| 0 <= j < k ==> s@[j] != 45,
            !(id_spec_of(s@) matches Some(StreamId::Explicit(_, _))),
            s@ != seq![45u8] && s@ != seq![43u8],
        decreases s@.len() - k,
    {
        if s[k] == 45 {
            proof {
                assert forall|k2: int| dash_at(s@, k2) implies k2 == k by {}
            }
            assert(s@[k as int] == 45);
            proof {
                if exists|k2: int| dash_at(s@, k2) {
                } else {
                    assert(!dash_at(s@, k as int));
                }
            }
            proof {
                let t = if s@.len() > 0 && s@[0] == 43 {
                    s@.drop_first()
                } else {
                    s@
                };
                if s@[0] == 43 {
                    assert(k >= 1);
                    assert(t[k - 1] == s@[k as int]);
                    assert(!crate::protocol::is_digit(t[k - 1]));
                } else {
                    assert(t[k as int] == s@[k as int]);
                    assert(!crate::protocol::is_digit(t[k as int]));
                }
                assert(!crate::protocol::all_digits(t));
                assert(uint_within(s@, u64::MAX as int) is None);
                assert(!(id_spec_of(s@) matches Some(StreamId::Explicit(_, _))));
                assert(s@ != seq![45u8] && s@ != seq![43u8]);
                assert(bound_of(s@, is_end) is None);
            }
            return None;
        }
        k = k + 1;
    }
    match parse_uint(s, u64::MAX) {
        Some(ms) => Some((
            ms,
            if is_end {
                u64::MAX
            } else {
                0
            },
        )),
        None => None,
    }
}

/// Relies on `std::time::SystemTime::now`: milliseconds since the Unix epoch. The clock
/// may go backwards, so nothing is promised of the value.
#[verifier::external_body]
pub fn get_unix_ms() -> (r: u64) {
    std::time::SystemTime::now().duration_since(std::time::UNIX_EPOCH).map(|d| d.as_millis() as u64).unwrap_or(0)
}

} // verus!
