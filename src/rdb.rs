use vstd::prelude::*;
use crate::common::{copy_slice, decimal_bytes};
use crate::protocol::{decimal, push_decimal};

verus! {

pub open spec fn is_hex(c: u8) -> bool {
    (48 <= c <= 57) || (97 <= c <= 102) || (65 <= c <= 70)
}

pub open spec fn hex_val(c: u8) -> nat {
    if 48 <= c <= 57 {
        (c - 48) as nat
    } else if 97 <= c <= 102 {
        (c - 87) as nat
    } else {
        (c - 55) as nat
    }
}

/// The bytes that a string of hexadecimal digit pairs spells.
pub open spec fn hex_bytes(h: Seq<u8>) -> Seq<u8> {
    Seq::new(h.len() / 2, |i: int| (hex_val(h[2 * i]) * 16 + hex_val(h[2 * i + 1])) as u8)
}

fn hex_digit(c: u8) -> (r: u8)
    requires
        is_hex(c),
    ensures
        r as nat == hex_val(c),
        r < 16,
{
    if 48 <= c && c <= 57 {
        c - 48
    } else if 97 <= c && c <= 102 {
        c - 87
    } else {
        c - 55
    }
}

/// Decodes pairs of hexadecimal digits into bytes.
pub fn hex_to_bytes(hex: &[u8]) -> (r: Vec<u8>)
    requires
        hex@.len() % 2 == 0,
        forall|i: int| 0 <= i < hex@.len() ==> is_hex(#[trigger] hex@[i]),
    ensures
        r@ == hex_bytes(hex@),
{
    let mut out: Vec<u8> = Vec::new();
    let mut i: usize = 0;
    while i + 1 < hex.len()
        invariant
            hex@.len() % 2 == 0,
            forall|k: int| 0 <= k < hex@.len() ==> is_hex(#[trigger] hex@[k]),
            i % 2 == 0,
            i <= hex@.len(),
            out@.len() == i / 2,
            forall|k: int| 0 <= k < out@.len() ==> out@[k] == (hex_val(hex@[2 * k]) * 16 + hex_val(hex@[2 * k + 1])) as u8,
        decreases hex@.len() - i,
    {
        let hi = hex_digit(hex[i]);
        let lo = hex_digit(hex[i + 1]);
        out.push(hi * 16 + lo);
        i = i + 2;
    }
    assert(out@ =~= hex_bytes(hex@));
    out
}

/// The hexadecimal text of an empty snapshot: magic `REDIS0011`, auxiliary fields,
/// the end marker `0xFF` and an 8-byte checksum.
pub open spec fn empty_rdb_hex() -> Seq<u8> {
    seq![
        53u8, 50, 52, 53, 52, 52, 52, 57, 53, 51, 51, 48, 51, 48, 51, 49, 51, 49, 102, 97,
        48, 57, 55, 50, 54, 53, 54, 52, 54, 57, 55, 51, 50, 100, 55, 54, 54, 53, 55, 50,
        48, 53, 51, 55, 50, 101, 51, 50, 50, 101, 51, 48, 102, 97, 48, 97, 55, 50, 54, 53,
        54, 52, 54, 57, 55, 51, 50, 100, 54, 50, 54, 57, 55, 52, 55, 51, 99, 48, 52, 48,
        102, 97, 48, 53, 54, 51, 55, 52, 54, 57, 54, 100, 54, 53, 99, 50, 54, 100, 48, 56,
        98, 99, 54, 53, 102, 97, 48, 56, 55, 53, 55, 51, 54, 53, 54, 52, 50, 100, 54, 100,
        54, 53, 54, 100, 99, 50, 98, 48, 99, 52, 49, 48, 48, 48, 102, 97, 48, 56, 54, 49,
        54, 102, 54, 54, 50, 100, 54, 50, 54, 49, 55, 51, 54, 53, 99, 48, 48, 48, 102, 102,
        102, 48, 54, 101, 51, 98, 102, 101, 99, 48, 102, 102, 53, 97, 97, 50,
    ]
}

/// An empty snapshot, as sent to a replica that asks for a full resync.
pub fn get_empty_rdb_file_bytes() -> (r: Vec<u8>)
    ensures
        r@ == hex_bytes(empty_rdb_hex()),
        r@.len() == 88,
{
    let hex: Vec<u8> = vec![
        53u8, 50, 52, 53, 52, 52, 52, 57, 53, 51, 51, 48, 51, 48, 51, 49, 51, 49, 102, 97,
        48, 57, 55, 50, 54, 53, 54, 52, 54, 57, 55, 51, 50, 100, 55, 54, 54, 53, 55, 50,
        48, 53, 51, 55, 50, 101, 51, 50, 50, 101, 51, 48, 102, 97, 48, 97, 55, 50, 54, 53,
        54, 52, 54, 57, 55, 51, 50, 100, 54, 50, 54, 57, 55, 52, 55, 51, 99, 48, 52, 48,
        102, 97, 48, 53, 54, 51, 55, 52, 54, 57, 54, 100, 54, 53, 99, 50, 54, 100, 48, 56,
        98, 99, 54, 53, 102, 97, 48, 56, 55, 53, 55, 51, 54, 53, 54, 52, 50, 100, 54, 100,
        54, 53, 54, 100, 99, 50, 98, 48, 99, 52, 49, 48, 48, 48, 102, 97, 48, 56, 54, 49,
        54, 102, 54, 54, 50, 100, 54, 50, 54, 49, 55, 51, 54, 53, 99, 48, 48, 48, 102, 102,
        102, 48, 54, 101, 51, 98, 102, 101, 99, 48, 102, 102, 53, 97, 97, 50,
    ];
    assert(hex@.len() == 176);
    assert(hex@ =~= empty_rdb_hex());
    assert forall|i: int| 0 <= i < hex@.len() implies is_hex(#[trigger] hex@[i]) by {}
    hex_to_bytes(hex.as_slice())
}

/// A length-encoded item of a snapshot.
pub enum LengthEncodedValue {
    String(Vec<u8>),
    Integer(u64),
}

/// Model of a length-encoded item.
pub enum Lev {
    Str(Seq<u8>),
    Int(nat),
}

impl LengthEncodedValue {
    pub open spec fn view(&self) -> Lev {
        match self {
            LengthEncodedValue::String(s) => Lev::Str(s@),
            LengthEncodedValue::Integer(n) => Lev::Int(*n as nat),
        }
    }
}

/// A value stored in a snapshot.
pub enum RdbValue {
    String(Vec<u8>),
}

/// One key of a snapshot: key, value and absolute expiry in milliseconds.
pub struct RdbEntry {
    pub key: Vec<u8>,
    pub value: RdbValue,
    pub expiry: Option<u64>,
}

pub type RdbEntryView = (Seq<u8>, Seq<u8>, Option<nat>);

impl RdbEntry {
    pub open spec fn view(&self) -> RdbEntryView {
        match &self.value {
            RdbValue::String(v) => (self.key@, v@, match self.expiry {
                Some(t) => Some(t as nat),
                None => None,
            }),
        }
    }
}

pub open spec fn le16(b: Seq<u8>, p: int) -> nat {
    b[p] as nat + b[p + 1] as nat * 256
}

pub open spec fn le32(b: Seq<u8>, p: int) -> nat {
    le16(b, p) + le16(b, p + 2) * 65536
}

pub open spec fn le64(b: Seq<u8>, p: int) -> nat {
    le32(b, p) + le32(b, p + 4) * 4294967296
}

pub open spec fn be32(b: Seq<u8>, p: int) -> nat {
    b[p] as nat * 16777216 + b[p + 1] as nat * 65536 + b[p + 2] as nat * 256 + b[p + 3] as nat
}

pub open spec fn str_at(b: Seq<u8>, p: int, n: nat) -> Option<(Lev, int)> {
    if p + n <= b.len() {
        Some((Lev::Str(b.subrange(p, p + n)), p + n))
    } else {
        None
    }
}

/// The length-encoded item at `p` and the position after it. The two high bits of
/// the first byte select the form: `00` a 6-bit length, `01` a 14-bit length, `10` a
/// 32-bit big-endian length, `11` an 8, 16 or 32-bit little-endian integer.
pub open spec fn lev_at(b: Seq<u8>, p: int) -> Option<(Lev, int)> {
    if p < 0 || p >= b.len() {
        None
    } else {
        let first = b[p] as nat;
        let kind = first / 64;
        let low = first % 64;
        if kind == 0 {
            str_at(b, p + 1, low)
        } else if kind == 1 {
            if p + 1 < b.len() {
                str_at(b, p + 2, low * 256 + b[p + 1] as nat)
            } else {
                None
            }
        } else if kind == 2 {
            if p + 4 < b.len() {
                str_at(b, p + 5, be32(b, p + 1))
            } else {
                None
            }
        } else if low % 4 == 0 {
            if p + 1 < b.len() {
                Some((Lev::Int(b[p + 1] as nat), p + 2))
            } else {
                None
            }
        } else if low % 4 == 1 {
            if p + 2 < b.len() {
                Some((Lev::Int(le16(b, p + 1)), p + 3))
            } else {
                None
            }
        } else if low % 4 == 2 {
            if p + 4 < b.len() {
                Some((Lev::Int(le32(b, p + 1)), p + 5))
            } else {
                None
            }
        } else {
            None
        }
    }
}

/// A plain length at `p` (the first three forms of `lev_at`, without payload) and the
/// position after it.
pub open spec fn len_at(b: Seq<u8>, p: int) -> Option<(nat, int)> {
    if p < 0 || p >= b.len() {
        None
    } else {
        let first = b[p] as nat;
        let kind = first / 64;
        let low = first % 64;
        if kind == 0 {
            Some((low, p + 1))
        } else if kind == 1 {
            if p + 1 < b.len() {
                Some((low * 256 + b[p + 1] as nat, p + 2))
            } else {
                None
            }
        } else if kind == 2 {
            if p + 4 < b.len() {
                Some((be32(b, p + 1), p + 5))
            } else {
                None
            }
        } else {
            None
        }
    }
}

/// Reads a plain length (see `len_at`).
pub fn read_length(b: &[u8], p: usize) -> (r: Option<(u64, usize)>)
    ensures
        match len_at(b@, p as int) {
            Some((n, q)) => r matches Some((x, y)) && x as nat == n && y as int == q,
            None => r is None,
        },
{
    let len = b.len();
    if p >= len {
        return None;
    }
    let first = b[p];
    let kind = first / 64;
    let low = first % 64;
    if kind == 0 {
        Some((low as u64, p + 1))
    } else if kind == 1 {
        if len - p <= 1 {
            return None;
        }
        Some(((low as u64) * 256 + b[p + 1] as u64, p + 2))
    } else if kind == 2 {
        if len - p <= 4 {
            return None;
        }
        let v = (b[p + 1] as u64) * 16777216 + (b[p + 2] as u64) * 65536 + (b[p + 3] as u64) * 256
            + (b[p + 4] as u64);
        Some((v, p + 5))
    } else {
        None
    }
}

/// An item read as a string: integers become their decimal rendering.
pub open spec fn lev_string(l: Lev) -> Seq<u8> {
    match l {
        Lev::Str(s) => s,
        Lev::Int(n) => decimal(n),
    }
}

fn read_le32(b: &[u8], p: usize) -> (r: u64)
    requires
        p + 4 <= b@.len(),
    ensures
        r as nat == le32(b@, p as int),
{
    (b[p] as u64) + (b[p + 1] as u64) * 256 + (b[p + 2] as u64) * 65536 + (b[p + 3] as u64) * 16777216
}

/// Reads the length-encoded item at `p` (see `lev_at`).
pub fn read_length_encoded(b: &[u8], p: usize) -> (r: Option<(LengthEncodedValue, usize)>)
    ensures
        match lev_at(b@, p as int) {
            Some((l, q)) => r matches Some((v, n)) && v@ == l && n as int == q,
            None => r is None,
        },
{
    let len = b.len();
    if p >= len {
        return None;
    }
    let first = b[p];
    let kind = first / 64;
    let low = first % 64;
    let (n, start): (u64, usize) = if kind == 0 {
        (low as u64, p + 1)
    } else if kind == 1 {
        if len - p <= 1 {
            return None;
        }
        ((low as u64) * 256 + b[p + 1] as u64, p + 2)
    } else if kind == 2 {
        if len - p <= 4 {
            return None;
        }
        let v = (b[p + 1] as u64) * 16777216 + (b[p + 2] as u64) * 65536 + (b[p + 3] as u64) * 256
            + (b[p + 4] as u64);
        (v, p + 5)
    } else {
        let w = low % 4;
        if w == 0 {
            if len - p <= 1 {
                return None;
            }
            return Some((LengthEncodedValue::Integer(b[p + 1] as u64), p + 2));
        } else if w == 1 {
            if len - p <= 2 {
                return None;
            }
            return Some((LengthEncodedValue::Integer((b[p + 1] as u64) + (b[p + 2] as u64) * 256), p + 3));
        } else if w == 2 {
            if len - p <= 4 {
                return None;
            }
            return Some((LengthEncodedValue::Integer(read_le32(b, p + 1)), p + 5));
        } else {
            return None;
        }
    };
    if n > (len - start) as u64 {
        return None;
    }
    let end = start + n as usize;
    Some((LengthEncodedValue::String(copy_slice(b, start, end)), end))
}

impl LengthEncodedValue {
    /// The item as a string; integers become their decimal rendering.
    pub fn get_as_string(&self) -> (r: Vec<u8>)
        ensures
            r@ == lev_string(self@),
    {
        match self {
            LengthEncodedValue::String(s) => crate::common::copy_bytes(s),
            LengthEncodedValue::Integer(n) => {
                let mut out: Vec<u8> = Vec::new();
                push_decimal(&mut out, *n);
                out
            },
        }
    }
}

/// A one-byte size that holds a plain 6-bit length.
pub fn get_6_bit_integer(b: &[u8], p: usize) -> (r: Option<usize>)
    ensures
        r matches Some(v) ==> p < b@.len() && b@[p as int] < 64 && v == b@[p as int],
        r is None ==> p >= b@.len() || b@[p as int] >= 64,
{
    if p >= b.len() || b[p] >= 64 {
        None
    } else {
        Some(b[p] as usize)
    }
}

/// The key at `p` (optional expiry prefix, value type 0, key, value) and the position
/// after it.
pub open spec fn entry_at(b: Seq<u8>, p: int) -> Option<(RdbEntryView, int)> {
    if p < 0 || p >= b.len() {
        None
    } else {
        let (expiry, q): (Option<nat>, int) = if b[p] == 0xFD && p + 4 < b.len() {
            (Some(le32(b, p + 1) * 1000), p + 5)
        } else if b[p] == 0xFC && p + 8 < b.len() {
            (Some(le64(b, p + 1)), p + 9)
        } else {
            (None, p)
        };
        if (b[p] == 0xFD || b[p] == 0xFC) && q == p {
            None
        } else if q >= b.len() || b[q] != 0 {
            None
        } else {
            match lev_at(b, q + 1) {
                Some((k, q2)) => match lev_at(b, q2) {
                    Some((v, q3)) => Some(((lev_string(k), lev_string(v), expiry), q3)),
                    None => None,
                },
                None => None,
            }
        }
    }
}

/// The item at `p` of a snapshot body and the position after it: an auxiliary field
/// (`0xFA`, two strings) or a database selector (`0xFE` and a length, then optionally
/// `0xFB` and two lengths) yields no key; anything else is a key (see `entry_at`).
pub open spec fn next_item(b: Seq<u8>, p: int) -> Option<(Option<RdbEntryView>, int)> {
    if p < 0 || p >= b.len() {
        None
    } else if b[p] == 0xFA {
        match lev_at(b, p + 1) {
            Some((_, q1)) => match lev_at(b, q1) {
                Some((_, q2)) => Some((None, q2)),
                None => None,
            },
            None => None,
        }
    } else if b[p] == 0xFE {
        match len_at(b, p + 1) {
            Some((_, q1)) => if q1 < b.len() && b[q1] == 0xFB {
                match len_at(b, q1 + 1) {
                    Some((_, q2)) => match len_at(b, q2) {
                        Some((_, q3)) => Some((None, q3)),
                        None => None,
                    },
                    None => None,
                }
            } else {
                Some((None, q1))
            },
            None => None,
        }
    } else {
        match entry_at(b, p) {
            Some((e, q)) => Some((Some(e), q)),
            None => None,
        }
    }
}

/// The keys of a snapshot from position `p` to its end marker `0xFF`.
pub open spec fn entries_from(b: Seq<u8>, p: int) -> Option<Seq<RdbEntryView>>
    decreases b.len() - p,
{
    if p < 0 || p >= b.len() {
        None
    } else if b[p] == 0xFF {
        Some(seq![])
    } else {
        match next_item(b, p) {
            Some((e, q)) => if p < q <= b.len() {
                match entries_from(b, q) {
                    Some(rest) => match e {
                        Some(x) => Some(seq![x] + rest),
                        None => Some(rest),
                    },
                    None => None,
                }
            } else {
                None
            },
            None => None,
        }
    }
}

fn has_magic(b: &[u8]) -> (r: bool)
    ensures
        r == (b@.len() >= 9 && b@.take(5) == seq![82u8, 69, 68, 73, 83]),
{
    if b.len() < 9 {
        return false;
    }
    let ok = b[0] == 82 && b[1] == 69 && b[2] == 68 && b[3] == 73 && b[4] == 83;
    proof {
        if ok {
            assert(b@.take(5) =~= seq![82u8, 69, 68, 73, 83]);
        }
        if b@.take(5) == seq![82u8, 69, 68, 73, 83] {
            assert(b@.take(5)[0] == b@[0] && b@.take(5)[1] == b@[1] && b@.take(5)[2] == b@[2]
                && b@.take(5)[3] == b@[3] && b@.take(5)[4] == b@[4]);
        }
    }
    ok
}

proof fn lemma_entries_step(b: Seq<u8>, p: int)
    requires
        0 <= p < b.len(),
        b[p] != 0xFF,
    ensures
        entries_from(b, p) == match next_item(b, p) {
            Some((e, q)) => if p < q <= b.len() {
                match entries_from(b, q) {
                    Some(rest) => match e {
                        Some(x) => Some(seq![x] + rest),
                        None => Some(rest),
                    },
                    None => None,
                }
            } else {
                None
            },
            None => None,
        },
{
}

fn read_item(b: &[u8], p: usize) -> (r: Option<(Option<RdbEntry>, usize)>)
    ensures
        match next_item(b@, p as int) {
            Some((e, q)) => r matches Some((x, n)) && n as int == q && match e {
                Some(ev) => x matches Some(xe) && xe@ == ev,
                None => x is None,
            },
            None => r is None,
        },
{
    let len = b.len();
    if p >= len {
        return None;
    }
    if b[p] == 0xFA {
        match read_length_encoded(b, p + 1) {
            Some((_, q1)) => match read_length_encoded(b, q1) {
                Some((_, q2)) => Some((None, q2)),
                None => None,
            },
            None => None,
        }
    } else if b[p] == 0xFE {
        match read_length(b, p + 1) {
            Some((_, q1)) => {
                if q1 < len && b[q1] == 0xFB {
                    match read_length(b, q1 + 1) {
                        Some((_, q2)) => match read_length(b, q2) {
                            Some((_, q3)) => Some((None, q3)),
                            None => None,
                        },
                        None => None,
                    }
                } else {
                    Some((None, q1))
                }
            },
            None => None,
        }
    } else {
        match read_entry(b, p) {
            Some((e, q)) => Some((Some(e), q)),
            None => None,
        }
    }
}

/// The keys of a snapshot: the magic `REDIS` and four version digits, then what
/// `entries_from` reads.
pub open spec fn rdb_entries(b: Seq<u8>) -> Option<Seq<RdbEntryView>> {
    if b.len() >= 9 && b.take(5) == seq![82u8, 69, 68, 73, 83] {
        entries_from(b, 9)
    } else {
        None
    }
}

pub open spec fn entry_views(v: Seq<RdbEntry>) -> Seq<RdbEntryView> {
    v.map_values(|e: RdbEntry| e@)
}

fn read_entry(b: &[u8], p: usize) -> (r: Option<(RdbEntry, usize)>)
    ensures
        match entry_at(b@, p as int) {
            Some((e, q)) => r matches Some((x, n)) && x@ == e && n as int == q,
            None => r is None,
        },
{
    let len = b.len();
    if p >= len {
        return None;
    }
    let (expiry, q): (Option<u64>, usize) = if b[p] == 0xFD && len - p > 4 {
        (Some(read_le32(b, p + 1) * 1000), p + 5)
    } else if b[p] == 0xFC && len - p > 8 {
        let lo = read_le32(b, p + 1);
        let hi = read_le32(b, p + 5);
        proof {
            assert(le64(b@, p + 1) == le32(b@, p + 1) + le32(b@, p + 5) * 4294967296);
        }
        (Some(lo + hi * 4294967296), p + 9)
    } else {
        (None, p)
    };
    if (b[p] == 0xFD || b[p] == 0xFC) && q == p {
        return None;
    }
    if q >= len || b[q] != 0 {
        return None;
    }
    let (k, q2) = match read_length_encoded(b, q + 1) {
        Some(x) => x,
        None => {
            return None;
        },
    };
    let (v, q3) = match read_length_encoded(b, q2) {
        Some(x) => x,
        None => {
            return None;
        },
    };
    let e = RdbEntry { key: k.get_as_string(), value: RdbValue::String(v.get_as_string()), expiry };
    Some((e, q3))
}

/// Decodes a snapshot into its keys (see `rdb_entries`); `None` when it is malformed.
#[verifier::spinoff_prover]
#[verifier::rlimit(80)]
pub fn parse_rdb(b: &[u8]) -> (r: Option<Vec<RdbEntry>>)
    ensures
        match rdb_entries(b@) {
            Some(es) => r matches Some(v) && entry_views(v@) == es,
            None => r is None,
        },
{
    let len = b.len();
    if !has_magic(b) {
        return None;
    }
    let mut out: Vec<RdbEntry> = Vec::new();
    let mut p: usize = 9;
    while p < len && b[p] != 0xFF
        invariant
            len == b@.len(),
            9 <= p,
            rdb_entries(b@) == match entries_from(b@, p as int) {
                Some(rest) => Some(entry_views(out@) + rest),
                None => None::<Seq<RdbEntryView>>,
            },
        decreases len - p,
    {
        let ghost before = entry_views(out@);
        proof {
            lemma_entries_step(b@, p as int);
        }
        let (item, q) = match read_item(b, p) {
            Some(x) => x,
            None => {
                return None;
            },
        };
        if !(p < q && q <= len) {
            return None;
        }
        match item {
            Some(e) => {
                out.push(e);
                proof {
                    assert(entry_views(out@) =~= before.push(e@));
                    let rest = entries_from(b@, q as int);
                    if rest is Some {
                        assert(before + (seq![e@] + rest->0) =~= before.push(e@) + rest->0);
                    }
                }
            },
            None => {},
        }
        p = q;
    }
    if p >= len {
        return None;
    }
    assert(entry_views(out@) + seq![] =~= entry_views(out@));
    Some(out)
}

} // verus!
