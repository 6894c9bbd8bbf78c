use vstd::prelude::*;
use crate::protocol::{Data, Resp, encode, crlf, push_decimal, decimal, signed_decimal, views};

verus! {

/// The RESP null bulk string `$-1\r\n`.
pub open spec fn null_bytes() -> Seq<u8> {
    seq![36u8, 45u8, 49u8, 13u8, 10u8]
}

/// The RESP null bulk string.
pub fn null() -> (r: Vec<u8>)
    ensures
        r@ == null_bytes(),
{
    let r = vec![36u8, 45u8, 49u8, 13u8, 10u8];
    assert(r@ =~= null_bytes());
    r
}

pub fn push_all(out: &mut Vec<u8>, b: &[u8])
    ensures
        final(out)@ == old(out)@ + b@,
{
    let mut i: usize = 0;
    while i < b.len()
        invariant
            i <= b@.len(),
            out@ == old(out)@ + b@.take(i as int),
        decreases b@.len() - i,
    {
        out.push(b[i]);
        i = i + 1;
        assert(b@.take(i as int) =~= b@.take((i - 1) as int).push(b@[i - 1]));
    }
    assert(b@.take(i as int) =~= b@);
}

/// A bulk string frame holding `val`.
pub fn encode_bstring(val: &[u8]) -> (r: Vec<u8>)
    ensures
        r@ == encode(Resp::Bulk(val@)),
{
    let mut out: Vec<u8> = Vec::new();
    out.push(36u8);
    push_decimal(&mut out, val.len() as u64);
    out.push(13u8);
    out.push(10u8);
    push_all(&mut out, val);
    out.push(13u8);
    out.push(10u8);
    assert(out@ =~= encode(Resp::Bulk(val@)));
    out
}

/// A simple string frame `+<val>\r\n`.
pub fn encode_sstring(val: &[u8]) -> (r: Vec<u8>)
    ensures
        r@ == seq![43u8] + val@ + crlf(),
        r@ == encode(Resp::Simple(val@)),
{
    let mut out: Vec<u8> = Vec::new();
    out.push(43u8);
    push_all(&mut out, val);
    out.push(13u8);
    out.push(10u8);
    assert(out@ =~= seq![43u8] + val@ + crlf());
    out
}

/// An integer frame `:<val>\r\n`.
pub fn encode_int(val: i64) -> (r: Vec<u8>)
    ensures
        r@ == encode(Resp::Integer(val as int)),
{
    let d = Data::Int(val);
    d.encode()
}

/// The bytes `ERR `, the prefix of generic error replies.
pub open spec fn err_prefix() -> Seq<u8> {
    seq![69u8, 82u8, 82u8, 32u8]
}

/// An error frame `-ERR <val>\r\n`.
pub fn encode_error(val: &[u8]) -> (r: Vec<u8>)
    ensures
        r@ == seq![45u8] + err_prefix() + val@ + crlf(),
{
    let mut out: Vec<u8> = Vec::new();
    out.push(45u8);
    out.push(69u8);
    out.push(82u8);
    out.push(82u8);
    out.push(32u8);
    push_all(&mut out, val);
    out.push(13u8);
    out.push(10u8);
    assert(out@ =~= seq![45u8] + err_prefix() + val@ + crlf());
    out
}

/// The payloads of the bulk strings among `items`, in order.
pub open spec fn bulk_payloads(items: Seq<Resp>) -> Seq<Seq<u8>>
    decreases items.len(),
{
    if items.len() == 0 {
        seq![]
    } else {
        let rest = bulk_payloads(items.drop_last());
        match items.last() {
            Resp::Bulk(b) => rest.push(b),
            _ => rest,
        }
    }
}

/// The contents of a sequence of byte vectors.
pub open spec fn byte_views(v: Seq<Vec<u8>>) -> Seq<Seq<u8>> {
    v.map_values(|b: Vec<u8>| b@)
}

pub fn copy_bytes(b: &Vec<u8>) -> (r: Vec<u8>)
    ensures
        r@ == b@,
{
    let mut out: Vec<u8> = Vec::new();
    push_all(&mut out, b.as_slice());
    assert(out@ =~= b@);
    out
}

pub fn copy_slice(b: &[u8], start: usize, end: usize) -> (r: Vec<u8>)
    requires
        start <= end <= b@.len(),
    ensures
        r@ == b@.subrange(start as int, end as int),
{
    let mut out: Vec<u8> = Vec::new();
    let mut i: usize = start;
    while i < end
        invariant
            start <= i <= end <= b@.len(),
            out@ == b@.subrange(start as int, i as int),
        decreases end - i,
    {
        out.push(b[i]);
        i = i + 1;
        assert(out@ =~= b@.subrange(start as int, i as int));
    }
    out
}

/// The bulk string arguments among `val`, other kinds of value skipped.
pub fn parse_string_args(val: &[Data]) -> (r: Vec<Vec<u8>>)
    ensures
        byte_views(r@) == bulk_payloads(views(val@)),
{
    let mut out: Vec<Vec<u8>> = Vec::new();
    let mut i: usize = 0;
    proof {
        crate::protocol::lemma_views(val@);
    }
    while i < val.len()
        invariant
            i <= val@.len(),
            views(val@).len() == val@.len(),
            forall|j: int| 0 <= j < val@.len() ==> #[trigger] views(val@)[j] == val@[j]@,
            byte_views(out@) == bulk_payloads(views(val@).take(i as int)),
        decreases val@.len() - i,
    {
        let ghost before = out@;
        proof {
            assert(views(val@).take(i + 1).drop_last() =~= views(val@).take(i as int));
            assert(views(val@).take(i + 1).last() == val@[i as int]@);
        }
        match &val[i] {
            Data::BStr(s) => {
                out.push(copy_bytes(s));
                assert(byte_views(out@) =~= byte_views(before).push(s@));
            },
            _ => {},
        }
        i = i + 1;
    }
    assert(views(val@).take(i as int) =~= views(val@));
    out
}

/// Start and end positions, both inclusive, that a range over a sequence of `len` items
/// selects: negative indices count from the end, the start is raised to 0 and the end
/// lowered to `len - 1`; `None` when nothing is selected.
pub open spec fn range_indices(start: int, end: int, len: int) -> Option<(int, int)> {
    let s = if start < 0 { start + len } else { start };
    let e = if end < 0 { end + len } else { end };
    let s = if s < 0 { 0 } else { s };
    let e = if e > len - 1 { len - 1 } else { e };
    if len <= 0 || s > e {
        None
    } else {
        Some((s, e))
    }
}

/// Resolves an inclusive index range against a length (see `range_indices`).
pub fn convert_range_indices(start: isize, end: isize, len: isize) -> (r: Option<(usize, usize)>)
    requires
        len >= 0,
    ensures
        r matches Some((s, e)) ==> range_indices(start as int, end as int, len as int) == Some(
            (s as int, e as int),
        ),
        r is None ==> range_indices(start as int, end as int, len as int) is None,
{
    if len == 0 {
        return None;
    }
    let mut s = start;
    let mut e = end;
    if s < 0 {
        s = s + len;
    }
    if e < 0 {
        e = e + len;
    }
    if s < 0 {
        s = 0;
    }
    if e > len - 1 {
        e = len - 1;
    }
    if s > e {
        return None;
    }
    Some((s as usize, e as usize))
}

/// The decimal rendering of `i`.
pub fn decimal_bytes(i: i64) -> (r: Vec<u8>)
    ensures
        r@ == signed_decimal(i as int),
{
    let mut out: Vec<u8> = Vec::new();
    if i < 0 {
        out.push(45u8);
        let m: u64 = (0i128 - (i as i128)) as u64;
        push_decimal(&mut out, m);
    } else {
        push_decimal(&mut out, i as u64);
    }
    assert(out@ =~= signed_decimal(i as int));
    out
}

/// The null array `*-1\r\n`.
pub fn null_array() -> (r: Vec<u8>)
    ensures
        r@ == seq![42u8, 45u8, 49u8, 13u8, 10u8],
{
    let r = vec![42u8, 45u8, 49u8, 13u8, 10u8];
    assert(r@ =~= seq![42u8, 45u8, 49u8, 13u8, 10u8]);
    r
}

} // verus!
