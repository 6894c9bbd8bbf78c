use vstd::prelude::*;
use crate::common::{byte_views, encode_bstring, encode_error, encode_int, encode_sstring, null, null_bytes, push_all, err_prefix};
use crate::protocol::{Resp, crlf, decimal, encode, push_decimal};
use crate::rdb::get_empty_rdb_file_bytes;

verus! {

/// What a command answers.
pub enum CommandResponse {
    /// One frame.
    Single(Vec<u8>),
    /// Frames sent back to back.
    Multiple(Vec<Vec<u8>>),
    /// The connection becomes a replica link.
    Stream,
    /// A replica answers with its acknowledged offset.
    ReplconfAck,
}

/// The frames `items`, back to back.
pub open spec fn concat(items: Seq<Seq<u8>>) -> Seq<u8>
    decreases items.len(),
{
    if items.len() == 0 {
        seq![]
    } else {
        concat(items.drop_last()) + items.last()
    }
}

/// An array header for `items.len()` frames followed by the frames.
pub fn encode_resp_array(items: &[Vec<u8>]) -> (r: Vec<u8>)
    ensures
        r@ == seq![42u8] + decimal(items@.len()) + crlf() + concat(byte_views(items@)),
{
    let mut out: Vec<u8> = Vec::new();
    out.push(42u8);
    push_decimal(&mut out, items.len() as u64);
    out.push(13u8);
    out.push(10u8);
    let ghost head = out@;
    let mut i: usize = 0;
    while i < items.len()
        invariant
            i <= items@.len(),
            out@ == head + concat(byte_views(items@).take(i as int)),
        decreases items@.len() - i,
    {
        push_all(&mut out, items[i].as_slice());
        assert(byte_views(items@).take(i + 1).drop_last() =~= byte_views(items@).take(i as int));
        i = i + 1;
    }
    assert(byte_views(items@).take(i as int) =~= byte_views(items@));
    assert(head =~= seq![42u8] + decimal(items@.len()) + crlf());
    out
}

/// The bulk strings holding `items`.
pub open spec fn bulks(items: Seq<Seq<u8>>) -> Seq<Resp> {
    items.map_values(|b: Seq<u8>| Resp::Bulk(b))
}

proof fn lemma_concat_bulks(items: Seq<Seq<u8>>)
    ensures
        concat(items.map_values(|b: Seq<u8>| encode(Resp::Bulk(b)))) == crate::protocol::encode_all(bulks(items)),
    decreases items.len(),
{
    if items.len() > 0 {
        let f = items.map_values(|b: Seq<u8>| encode(Resp::Bulk(b)));
        lemma_concat_bulks(items.drop_last());
        assert(f.drop_last() =~= items.drop_last().map_values(|b: Seq<u8>| encode(Resp::Bulk(b))));
        assert(bulks(items) =~= bulks(items.drop_last()).push(Resp::Bulk(items.last())));
        crate::protocol::lemma_encode_all_push(bulks(items.drop_last()), Resp::Bulk(items.last()));
    }
}

/// An array of bulk strings.
pub fn encode_array_of_bstrings(items: &[Vec<u8>]) -> (r: Vec<u8>)
    ensures
        r@ == encode(Resp::Array(bulks(byte_views(items@)))),
{
    let mut frames: Vec<Vec<u8>> = Vec::new();
    let mut i: usize = 0;
    while i < items.len()
        invariant
            i <= items@.len(),
            frames@.len() == i,
            byte_views(frames@) == byte_views(items@).take(i as int).map_values(|b: Seq<u8>| encode(Resp::Bulk(b))),
        decreases items@.len() - i,
    {
        let ghost before = frames@;
        let f = encode_bstring(items[i].as_slice());
        frames.push(f);
        proof {
            let want = byte_views(items@).take(i + 1).map_values(|b: Seq<u8>| encode(Resp::Bulk(b)));
            assert(before.len() == i);
            assert(frames@ == before.push(f));
            assert forall|k: int| 0 <= k < i + 1 implies #[trigger] byte_views(frames@)[k] == want[k] by {
                assert(byte_views(frames@)[k] == frames@[k]@);
                if k < i {
                    assert(frames@[k] == before[k]);
                    assert(byte_views(before)[k] == before[k]@);
                    assert(want[k] == byte_views(items@).take(i as int).map_values(|b: Seq<u8>| encode(Resp::Bulk(b)))[k]);
                } else {
                    assert(want[k] == encode(Resp::Bulk(items@[i as int]@)));
                }
            }
            assert(byte_views(frames@) =~= want);
        }
        i = i + 1;
    }
    assert(byte_views(items@).take(i as int) =~= byte_views(items@));
    let r = encode_resp_array(frames.as_slice());
    proof {
        lemma_concat_bulks(byte_views(items@));
        assert(bulks(byte_views(items@)).len() == items@.len());
    }
    r
}

/// `REPLCONF ACK <bytes>`, the reply of a replica to `REPLCONF GETACK`.
pub fn replconf_getack(bytes: usize) -> (r: Vec<u8>)
    ensures
        r@ == encode(Resp::Array(bulks(seq![
            seq![82u8, 69, 80, 76, 67, 79, 78, 70],
            seq![65u8, 67, 75],
            decimal(bytes as nat),
        ]))),
{
    let mut n: Vec<u8> = Vec::new();
    push_decimal(&mut n, bytes as u64);
    let items = vec![vec![82u8, 69, 80, 76, 67, 79, 78, 70], vec![65u8, 67, 75], n];
    assert(byte_views(items@) =~= seq![
        seq![82u8, 69, 80, 76, 67, 79, 78, 70],
        seq![65u8, 67, 75],
        decimal(bytes as nat),
    ]);
    encode_array_of_bstrings(items.as_slice())
}

/// The snapshot a master sends on `PSYNC`: the header `$<len>\r\n` and the bytes.
pub fn psync_response() -> (r: (Vec<u8>, Vec<u8>))
    ensures
        r.0@ == seq![36u8] + decimal(r.1@.len()) + crlf(),
        r.1@ == crate::rdb::hex_bytes(crate::rdb::empty_rdb_hex()),
        r.1@.len() == 88,
{
    let bytes = get_empty_rdb_file_bytes();
    let mut header: Vec<u8> = Vec::new();
    header.push(36u8);
    push_decimal(&mut header, bytes.len() as u64);
    header.push(13u8);
    header.push(10u8);
    assert(header@ =~= seq![36u8] + decimal(bytes@.len()) + crlf());
    (header, bytes)
}

pub fn bstring_response(val: &[u8]) -> (r: CommandResponse)
    ensures
        r matches CommandResponse::Single(b) && b@ == encode(Resp::Bulk(val@)),
{
    CommandResponse::Single(encode_bstring(val))
}

pub fn sstring_response(val: &[u8]) -> (r: CommandResponse)
    ensures
        r matches CommandResponse::Single(b) && b@ == seq![43u8] + val@ + crlf(),
{
    CommandResponse::Single(encode_sstring(val))
}

pub fn null_response() -> (r: CommandResponse)
    ensures
        r matches CommandResponse::Single(b) && b@ == null_bytes(),
{
    CommandResponse::Single(null())
}

/// The null array `*-1\r\n`.
pub open spec fn null_array_bytes() -> Seq<u8> {
    seq![42u8, 45u8, 49u8, 13u8, 10u8]
}

pub fn null_array_response() -> (r: CommandResponse)
    ensures
        r matches CommandResponse::Single(b) && b@ == null_array_bytes(),
{
    let b = vec![42u8, 45u8, 49u8, 13u8, 10u8];
    assert(b@ =~= null_array_bytes());
    CommandResponse::Single(b)
}

pub fn int_response(val: i64) -> (r: CommandResponse)
    ensures
        r matches CommandResponse::Single(b) && b@ == encode(Resp::Integer(val as int)),
{
    CommandResponse::Single(encode_int(val))
}

pub fn error_response(err: &[u8]) -> (r: CommandResponse)
    ensures
        r matches CommandResponse::Single(b) && b@ == seq![45u8] + err_prefix() + err@ + crlf(),
{
    CommandResponse::Single(encode_error(err))
}

pub fn array_response(items: Vec<Vec<u8>>) -> (r: CommandResponse)
    ensures
        r matches CommandResponse::Single(b) && b@ == encode(Resp::Array(bulks(byte_views(items@)))),
{
    CommandResponse::Single(encode_array_of_bstrings(items.as_slice()))
}

/// `val` without leading `+` characters.
pub open spec fn trim_plus(val: Seq<u8>) -> Seq<u8>
    decreases val.len(),
{
    if val.len() > 0 && val[0] == 43 {
        trim_plus(val.drop_first())
    } else {
        val
    }
}

/// `val` without trailing `\r\n` pairs.
pub open spec fn trim_crlf(val: Seq<u8>) -> Seq<u8>
    decreases val.len(),
{
    if val.len() >= 2 && val[val.len() - 2] == 13 && val[val.len() - 1] == 10 {
        trim_crlf(val.subrange(0, val.len() - 2))
    } else {
        val
    }
}

/// The text of a simple string reply: leading `+` and trailing CRLF removed.
pub fn decode_sstring(val: &[u8]) -> (r: Vec<u8>)
    ensures
        r@ == trim_crlf(trim_plus(val@)),
{
    let mut a: usize = 0;
    assert(val@.skip(0) =~= val@);
    while a < val.len() && val[a] == 43
        invariant
            a <= val@.len(),
            trim_plus(val@.skip(a as int)) == trim_plus(val@),
        decreases val@.len() - a,
    {
        assert(val@.skip(a as int).drop_first() =~= val@.skip(a + 1));
        a = a + 1;
    }
    assert(trim_plus(val@.skip(a as int)) == val@.skip(a as int));
    let mut b: usize = val.len();
    while b - a >= 2 && val[b - 2] == 13 && val[b - 1] == 10
        invariant
            a <= b <= val@.len(),
            trim_crlf(val@.subrange(a as int, b as int)) == trim_crlf(val@.skip(a as int)),
        decreases b,
    {
        assert(val@.subrange(a as int, b as int).subrange(0, b - a - 2) =~= val@.subrange(a as int, b - 2));
        b = b - 2;
    }
    assert(val@.skip(a as int) =~= val@.subrange(a as int, val@.len() as int));
    crate::common::copy_slice(val, a, b)
}

/// The bytes sent for a response.
pub open spec fn response_bytes(r: &CommandResponse) -> Seq<u8> {
    match r {
        CommandResponse::Single(b) => b@,
        CommandResponse::Multiple(v) => seq![42u8] + decimal(v@.len()) + crlf() + concat(byte_views(v@)),
        _ => null_bytes(),
    }
}

impl CommandResponse {
    /// The bytes sent for this response.
    pub fn to_bytes(&self) -> (r: Vec<u8>)
        ensures
            self matches CommandResponse::Single(b) ==> r@ == b@,
            self matches CommandResponse::Multiple(v) ==> r@ == seq![42u8] + decimal(v@.len()) + crlf()
                + concat(byte_views(v@)),
            (self is Stream || self is ReplconfAck) ==> r@ == null_bytes(),
            r@ == response_bytes(self),
    {
        match self {
            CommandResponse::Single(b) => crate::common::copy_bytes(b),
            CommandResponse::Multiple(v) => encode_resp_array(v.as_slice()),
            _ => null(),
        }
    }
}

/// The words of `s`: runs of bytes separated by spaces.
pub open spec fn words(s: Seq<u8>) -> Seq<Seq<u8>> {
    let (done, cur) = words_acc(s);
    if cur.len() > 0 {
        done.push(cur)
    } else {
        done
    }
}

pub open spec fn words_acc(s: Seq<u8>) -> (Seq<Seq<u8>>, Seq<u8>)
    decreases s.len(),
{
    if s.len() == 0 {
        (seq![], seq![])
    } else {
        let (done, cur) = words_acc(s.drop_last());
        if s.last() == 32 {
            if cur.len() > 0 {
                (done.push(cur), seq![])
            } else {
                (done, seq![])
            }
        } else {
            (done, cur.push(s.last()))
        }
    }
}

/// A command given as space-separated words, as an array of bulk strings.
pub fn encode_command(cmd: &[u8]) -> (r: Vec<u8>)
    ensures
        r@ == encode(Resp::Array(bulks(words(cmd@)))),
{
    let mut done: Vec<Vec<u8>> = Vec::new();
    let mut cur: Vec<u8> = Vec::new();
    let mut i: usize = 0;
    while i < cmd.len()
        invariant
            i <= cmd@.len(),
            (byte_views(done@), cur@) == words_acc(cmd@.take(i as int)),
        decreases cmd@.len() - i,
    {
        assert(cmd@.take(i + 1).drop_last() =~= cmd@.take(i as int));
        assert(cmd@.take(i + 1).last() == cmd@[i as int]);
        let ghost before = byte_views(done@);
        if cmd[i] == 32 {
            if cur.len() > 0 {
                let w = cur;
                done.push(w);
                assert(byte_views(done@) =~= before.push(w@));
                cur = Vec::new();
            } else {
                cur = Vec::new();
            }
            assert(cur@ =~= seq![]);
        } else {
            cur.push(cmd[i]);
        }
        i = i + 1;
    }
    assert(cmd@.take(i as int) =~= cmd@);
    if cur.len() > 0 {
        let ghost before = byte_views(done@);
        let w = cur;
        done.push(w);
        assert(byte_views(done@) =~= before.push(w@));
    }
    encode_array_of_bstrings(done.as_slice())
}

} // verus!
