use vstd::prelude::*;
use vstd::string::StringSliceAdditionalSpecFns;

verus! {

broadcast use vstd::seq::group_seq_axioms;

/// Carriage return.
pub const CR: u8 = 13;

/// Line feed.
pub const LF: u8 = 10;

/// Length of the line terminator `\r\n`.
pub const CRLF_LEN: usize = 2;

/// Largest bulk length or array count the decoder accepts by default (512 MiB).
pub const MAX_FRAME_LEN: usize = 536870912;

/// A RESP value as it travels on the wire.
#[derive(Debug)]
pub enum Data {
    BStr(Vec<u8>),
    SStr(Vec<u8>),
    Int(i64),
    Array(RedisArray),
    SimpleError(Vec<u8>),
}

/// The items of a RESP array.
#[derive(Debug)]
pub struct RedisArray(pub Vec<Data>);

/// Mathematical model of a RESP value.
pub enum Resp {
    Bulk(Seq<u8>),
    Simple(Seq<u8>),
    Integer(int),
    Array(Seq<Resp>),
    Error(Seq<u8>),
}

impl Data {
    pub open spec fn view(&self) -> Resp
        decreases self,
    {
        match self {
            Data::BStr(b) => Resp::Bulk(b@),
            Data::SStr(s) => Resp::Simple(s@),
            Data::Int(i) => Resp::Integer(*i as int),
            Data::Array(a) => Resp::Array(views(a.0@)),
            Data::SimpleError(e) => Resp::Error(e@),
        }
    }
}

/// The models of a sequence of values.
pub open spec fn views(s: Seq<Data>) -> Seq<Resp>
    decreases s,
{
    if s.len() == 0 {
        seq![]
    } else {
        seq![s[0].view()] + views(s.drop_first())
    }
}

pub proof fn lemma_views(s: Seq<Data>)
    ensures
        views(s).len() == s.len(),
        forall|j: int| 0 <= j < s.len() ==> #[trigger] views(s)[j] == s[j]@,
    decreases s.len(),
{
    if s.len() > 0 {
        lemma_views(s.drop_first());
        assert forall|j: int| 0 <= j < s.len() implies #[trigger] views(s)[j] == s[j]@ by {
            if j > 0 {
                assert(views(s)[j] == views(s.drop_first())[j - 1]);
            }
        }
    }
}

pub open spec fn crlf() -> Seq<u8> {
    seq![13u8, 10u8]
}

pub open spec fn is_digit(c: u8) -> bool {
    48 <= c <= 57
}

/// Canonical decimal rendering of a natural number.
pub open spec fn decimal(n: nat) -> Seq<u8>
    decreases n,
{
    if n < 10 {
        seq![(48 + n) as u8]
    } else {
        decimal(n / 10).push((48 + n % 10) as u8)
    }
}

/// Decimal rendering of an integer, with a leading `-` when negative.
pub open spec fn signed_decimal(i: int) -> Seq<u8> {
    if i < 0 {
        seq![45u8] + decimal((-i) as nat)
    } else {
        decimal(i as nat)
    }
}

/// The wire bytes of a RESP value.
pub open spec fn encode(v: Resp) -> Seq<u8>
    decreases v,
{
    match v {
        Resp::Bulk(b) => seq![36u8] + decimal(b.len()) + crlf() + b + crlf(),
        Resp::Simple(s) => seq![43u8] + s + crlf(),
        Resp::Integer(i) => seq![58u8] + signed_decimal(i) + crlf(),
        Resp::Array(items) => seq![42u8] + decimal(items.len()) + crlf() + encode_all(items),
        Resp::Error(e) => seq![45u8] + e + crlf(),
    }
}

/// The wire bytes of a sequence of RESP values, back to back.
pub open spec fn encode_all(items: Seq<Resp>) -> Seq<u8>
    decreases items,
{
    if items.len() == 0 {
        seq![]
    } else {
        encode(items[0]) + encode_all(items.drop_first())
    }
}

pub open spec fn no_cr(s: Seq<u8>) -> bool {
    forall|i: int| 0 <= i < s.len() ==> s[i] != CR
}

/// A value the codec can carry: line payloads hold no `\r`, integers fit in 64 bits,
/// and bulk lengths and array counts stay within `max`.
pub open spec fn well_formed(v: Resp, max: nat) -> bool
    decreases v,
{
    match v {
        Resp::Bulk(b) => b.len() <= max,
        Resp::Simple(s) => no_cr(s),
        Resp::Integer(i) => i64::MIN <= i <= i64::MAX,
        Resp::Array(items) => items.len() <= max && all_well_formed(items, max),
        Resp::Error(e) => no_cr(e),
    }
}

pub open spec fn all_well_formed(items: Seq<Resp>, max: nat) -> bool
    decreases items,
{
    if items.len() == 0 {
        true
    } else {
        well_formed(items[0], max) && all_well_formed(items.drop_first(), max)
    }
}

/// Numeric value of a run of decimal digits.
pub open spec fn digits_value(s: Seq<u8>) -> nat
    decreases s.len(),
{
    if s.len() == 0 {
        0
    } else {
        digits_value(s.drop_last()) * 10 + (s.last() - 48) as nat
    }
}

pub open spec fn all_digits(s: Seq<u8>) -> bool {
    forall|i: int| 0 <= i < s.len() ==> is_digit(#[trigger] s[i])
}

/// A non-empty digit run without superfluous leading zeros.
pub open spec fn canonical_digits(s: Seq<u8>) -> bool {
    s.len() >= 1 && all_digits(s) && (s.len() > 1 ==> s[0] != 48)
}

pub proof fn lemma_decimal_shape(n: nat)
    ensures
        canonical_digits(decimal(n)),
        digits_value(decimal(n)) == n,
        n >= 10 ==> decimal(n).len() >= 2,
    decreases n,
{
    if n >= 10 {
        lemma_decimal_shape(n / 10);
        let s = decimal(n);
        assert(s.drop_last() =~= decimal(n / 10));
        assert(s.last() == (48 + n % 10) as u8);
        assert(digits_value(s) == digits_value(decimal(n / 10)) * 10 + n % 10);
        assert((n / 10) * 10 + n % 10 == n) by (nonlinear_arith);
        assert(digits_value(s) == n);
        assert(s[0] == decimal(n / 10)[0]);
        if decimal(n / 10).len() == 1 {
            assert(true);
            assert(n / 10 >= 1);
            assert(decimal(n / 10) =~= seq![(48 + n / 10) as u8]);
        }
    } else {
        assert(decimal(n).drop_last() =~= seq![]);
        assert(decimal(n).last() == (48 + n) as u8);
        assert(digits_value(decimal(n)) == digits_value(decimal(n).drop_last()) * 10 + (
        decimal(n).last() - 48) as nat);
        assert(digits_value(decimal(n)) == n);
    }
}

pub proof fn lemma_value_positive(s: Seq<u8>)
    requires
        all_digits(s),
        s.len() >= 1,
        s[0] != 48,
    ensures
        digits_value(s) >= 1,
    decreases s.len(),
{
    if s.len() > 1 {
        let t = s.drop_last();
        assert(all_digits(t)) by {
            assert forall|i: int| 0 <= i < t.len() implies is_digit(#[trigger] t[i]) by {
                assert(t[i] == s[i]);
            }
        }
        lemma_value_positive(t);
    } else {
        assert(s.drop_last().len() == 0);
    }
}

pub proof fn lemma_canonical_decimal(s: Seq<u8>)
    requires
        canonical_digits(s),
    ensures
        decimal(digits_value(s)) == s,
    decreases s.len(),
{
    let v = digits_value(s);
    if s.len() == 1 {
        assert(s.drop_last().len() == 0);
        assert(is_digit(s[0]));
        assert(s.last() == s[0]);
        assert(digits_value(s.drop_last()) == 0);
        assert(v == (s[0] - 48) as nat);
        assert(decimal(v) =~= s);
    } else {
        let t = s.drop_last();
        assert(canonical_digits(t)) by {
            assert forall|i: int| 0 <= i < t.len() implies is_digit(#[trigger] t[i]) by {
                assert(t[i] == s[i]);
            }
            assert(t[0] == s[0]);
        }
        lemma_canonical_decimal(t);
        lemma_value_positive(t);
        let d = (s.last() - 48) as nat;
        assert(is_digit(s[s.len() - 1]));
        assert(d < 10);
        assert(v == digits_value(t) * 10 + d);
        assert(v / 10 == digits_value(t) && v % 10 == d) by (nonlinear_arith)
            requires
                v == digits_value(t) * 10 + d,
                d < 10,
        ;
        assert(decimal(v) =~= t.push(s.last()));
        assert(t.push(s.last()) =~= s);
    }
}

pub proof fn lemma_prefix_value_le(s: Seq<u8>, k: int)
    requires
        0 <= k <= s.len(),
        all_digits(s),
    ensures
        digits_value(s.take(k)) <= digits_value(s),
    decreases s.len(),
{
    if k < s.len() {
        let t = s.drop_last();
        assert(all_digits(t)) by {
            assert forall|i: int| 0 <= i < t.len() implies is_digit(#[trigger] t[i]) by {
                assert(t[i] == s[i]);
            }
        }
        lemma_prefix_value_le(t, k);
        assert(t.take(k) =~= s.take(k));
    } else {
        assert(s.take(k) =~= s);
    }
}

/// Appends the canonical decimal rendering of `n`.
pub fn push_decimal(out: &mut Vec<u8>, n: u64)
    ensures
        final(out)@ == old(out)@ + decimal(n as nat),
    decreases n,
{
    if n >= 10 {
        push_decimal(out, n / 10);
    }
    out.push((48 + n % 10) as u8);
    proof {
        if n >= 10 {
            assert(decimal(n as nat) == decimal((n / 10) as nat).push((48 + n % 10) as u8));
        }
    }
}

fn push_crlf(out: &mut Vec<u8>)
    ensures
        final(out)@ == old(out)@ + crlf(),
{
    out.push(CR);
    out.push(LF);
}

fn push_bytes(out: &mut Vec<u8>, b: &[u8])
    ensures
        final(out)@ == old(out)@ + b@,
{
    let mut i: usize = 0;
    while i < b.len()
        invariant
            i <= b@.len(),
            out@ == old(out)@ + b@.take(i as int),
        decreases b@.len() - i,
    {
        out.push(b[i]);
        i = i + 1;
        assert(b@.take(i as int) =~= b@.take((i - 1) as int).push(b@[i - 1]));
    }
    assert(b@.take(i as int) =~= b@);
}

impl Data {
    /// Appends the wire bytes of this value.
    pub fn encode_into(&self, out: &mut Vec<u8>)
        ensures
            final(out)@ == old(out)@ + encode(self@),
        decreases encode(self@).len(),
    {
        match self {
            Data::BStr(b) => {
                out.push(36u8);
                push_decimal(out, b.len() as u64);
                push_crlf(out);
                push_bytes(out, b.as_slice());
                push_crlf(out);
            },
            Data::SStr(s) => {
                out.push(43u8);
                push_bytes(out, s.as_slice());
                push_crlf(out);
            },
            Data::SimpleError(e) => {
                out.push(45u8);
                push_bytes(out, e.as_slice());
                push_crlf(out);
            },
            Data::Int(i) => {
                out.push(58u8);
                if *i < 0 {
                    out.push(45u8);
                    let m: u64 = (0i128 - (*i as i128)) as u64;
                    push_decimal(out, m);
                } else {
                    push_decimal(out, *i as u64);
                }
                push_crlf(out);
            },
            Data::Array(a) => {
                out.push(42u8);
                push_decimal(out, a.0.len() as u64);
                push_crlf(out);
                let ghost start = out@;
                proof {
                    lemma_views(a.0@);
                }
                let mut k: usize = 0;
                while k < a.0.len()
                    invariant
                        k <= a.0@.len(),
                        self@ == Resp::Array(views(a.0@)),
                        out@ == start + encode_all(self@->Array_0.take(k as int)),
                        self@->Array_0.len() == a.0@.len(),
                        forall|j: int| 0 <= j < a.0@.len() ==> self@->Array_0[j] == a.0@[j]@,
                    decreases a.0@.len() - k,
                {
                    proof {
                        assert(decreases_to!(a.0 => a.0[k as int]));
                        lemma_encode_all_len(self@->Array_0, k as int);
                        assert(self@->Array_0[k as int] == a.0@[k as int]@);
                        assert(self@ == Resp::Array(views(a.0@)));
                        assert(encode(self@) == seq![42u8] + decimal(self@->Array_0.len()) + crlf()
                            + encode_all(self@->Array_0));
                        assert(encode(a.0@[k as int]@).len() < encode(self@).len());
                    }
                    a.0[k].encode_into(out);
                    proof {
                        let items = self@->Array_0;
                        lemma_encode_all_push(items.take(k as int), items[k as int]);
                        assert(items.take(k as int).push(items[k as int]) =~= items.take(
                            k + 1,
                        ));
                    }
                    k = k + 1;
                }
                proof {
                    let items = self@->Array_0;
                    assert(items.take(k as int) =~= items);
                }
            },
        }
    }

    /// The wire bytes of this value.
    pub fn encode(&self) -> (r: Vec<u8>)
        ensures
            r@ == encode(self@),
    {
        let mut out: Vec<u8> = Vec::new();
        self.encode_into(&mut out);
        assert(out@ =~= encode(self@));
        out
    }
}

pub proof fn lemma_encode_all_len(items: Seq<Resp>, k: int)
    requires
        0 <= k < items.len(),
    ensures
        encode(items[k]).len() <= encode_all(items).len(),
    decreases items.len(),
{
    if k > 0 {
        lemma_encode_all_len(items.drop_first(), k - 1);
    }
}

pub proof fn lemma_encode_all_push(items: Seq<Resp>, v: Resp)
    ensures
        encode_all(items.push(v)) == encode_all(items) + encode(v),
    decreases items.len(),
{
    if items.len() == 0 {
        assert(items.push(v).drop_first() =~= seq![]);
        assert(encode_all(items.push(v).drop_first()) =~= seq![]);
        assert(items.push(v)[0] == v);
        assert(encode_all(items.push(v)) =~= encode(v));
    } else {
        lemma_encode_all_push(items.drop_first(), v);
        assert(items.push(v).drop_first() =~= items.drop_first().push(v));
        assert(items.push(v)[0] == items[0]);
        assert(encode_all(items.push(v)) =~= encode_all(items) + encode(v));
    }
}


pub proof fn lemma_encode_all_concat(a: Seq<Resp>, b: Seq<Resp>)
    ensures
        encode_all(a + b) == encode_all(a) + encode_all(b),
    decreases a.len(),
{
    if a.len() == 0 {
        assert(a + b =~= b);
        assert(encode_all(a) =~= seq![]);
        assert(encode_all(a + b) =~= encode_all(a) + encode_all(b));
    } else {
        lemma_encode_all_concat(a.drop_first(), b);
        assert((a + b).drop_first() =~= a.drop_first() + b);
        assert((a + b)[0] == a[0]);
        assert(encode_all(a + b) =~= encode_all(a) + encode_all(b));
    }
}

pub proof fn lemma_all_well_formed(items: Seq<Resp>, max: nat)
    ensures
        all_well_formed(items, max) <==> forall|i: int|
            0 <= i < items.len() ==> #[trigger] well_formed(items[i], max),
    decreases items.len(),
{
    if items.len() > 0 {
        lemma_all_well_formed(items.drop_first(), max);
        if forall|i: int| 0 <= i < items.len() ==> #[trigger] well_formed(items[i], max) {
            assert forall|i: int| 0 <= i < items.drop_first().len() implies #[trigger] well_formed(
                items.drop_first()[i],
                max,
            ) by {
                assert(items.drop_first()[i] == items[i + 1]);
            }
            assert(all_well_formed(items.drop_first(), max));
            assert(well_formed(items[0], max));
            assert(all_well_formed(items, max));
        }
        if all_well_formed(items, max) {
            assert forall|i: int| 0 <= i < items.len() implies #[trigger] well_formed(
                items[i],
                max,
            ) by {
                if i > 0 {
                    assert(items.drop_first()[i - 1] == items[i]);
                }
            }
        }
    }
}

pub proof fn lemma_views_push(s: Seq<Data>, d: Data)
    ensures
        views(s.push(d)) == views(s).push(d@),
{
    lemma_views(s);
    lemma_views(s.push(d));
    assert(views(s.push(d)) =~= views(s).push(d@));
}

/// `v` is well formed and its encoding starts at `pos` in `buf`.
pub open spec fn frame_at(buf: Seq<u8>, pos: int, v: Resp, max: nat) -> bool {
    &&& well_formed(v, max)
    &&& 0 <= pos
    &&& pos + encode(v).len() <= buf.len()
    &&& buf.subrange(pos, pos + encode(v).len()) == encode(v)
}

/// The canonical decimal of `m` starts at `pos` and a non-digit byte follows it.
pub open spec fn digits_at(buf: Seq<u8>, pos: int, m: nat) -> bool {
    &&& 0 <= pos
    &&& pos + decimal(m).len() < buf.len()
    &&& buf.subrange(pos, pos + decimal(m).len()) == decimal(m)
    &&& !is_digit(buf[pos + decimal(m).len()])
}

pub proof fn lemma_digits_unique(buf: Seq<u8>, pos: int, m1: nat, m2: nat)
    requires
        digits_at(buf, pos, m1),
        digits_at(buf, pos, m2),
    ensures
        m1 == m2,
{
    lemma_decimal_shape(m1);
    lemma_decimal_shape(m2);
    let l1 = decimal(m1).len() as int;
    let l2 = decimal(m2).len() as int;
    if l1 < l2 {
        assert(buf[pos + l1] == decimal(m2)[l1]);
        assert(is_digit(decimal(m2)[l1]));
    }
    if l2 < l1 {
        assert(buf[pos + l2] == decimal(m1)[l2]);
        assert(is_digit(decimal(m1)[l2]));
    }
    assert(decimal(m1) == decimal(m2));
}

/// Outcome of reading a value from a byte buffer.
pub enum Parsed {
    /// A complete value, and the position just past it.
    Frame(Data, usize),
    /// The bytes end before a value is complete.
    Incomplete,
    /// The bytes cannot start a value.
    Invalid,
}

/// Outcome of reading a decimal number.
pub enum Number {
    Value(u64, usize),
    Incomplete,
    Invalid,
}

fn is_digit_byte(c: u8) -> (r: bool)
    ensures
        r == is_digit(c),
{
    48 <= c && c <= 57
}

/// Reads the canonical decimal number at `pos`, which must not exceed `limit`.
pub fn parse_digits(buf: &[u8], pos: usize, limit: u64) -> (r: Number)
    requires
        pos <= buf@.len(),
    ensures
        r matches Number::Value(n, end) ==> n <= limit && end == pos + decimal(n as nat).len()
            && digits_at(buf@, pos as int, n as nat),
        !(r is Value) ==> forall|m: nat| m <= limit ==> !#[trigger] digits_at(buf@, pos as int, m),
        forall|m: nat| #[trigger] digits_at(buf@, pos as int, m) && m > limit ==> r is Invalid,
{
    let mut i: usize = pos;
    let mut val: u64 = 0;
    while i < buf.len() && is_digit_byte(buf[i])
        invariant
            pos <= i <= buf@.len(),
            all_digits(buf@.subrange(pos as int, i as int)),
            val == digits_value(buf@.subrange(pos as int, i as int)),
            val <= limit,
            i > pos + 1 ==> buf@[pos as int] != 48,
        decreases buf@.len() - i,
    {
        let ghost run = buf@.subrange(pos as int, i as int);
        let ghost next = buf@.subrange(pos as int, i + 1);
        assert(next.drop_last() =~= run);
        assert(all_digits(next));
        if i > pos && buf[pos] == 48 {
            proof {
                assert forall|m: nat| m <= limit implies !#[trigger] digits_at(
                    buf@,
                    pos as int,
                    m,
                ) by {
                    if digits_at(buf@, pos as int, m) {
                        lemma_decimal_shape(m);
                        let l = decimal(m).len() as int;
                        if l <= i - pos {
                            assert(buf@[pos + l] == next[l]);
                        }
                        assert(decimal(m)[0] == buf@[pos as int]);
                    }
                }
            }
            return Number::Invalid;
        }
        let d: u64 = (buf[i] - 48) as u64;
        if d > limit || val > (limit - d) / 10 {
            proof {
                if d <= limit {
                    assert(val * 10 + d > limit) by (nonlinear_arith)
                        requires
                            val > (limit - d) / 10,
                            d <= limit,
                    ;
                }
                assert forall|m: nat| m <= limit implies !#[trigger] digits_at(
                    buf@,
                    pos as int,
                    m,
                ) by {
                    if digits_at(buf@, pos as int, m) {
                        lemma_decimal_shape(m);
                        let l = decimal(m).len() as int;
                        if l <= i - pos {
                            assert(buf@[pos + l] == next[l]);
                        }
                        assert(decimal(m).take(i + 1 - pos) =~= next);
                        lemma_prefix_value_le(decimal(m), i + 1 - pos);
                    }
                }
            }
            return Number::Invalid;
        }
        val = val * 10 + d;
        i = i + 1;
    }
    if i == buf.len() {
        proof {
            assert forall|m: nat| !#[trigger] digits_at(buf@, pos as int, m) by {
                if digits_at(buf@, pos as int, m) {
                    let l = decimal(m).len() as int;
                    assert(buf@[pos + l] == buf@.subrange(pos as int, i as int)[l]);
                }
            }
        }
        return Number::Incomplete;
    }
    if i == pos {
        proof {
            assert forall|m: nat| m <= limit implies !#[trigger] digits_at(buf@, pos as int, m) by {
                if digits_at(buf@, pos as int, m) {
                    lemma_decimal_shape(m);
                    assert(buf@[pos as int] == decimal(m)[0]);
                }
            }
        }
        return Number::Invalid;
    }
    proof {
        let run = buf@.subrange(pos as int, i as int);
        if run.len() > 1 {
            assert(run[0] == buf@[pos as int]);
        }
        lemma_canonical_decimal(run);
        lemma_decimal_shape(val as nat);
        assert(buf@.subrange(pos as int, i as int) == decimal(val as nat));
        assert forall|m: nat| #[trigger] digits_at(buf@, pos as int, m) && m > limit implies false by {
            lemma_digits_unique(buf@, pos as int, m, val as nat);
        }
    }
    Number::Value(val, i)
}

fn copy_range(buf: &[u8], start: usize, end: usize) -> (r: Vec<u8>)
    requires
        start <= end <= buf@.len(),
    ensures
        r@ == buf@.subrange(start as int, end as int),
{
    let mut out: Vec<u8> = Vec::new();
    let mut i: usize = start;
    while i < end
        invariant
            start <= i <= end <= buf@.len(),
            out@ == buf@.subrange(start as int, i as int),
        decreases end - i,
    {
        out.push(buf[i]);
        i = i + 1;
        assert(out@ =~= buf@.subrange(start as int, i as int));
    }
    out
}


proof fn lemma_window(buf: Seq<u8>, pos: int, e: Seq<u8>, a: int, b: int)
    requires
        0 <= pos,
        pos + e.len() <= buf.len(),
        buf.subrange(pos, pos + e.len()) == e,
        0 <= a <= b <= e.len(),
    ensures
        buf.subrange(pos + a, pos + b) == e.subrange(a, b),
{
    assert forall|j: int| 0 <= j < b - a implies buf.subrange(pos + a, pos + b)[j] == e.subrange(
        a,
        b,
    )[j] by {
        assert(buf[pos + a + j] == buf.subrange(pos, pos + e.len())[a + j]);
    }
    assert(buf.subrange(pos + a, pos + b) =~= e.subrange(a, b));
}

proof fn lemma_at(buf: Seq<u8>, pos: int, e: Seq<u8>, k: int)
    requires
        0 <= pos,
        pos + e.len() <= buf.len(),
        buf.subrange(pos, pos + e.len()) == e,
        0 <= k < e.len(),
    ensures
        buf[pos + k] == e[k],
{
    assert(buf.subrange(pos, pos + e.len())[k] == buf[pos + k]);
}

/// The first CR at or after `start` is at `start + s.len()` when `s` then CRLF sits at `start`.
proof fn lemma_line_end(buf: Seq<u8>, start: int, s: Seq<u8>, i: int)
    requires
        0 <= start <= i <= buf.len(),
        start + s.len() + 2 <= buf.len(),
        buf.subrange(start, start + s.len() + 2) == s + crlf(),
        no_cr(s),
        no_cr(buf.subrange(start, i)),
        i == buf.len() || buf[i] == CR,
    ensures
        start + s.len() == i,
{
    let c = start + s.len();
    assert(buf[c] == (s + crlf())[s.len() as int]);
    if c < i {
        assert(buf.subrange(start, i)[s.len() as int] == buf[c]);
    }
    if c > i {
        assert(buf[i] == (s + crlf())[i - start]);
        assert(s[i - start] == buf[i]);
    }
}

proof fn lemma_line_unique(buf: Seq<u8>, start: int, s1: Seq<u8>, s2: Seq<u8>)
    requires
        0 <= start,
        start + s1.len() + 2 <= buf.len(),
        start + s2.len() + 2 <= buf.len(),
        buf.subrange(start, start + s1.len() + 2) == s1 + crlf(),
        buf.subrange(start, start + s2.len() + 2) == s2 + crlf(),
        no_cr(s1),
        no_cr(s2),
    ensures
        s1 == s2,
{
    let l1 = s1.len() as int;
    let l2 = s2.len() as int;
    if l1 < l2 {
        assert(buf.subrange(start, start + l1 + 2)[l1] == buf[start + l1]);
        assert((s1 + crlf())[l1] == CR);
        assert(buf.subrange(start, start + l2 + 2)[l1] == buf[start + l1]);
        assert((s2 + crlf())[l1] == s2[l1]);
    } else if l2 < l1 {
        assert(buf.subrange(start, start + l2 + 2)[l2] == buf[start + l2]);
        assert((s2 + crlf())[l2] == CR);
        assert(buf.subrange(start, start + l1 + 2)[l2] == buf[start + l2]);
        assert((s1 + crlf())[l2] == s1[l2]);
    }
    assert forall|j: int| 0 <= j < l1 implies s1[j] == s2[j] by {
        assert(buf.subrange(start, start + l1 + 2)[j] == buf[start + j]);
        assert(buf.subrange(start, start + l2 + 2)[j] == buf[start + j]);
        assert((s1 + crlf())[j] == s1[j]);
        assert((s2 + crlf())[j] == s2[j]);
    }
    assert(s1 =~= s2);
}

/// Two well-formed values encoded at the same place are equal.
#[verifier::rlimit(80)]
pub proof fn lemma_frame_unique(buf: Seq<u8>, pos: int, v1: Resp, v2: Resp, max: nat)
    requires
        frame_at(buf, pos, v1, max),
        frame_at(buf, pos, v2, max),
    ensures
        v1 == v2,
    decreases v1,
{
    let e1 = encode(v1);
    let e2 = encode(v2);
    assert(buf[pos] == e1[0]);
    assert(buf[pos] == e2[0]);
    match v1 {
        Resp::Simple(s1) => {
            let s2 = v2->Simple_0;
            lemma_window(buf, pos, e1, 1, 3 + s1.len() as int);
            lemma_window(buf, pos, e2, 1, 3 + s2.len() as int);
            assert(e1.subrange(1, 3 + s1.len() as int) =~= s1 + crlf());
            assert(e2.subrange(1, 3 + s2.len() as int) =~= s2 + crlf());
            lemma_line_unique(buf, pos + 1, s1, s2);
        },
        Resp::Error(s1) => {
            let s2 = v2->Error_0;
            lemma_window(buf, pos, e1, 1, 3 + s1.len() as int);
            lemma_window(buf, pos, e2, 1, 3 + s2.len() as int);
            assert(e1.subrange(1, 3 + s1.len() as int) =~= s1 + crlf());
            assert(e2.subrange(1, 3 + s2.len() as int) =~= s2 + crlf());
            lemma_line_unique(buf, pos + 1, s1, s2);
        },
        Resp::Integer(i1) => {
            let i2 = v2->Integer_0;
            lemma_decimal_shape(if i1 < 0 { (-i1) as nat } else { i1 as nat });
            lemma_decimal_shape(if i2 < 0 { (-i2) as nat } else { i2 as nat });
            if i1 < 0 {
                let d1 = decimal((-i1) as nat);
                lemma_window(buf, pos, e1, 2, 2 + d1.len() as int);
                assert(e1.subrange(2, 2 + d1.len() as int) =~= d1);
                lemma_at(buf, pos, e1, 2 + d1.len() as int);
                assert(digits_at(buf, pos + 2, (-i1) as nat));
            } else {
                let d1 = decimal(i1 as nat);
                lemma_window(buf, pos, e1, 1, 1 + d1.len() as int);
                assert(e1.subrange(1, 1 + d1.len() as int) =~= d1);
                lemma_at(buf, pos, e1, 1 + d1.len() as int);
                assert(digits_at(buf, pos + 1, i1 as nat));
            }
            if i2 < 0 {
                let d2 = decimal((-i2) as nat);
                lemma_window(buf, pos, e2, 2, 2 + d2.len() as int);
                assert(e2.subrange(2, 2 + d2.len() as int) =~= d2);
                lemma_at(buf, pos, e2, 2 + d2.len() as int);
                assert(digits_at(buf, pos + 2, (-i2) as nat));
            } else {
                let d2 = decimal(i2 as nat);
                lemma_window(buf, pos, e2, 1, 1 + d2.len() as int);
                assert(e2.subrange(1, 1 + d2.len() as int) =~= d2);
                lemma_at(buf, pos, e2, 1 + d2.len() as int);
                assert(digits_at(buf, pos + 1, i2 as nat));
            }
            if i1 < 0 && i2 < 0 {
                lemma_digits_unique(buf, pos + 2, (-i1) as nat, (-i2) as nat);
            } else if i1 >= 0 && i2 >= 0 {
                lemma_digits_unique(buf, pos + 1, i1 as nat, i2 as nat);
            } else if i1 < 0 {
                assert(buf[pos + 1] == 45u8);
                assert(buf[pos + 1] == decimal(i2 as nat)[0]);
            } else {
                assert(buf[pos + 1] == 45u8);
                assert(buf[pos + 1] == decimal(i1 as nat)[0]);
            }
        },
        Resp::Bulk(b1) => {
            let b2 = v2->Bulk_0;
            let d1 = decimal(b1.len());
            let d2 = decimal(b2.len());
            lemma_window(buf, pos, e1, 1, 1 + d1.len() as int);
            assert(e1.subrange(1, 1 + d1.len() as int) =~= d1);
            lemma_at(buf, pos, e1, 1 + d1.len() as int);
            lemma_window(buf, pos, e2, 1, 1 + d2.len() as int);
            assert(e2.subrange(1, 1 + d2.len() as int) =~= d2);
            lemma_at(buf, pos, e2, 1 + d2.len() as int);
            lemma_decimal_shape(b1.len());
            lemma_decimal_shape(b2.len());
            assert(digits_at(buf, pos + 1, b1.len()));
            assert(digits_at(buf, pos + 1, b2.len()));
            lemma_digits_unique(buf, pos + 1, b1.len(), b2.len());
            let st = pos + 1 + d1.len() + 2;
            lemma_window(buf, pos, e1, st - pos, st - pos + b1.len() as int);
            assert(e1.subrange(st - pos, st - pos + b1.len() as int) =~= b1);
            lemma_window(buf, pos, e2, st - pos, st - pos + b2.len() as int);
            assert(e2.subrange(st - pos, st - pos + b2.len() as int) =~= b2);
        },
        Resp::Array(items1) => {
            let items2 = v2->Array_0;
            let d1 = decimal(items1.len());
            let d2 = decimal(items2.len());
            lemma_window(buf, pos, e1, 1, 1 + d1.len() as int);
            assert(e1.subrange(1, 1 + d1.len() as int) =~= d1);
            lemma_at(buf, pos, e1, 1 + d1.len() as int);
            lemma_window(buf, pos, e2, 1, 1 + d2.len() as int);
            assert(e2.subrange(1, 1 + d2.len() as int) =~= d2);
            lemma_at(buf, pos, e2, 1 + d2.len() as int);
            lemma_decimal_shape(items1.len());
            lemma_decimal_shape(items2.len());
            assert(digits_at(buf, pos + 1, items1.len()));
            assert(digits_at(buf, pos + 1, items2.len()));
            lemma_digits_unique(buf, pos + 1, items1.len(), items2.len());
            let st = pos + 1 + d1.len() + 2;
            let a1 = encode_all(items1);
            let a2 = encode_all(items2);
            lemma_window(buf, pos, e1, st - pos, st - pos + a1.len() as int);
            assert(e1.subrange(st - pos, st - pos + a1.len() as int) =~= a1);
            lemma_window(buf, pos, e2, st - pos, st - pos + a2.len() as int);
            assert(e2.subrange(st - pos, st - pos + a2.len() as int) =~= a2);
            lemma_frames_unique(buf, st, items1, items2, max);
        },
    }
}

pub proof fn lemma_frames_unique(buf: Seq<u8>, pos: int, items1: Seq<Resp>, items2: Seq<Resp>, max: nat)
    requires
        items1.len() == items2.len(),
        all_well_formed(items1, max),
        all_well_formed(items2, max),
        0 <= pos,
        pos + encode_all(items1).len() <= buf.len(),
        buf.subrange(pos, pos + encode_all(items1).len()) == encode_all(items1),
        pos + encode_all(items2).len() <= buf.len(),
        buf.subrange(pos, pos + encode_all(items2).len()) == encode_all(items2),
    ensures
        items1 == items2,
    decreases items1,
{
    if items1.len() == 0 {
        assert(items1 =~= items2);
    } else {
        let f1 = encode(items1[0]);
        let f2 = encode(items2[0]);
        assert(buf.subrange(pos, pos + f1.len()) =~= f1);
        assert(buf.subrange(pos, pos + f2.len()) =~= f2);
        lemma_frame_unique(buf, pos, items1[0], items2[0], max);
        let r1 = encode_all(items1.drop_first());
        let r2 = encode_all(items2.drop_first());
        let a1 = encode_all(items1);
        let a2 = encode_all(items2);
        assert(a1 == f1 + r1);
        assert(a2 == f2 + r2);
        lemma_window(buf, pos, a1, f1.len() as int, a1.len() as int);
        lemma_window(buf, pos, a2, f2.len() as int, a2.len() as int);
        assert(a1.subrange(f1.len() as int, a1.len() as int) =~= r1);
        assert(a2.subrange(f2.len() as int, a2.len() as int) =~= r2);
        lemma_frames_unique(buf, pos + f1.len(), items1.drop_first(), items2.drop_first(), max);
        assert(items1 =~= items2) by {
            assert forall|j: int| 0 <= j < items1.len() implies items1[j] == items2[j] by {
                if j > 0 {
                    assert(items1[j] == items1.drop_first()[j - 1]);
                    assert(items2[j] == items2.drop_first()[j - 1]);
                }
            }
        }
    }
}


proof fn lemma_tag(v: Resp)
    ensures
        encode(v).len() >= 3,
        encode(v)[0] == match v {
            Resp::Bulk(_) => 36u8,
            Resp::Simple(_) => 43u8,
            Resp::Integer(_) => 58u8,
            Resp::Array(_) => 42u8,
            Resp::Error(_) => 45u8,
        },
{
}

/// The first byte of a RESP value: `+ - : $ *`.
pub open spec fn is_tag(c: u8) -> bool {
    c == 43 || c == 45 || c == 58 || c == 36 || c == 42
}

pub open spec fn frame_ensures(buf: Seq<u8>, pos: int, max: nat, r: Parsed) -> bool {
    &&& r matches Parsed::Frame(d, end) ==> frame_at(buf, pos, d@, max) && end == pos + encode(
        d@,
    ).len()
    &&& !(r is Frame) ==> forall|v: Resp| !#[trigger] frame_at(buf, pos, v, max)
}

proof fn lemma_line_frame(buf: Seq<u8>, pos: int, v: Resp, max: nat)
    requires
        frame_at(buf, pos, v, max),
        buf[pos] == 43 || buf[pos] == 45,
    ensures
        buf[pos] == 43 ==> v is Simple,
        buf[pos] == 45 ==> v is Error,
        ({
            let s = if v is Simple {
                v->Simple_0
            } else {
                v->Error_0
            };
            &&& no_cr(s)
            &&& pos + 3 + s.len() <= buf.len()
            &&& buf.subrange(pos + 1, pos + 3 + s.len()) == s + crlf()
        }),
{
    lemma_tag(v);
    lemma_at(buf, pos, encode(v), 0);
    let s = if v is Simple {
        v->Simple_0
    } else {
        v->Error_0
    };
    lemma_window(buf, pos, encode(v), 1, 3 + s.len() as int);
    assert(encode(v).subrange(1, 3 + s.len() as int) =~= s + crlf());
}

proof fn lemma_int_frame(buf: Seq<u8>, pos: int, v: Resp, max: nat)
    requires
        frame_at(buf, pos, v, max),
        buf[pos] == 58,
    ensures
        v is Integer,
        ({
            let i = v->Integer_0;
            let m: nat = if i < 0 {
                (-i) as nat
            } else {
                i as nat
            };
            let start = if i < 0 {
                pos + 2
            } else {
                pos + 1
            };
            &&& i >= 0 ==> m <= 9223372036854775807
            &&& i < 0 ==> 1 <= m <= 9223372036854775808
            &&& pos + 1 < buf.len()
            &&& (buf[pos + 1] == 45) == (i < 0)
            &&& digits_at(buf, start, m)
            &&& start + decimal(m).len() + 2 <= buf.len()
            &&& buf[start + decimal(m).len()] == CR
            &&& buf[start + decimal(m).len() + 1] == LF
            &&& encode(v).len() == start - pos + decimal(m).len() + 2
        }),
{
    lemma_tag(v);
    lemma_at(buf, pos, encode(v), 0);
    let e = encode(v);
    let i = v->Integer_0;
    if i < 0 {
        let d = decimal((-i) as nat);
        lemma_window(buf, pos, e, 2, 2 + d.len() as int);
        assert(e.subrange(2, 2 + d.len() as int) =~= d);
        lemma_at(buf, pos, e, 1);
        lemma_at(buf, pos, e, 2 + d.len() as int);
        lemma_at(buf, pos, e, 3 + d.len() as int);
    } else {
        let d = decimal(i as nat);
        lemma_decimal_shape(i as nat);
        lemma_window(buf, pos, e, 1, 1 + d.len() as int);
        assert(e.subrange(1, 1 + d.len() as int) =~= d);
        lemma_at(buf, pos, e, 1);
        assert(is_digit(d[0]));
        lemma_at(buf, pos, e, 1 + d.len() as int);
        lemma_at(buf, pos, e, 2 + d.len() as int);
    }
}

proof fn lemma_bulk_frame(buf: Seq<u8>, pos: int, v: Resp, max: nat)
    requires
        frame_at(buf, pos, v, max),
        buf[pos] == 36,
    ensures
        v is Bulk,
        ({
            let b = v->Bulk_0;
            let l = decimal(b.len()).len() as int;
            let st = pos + 1 + l + 2;
            &&& b.len() <= max
            &&& digits_at(buf, pos + 1, b.len())
            &&& st + b.len() + 2 <= buf.len()
            &&& buf[pos + 1 + l] == CR
            &&& buf[pos + 2 + l] == LF
            &&& buf.subrange(st, st + b.len()) == b
            &&& buf[st + b.len()] == CR
            &&& buf[st + b.len() + 1] == LF
            &&& encode(v).len() == st + b.len() + 2 - pos
        }),
{
    lemma_tag(v);
    lemma_at(buf, pos, encode(v), 0);
    let e = encode(v);
    let b = v->Bulk_0;
    let d = decimal(b.len());
    let l = d.len() as int;
    lemma_window(buf, pos, e, 1, 1 + l);
    assert(e.subrange(1, 1 + l) =~= d);
    lemma_at(buf, pos, e, 1 + l);
    lemma_at(buf, pos, e, 2 + l);
    lemma_window(buf, pos, e, 3 + l, 3 + l + b.len());
    assert(e.subrange(3 + l, 3 + l + b.len()) =~= b);
    lemma_at(buf, pos, e, 3 + l + b.len());
    lemma_at(buf, pos, e, 4 + l + b.len());
}

proof fn lemma_array_frame(buf: Seq<u8>, pos: int, v: Resp, max: nat)
    requires
        frame_at(buf, pos, v, max),
        buf[pos] == 42,
    ensures
        v is Array,
        ({
            let items = v->Array_0;
            let l = decimal(items.len()).len() as int;
            let st = pos + 1 + l + 2;
            &&& items.len() <= max
            &&& all_well_formed(items, max)
            &&& digits_at(buf, pos + 1, items.len())
            &&& st + encode_all(items).len() <= buf.len()
            &&& buf[pos + 1 + l] == CR
            &&& buf[pos + 2 + l] == LF
            &&& buf.subrange(st, st + encode_all(items).len()) == encode_all(items)
        }),
{
    lemma_tag(v);
    lemma_at(buf, pos, encode(v), 0);
    let e = encode(v);
    let items = v->Array_0;
    let d = decimal(items.len());
    let l = d.len() as int;
    let a = encode_all(items);
    lemma_window(buf, pos, e, 1, 1 + l);
    assert(e.subrange(1, 1 + l) =~= d);
    lemma_at(buf, pos, e, 1 + l);
    lemma_at(buf, pos, e, 2 + l);
    lemma_window(buf, pos, e, 3 + l, 3 + l + a.len());
    assert(e.subrange(3 + l, 3 + l + a.len()) =~= a);
}

/// The `k`-th item of an encoded sequence sits right after the first `k`.
proof fn lemma_item_at(buf: Seq<u8>, st: int, items: Seq<Resp>, k: int, p: int)
    requires
        0 <= st <= p,
        0 <= k < items.len(),
        st + encode_all(items).len() <= buf.len(),
        buf.subrange(st, st + encode_all(items).len()) == encode_all(items),
        p <= buf.len(),
        buf.subrange(st, p) == encode_all(items.take(k)),
    ensures
        p + encode(items[k]).len() <= buf.len(),
        buf.subrange(p, p + encode(items[k]).len()) == encode(items[k]),
{
    let a = encode_all(items);
    lemma_encode_all_concat(items.take(k), items.skip(k));
    assert(items.take(k) + items.skip(k) =~= items);
    assert(items.skip(k).drop_first() =~= items.skip(k + 1));
    assert(items.skip(k)[0] == items[k]);
    assert(encode_all(items.skip(k)) == encode(items[k]) + encode_all(items.skip(k + 1)));
    let off = p - st;
    assert(encode_all(items.take(k)).len() == off);
    lemma_window(buf, st, a, off, off + encode(items[k]).len());
    assert(a.subrange(off, off + encode(items[k]).len()) =~= encode(items[k]));
}

fn parse_line(buf: &[u8], pos: usize, max: usize) -> (r: Parsed)
    requires
        pos < buf@.len(),
        buf@[pos as int] == 43 || buf@[pos as int] == 45,
    ensures
        frame_ensures(buf@, pos as int, max as nat, r),
{
    let n = buf.len();
    let mut i: usize = pos + 1;
    while i < n && buf[i] != CR
        invariant
            n == buf@.len(),
            pos + 1 <= i <= buf@.len(),
            no_cr(buf@.subrange(pos + 1, i as int)),
        decreases buf@.len() - i,
    {
        assert(buf@.subrange(pos + 1, i + 1) =~= buf@.subrange(pos + 1, i as int).push(buf@[i as int]));
        i = i + 1;
    }
    if i >= n - 1 {
        proof {
            assert forall|v: Resp| !#[trigger] frame_at(buf@, pos as int, v, max as nat) by {
                if frame_at(buf@, pos as int, v, max as nat) {
                    lemma_line_frame(buf@, pos as int, v, max as nat);
                    let s = if v is Simple {
                        v->Simple_0
                    } else {
                        v->Error_0
                    };
                    lemma_line_end(buf@, pos + 1, s, i as int);
                }
            }
        }
        return Parsed::Incomplete;
    }
    if buf[i + 1] != LF {
        proof {
            assert forall|v: Resp| !#[trigger] frame_at(buf@, pos as int, v, max as nat) by {
                if frame_at(buf@, pos as int, v, max as nat) {
                    lemma_line_frame(buf@, pos as int, v, max as nat);
                    let s = if v is Simple {
                        v->Simple_0
                    } else {
                        v->Error_0
                    };
                    lemma_line_end(buf@, pos + 1, s, i as int);
                    assert(buf@.subrange(pos + 1, pos + 3 + s.len())[s.len() as int + 1] == buf@[i + 1]);
                    assert((s + crlf())[s.len() as int + 1] == LF);
                }
            }
        }
        return Parsed::Invalid;
    }
    let payload = copy_range(buf, pos + 1, i);
    let d = if buf[pos] == 43 {
        Data::SStr(payload)
    } else {
        Data::SimpleError(payload)
    };
    proof {
        assert(buf@.subrange(pos as int, i + 2) =~= encode(d@));
    }
    Parsed::Frame(d, i + 2)
}

fn parse_int(buf: &[u8], pos: usize, max: usize) -> (r: Parsed)
    requires
        pos < buf@.len(),
        buf@[pos as int] == 58,
    ensures
        frame_ensures(buf@, pos as int, max as nat, r),
{
    let n = buf.len();
    if pos >= n - 1 {
        proof {
            assert forall|v: Resp| !#[trigger] frame_at(buf@, pos as int, v, max as nat) by {
                if frame_at(buf@, pos as int, v, max as nat) {
                    lemma_int_frame(buf@, pos as int, v, max as nat);
                }
            }
        }
        return Parsed::Incomplete;
    }
    let neg = buf[pos + 1] == 45;
    let start: usize = if neg {
        pos + 2
    } else {
        pos + 1
    };
    let limit: u64 = if neg {
        9223372036854775808
    } else {
        9223372036854775807
    };
    match parse_digits(buf, start, limit) {
        Number::Value(m, e) => {
            if (neg && m == 0) || e + 1 >= buf.len() || buf[e] != CR || buf[e + 1] != LF {
                proof {
                    assert forall|v: Resp| !#[trigger] frame_at(buf@, pos as int, v, max as nat) by {
                        if frame_at(buf@, pos as int, v, max as nat) {
                            lemma_int_frame(buf@, pos as int, v, max as nat);
                            let i = v->Integer_0;
                            let mm: nat = if i < 0 {
                                (-i) as nat
                            } else {
                                i as nat
                            };
                            lemma_digits_unique(buf@, start as int, m as nat, mm);
                        }
                    }
                }
                if e + 1 >= buf.len() {
                    return Parsed::Incomplete;
                }
                return Parsed::Invalid;
            }
            let value: i64 = if neg {
                (0i128 - (m as i128)) as i64
            } else {
                m as i64
            };
            let d = Data::Int(value);
            proof {
                lemma_decimal_shape(m as nat);
                if neg {
                    assert(signed_decimal(value as int) == seq![45u8] + decimal(m as nat));
                } else {
                    assert(signed_decimal(value as int) == decimal(m as nat));
                }
                assert(buf@.subrange(pos as int, e + 2) =~= encode(d@));
            }
            Parsed::Frame(d, e + 2)
        },
        other => {
            proof {
                assert forall|v: Resp| !#[trigger] frame_at(buf@, pos as int, v, max as nat) by {
                    if frame_at(buf@, pos as int, v, max as nat) {
                        lemma_int_frame(buf@, pos as int, v, max as nat);
                        let i = v->Integer_0;
                        let mm: nat = if i < 0 {
                            (-i) as nat
                        } else {
                            i as nat
                        };
                        assert(!digits_at(buf@, start as int, mm));
                    }
                }
            }
            match other {
                Number::Incomplete => Parsed::Incomplete,
                _ => Parsed::Invalid,
            }
        },
    }
}


fn parse_bulk(buf: &[u8], pos: usize, max: usize) -> (r: Parsed)
    requires
        pos < buf@.len(),
        buf@[pos as int] == 36,
    ensures
        frame_ensures(buf@, pos as int, max as nat, r),
        forall|m: nat| m > max && #[trigger] digits_at(buf@, pos + 1, m) ==> r is Invalid,
{
    let n = buf.len();
    match parse_digits(buf, pos + 1, max as u64) {
        Number::Value(len, e) => {
            let ghost ok = e + 1 < n && buf@[e as int] == CR && buf@[e + 1] == LF && len + 2 <= n
                - (e + 2) && buf@[e + 2 + len] == CR && buf@[e + 3 + len] == LF;
            if !(e < n - 1 && buf[e] == CR && buf[e + 1] == LF && (len as usize) <= n - (e + 2)
                && n - (e + 2) - (len as usize) >= 2 && buf[e + 2 + len as usize] == CR && buf[e
                + 3 + len as usize] == LF) {
                proof {
                    assert forall|v: Resp| !#[trigger] frame_at(buf@, pos as int, v, max as nat) by {
                        if frame_at(buf@, pos as int, v, max as nat) {
                            lemma_bulk_frame(buf@, pos as int, v, max as nat);
                            lemma_digits_unique(buf@, pos + 1, len as nat, v->Bulk_0.len());
                        }
                    }
                }
                if e >= n - 1 || (buf[e] == CR && buf[e + 1] == LF && ((len as usize) > n - (e + 2)
                    || n - (e + 2) - (len as usize) < 2)) {
                    return Parsed::Incomplete;
                }
                return Parsed::Invalid;
            }
            let st = e + 2;
            let end = st + len as usize;
            let payload = copy_range(buf, st, end);
            let d = Data::BStr(payload);
            proof {
                assert(buf@.subrange(pos as int, end + 2) =~= encode(d@));
            }
            Parsed::Frame(d, end + 2)
        },
        other => {
            proof {
                assert forall|v: Resp| !#[trigger] frame_at(buf@, pos as int, v, max as nat) by {
                    if frame_at(buf@, pos as int, v, max as nat) {
                        lemma_bulk_frame(buf@, pos as int, v, max as nat);
                        assert(!digits_at(buf@, pos + 1, v->Bulk_0.len()));
                    }
                }
            }
            match other {
                Number::Incomplete => Parsed::Incomplete,
                _ => Parsed::Invalid,
            }
        },
    }
}

/// Reads one RESP value starting at `pos`. Bulk lengths and array counts above `max`
/// are refused.
pub fn parse_frame(buf: &[u8], pos: usize, max: usize) -> (r: Parsed)
    requires
        pos <= buf@.len(),
    ensures
        r matches Parsed::Frame(d, end) ==> frame_at(buf@, pos as int, d@, max as nat) && end
            == pos + encode(d@).len(),
        !(r is Frame) ==> forall|v: Resp| !#[trigger] frame_at(buf@, pos as int, v, max as nat),
        pos == buf@.len() ==> r is Incomplete,
        pos < buf@.len() && !is_tag(buf@[pos as int]) ==> r is Invalid,
        forall|m: nat|
            pos < buf@.len() && (buf@[pos as int] == 36 || buf@[pos as int] == 42) && m > max && #[trigger] digits_at(
                buf@,
                pos + 1,
                m,
            ) ==> r is Invalid,
    decreases buf@.len() - pos,
{
    let n = buf.len();
    if pos >= n {
        proof {
            assert forall|v: Resp| !#[trigger] frame_at(buf@, pos as int, v, max as nat) by {
                lemma_tag(v);
            }
        }
        return Parsed::Incomplete;
    }
    let t = buf[pos];
    if t == 43 || t == 45 {
        return parse_line(buf, pos, max);
    }
    if t == 58 {
        return parse_int(buf, pos, max);
    }
    if t == 36 {
        return parse_bulk(buf, pos, max);
    }
    if t != 42 {
        proof {
            assert forall|v: Resp| !#[trigger] frame_at(buf@, pos as int, v, max as nat) by {
                if frame_at(buf@, pos as int, v, max as nat) {
                    lemma_tag(v);
                    lemma_at(buf@, pos as int, encode(v), 0);
                }
            }
        }
        return Parsed::Invalid;
    }
    let (count, e) = match parse_digits(buf, pos + 1, max as u64) {
        Number::Value(c, e) => (c, e),
        other => {
            proof {
                assert forall|v: Resp| !#[trigger] frame_at(buf@, pos as int, v, max as nat) by {
                    if frame_at(buf@, pos as int, v, max as nat) {
                        lemma_array_frame(buf@, pos as int, v, max as nat);
                        assert(!digits_at(buf@, pos + 1, v->Array_0.len()));
                    }
                }
            }
            return match other {
                Number::Incomplete => Parsed::Incomplete,
                _ => Parsed::Invalid,
            };
        },
    };
    if e >= n - 1 || buf[e] != CR || buf[e + 1] != LF {
        proof {
            assert forall|v: Resp| !#[trigger] frame_at(buf@, pos as int, v, max as nat) by {
                if frame_at(buf@, pos as int, v, max as nat) {
                    lemma_array_frame(buf@, pos as int, v, max as nat);
                    lemma_digits_unique(buf@, pos + 1, count as nat, v->Array_0.len());
                }
            }
        }
        if e >= n - 1 {
            return Parsed::Incomplete;
        }
        return Parsed::Invalid;
    }
    proof {
        assert forall|v: Resp| #[trigger] frame_at(buf@, pos as int, v, max as nat) implies v is Array
            && v->Array_0.len() == count by {
            lemma_array_frame(buf@, pos as int, v, max as nat);
            lemma_digits_unique(buf@, pos + 1, count as nat, v->Array_0.len());
        }
    }
    proof {
        assert forall|m: nat| m > max implies !#[trigger] digits_at(buf@, pos + 1, m) by {
            if digits_at(buf@, pos + 1, m) {
                lemma_digits_unique(buf@, pos + 1, m, count as nat);
            }
        }
    }
    let st = e + 2;
    let mut items: Vec<Data> = Vec::new();
    let mut p: usize = st;
    assert(buf@.subrange(st as int, p as int) =~= encode_all(views(items@)));
    while items.len() < count as usize
        invariant
            n == buf@.len(),
            st == pos + 1 + decimal(count as nat).len() + 2,
            st <= p <= buf@.len(),
            pos < st,
            count <= max,
            items@.len() <= count,
            buf@[pos as int] == 42,
            buf@[e as int] == CR,
            buf@[e + 1] == LF,
            e + 2 == st,
            buf@.subrange(pos + 1, e as int) == decimal(count as nat),
            forall|m: nat| m > max ==> !#[trigger] digits_at(buf@, pos + 1, m),
            buf@.subrange(st as int, p as int) == encode_all(views(items@)),
            all_well_formed(views(items@), max as nat),
            forall|v: Resp| #[trigger]
                frame_at(buf@, pos as int, v, max as nat) ==> v is Array && v->Array_0.len()
                    == count && views(items@) == v->Array_0.take(items@.len() as int),
        decreases count - items@.len(),
    {
        let ghost k = items@.len() as int;
        match parse_frame(buf, p, max) {
            Parsed::Frame(d, q) => {
                proof {
                    lemma_views(items@);
                    lemma_views_push(items@, d);
                    lemma_encode_all_push(views(items@), d@);
                    assert(buf@.subrange(st as int, q as int) =~= buf@.subrange(st as int, p as int)
                        + buf@.subrange(p as int, q as int));
                    lemma_all_well_formed(views(items@), max as nat);
                    lemma_all_well_formed(views(items@).push(d@), max as nat);
                    assert forall|v: Resp| #[trigger]
                        frame_at(buf@, pos as int, v, max as nat) implies v is Array
                        && v->Array_0.len() == count && views(items@.push(d)) == v->Array_0.take(
                        k + 1,
                    ) by {
                        let iv = v->Array_0;
                        lemma_array_frame(buf@, pos as int, v, max as nat);
                        lemma_digits_unique(buf@, pos + 1, count as nat, iv.len());
                        lemma_item_at(buf@, st as int, iv, k, p as int);
                        lemma_all_well_formed(iv, max as nat);
                        lemma_frame_unique(buf@, p as int, iv[k], d@, max as nat);
                        assert(iv.take(k).push(iv[k]) =~= iv.take(k + 1));
                    }
                }
                items.push(d);
                p = q;
            },
            Parsed::Incomplete => {
                proof {
                    assert forall|v: Resp| !#[trigger] frame_at(buf@, pos as int, v, max as nat) by {
                        if frame_at(buf@, pos as int, v, max as nat) {
                            let iv = v->Array_0;
                            lemma_array_frame(buf@, pos as int, v, max as nat);
                            lemma_digits_unique(buf@, pos + 1, count as nat, iv.len());
                            lemma_item_at(buf@, st as int, iv, k, p as int);
                            lemma_all_well_formed(iv, max as nat);
                            assert(frame_at(buf@, p as int, iv[k], max as nat));
                        }
                    }
                }
                return Parsed::Incomplete;
            },
            Parsed::Invalid => {
                proof {
                    assert forall|v: Resp| !#[trigger] frame_at(buf@, pos as int, v, max as nat) by {
                        if frame_at(buf@, pos as int, v, max as nat) {
                            let iv = v->Array_0;
                            lemma_array_frame(buf@, pos as int, v, max as nat);
                            lemma_digits_unique(buf@, pos + 1, count as nat, iv.len());
                            lemma_item_at(buf@, st as int, iv, k, p as int);
                            lemma_all_well_formed(iv, max as nat);
                            assert(frame_at(buf@, p as int, iv[k], max as nat));
                        }
                    }
                }
                return Parsed::Invalid;
            },
        }
    }
    let d = Data::Array(RedisArray(items));
    proof {
        lemma_views(items@);
        assert(d@ == Resp::Array(views(items@)));
        assert(buf@.subrange(pos as int, p as int) =~= encode(d@));
    }
    Parsed::Frame(d, p)
}


/// Codec round trip: the encoding of a well-formed value is a frame, and the only
/// frame at its start is that value. With the contract of `parse_frame`, decoding
/// `encode(v)` yields `v` and consumes every byte, so re-encoding the decoded value
/// reproduces the input.
pub proof fn lemma_round_trip(v: Resp, max: nat)
    requires
        well_formed(v, max),
    ensures
        frame_at(encode(v), 0, v, max),
        forall|w: Resp| #[trigger] frame_at(encode(v), 0, w, max) ==> w == v,
{
    assert(encode(v).subrange(0, encode(v).len() as int) =~= encode(v));
    assert forall|w: Resp| #[trigger] frame_at(encode(v), 0, w, max) implies w == v by {
        lemma_frame_unique(encode(v), 0, w, v, max);
    }
}

impl Data {
    /// Decodes the value at the start of `val`; returns it with the number of bytes it took.
    pub fn deserialize(val: &str) -> (r: (Data, usize))
        requires
            exists|v: Resp| frame_at(val.spec_bytes(), 0, v, MAX_FRAME_LEN as nat),
        ensures
            frame_at(val.spec_bytes(), 0, r.0@, MAX_FRAME_LEN as nat),
            r.1 == encode(r.0@).len(),
    {
        let bytes = val.as_bytes();
        match parse_frame(bytes, 0, MAX_FRAME_LEN) {
            Parsed::Frame(d, end) => (d, end),
            _ => {
                proof {
                    let v = choose|v: Resp| frame_at(val.spec_bytes(), 0, v, MAX_FRAME_LEN as nat);
                    assert(frame_at(bytes@, 0, v, MAX_FRAME_LEN as nat));
                }
                (Data::Int(0), 0)
            },
        }
    }
}

/// Reads the `<len>\r\n` header of a bulk string or array that starts at index 0 (the
/// type byte) and returns the length with the index where the payload starts.
pub fn get_len(val: &[u8]) -> (r: Option<(usize, usize)>)
    requires
        val@.len() < usize::MAX,
    ensures
        r matches Some((n, start)) ==> digits_at(val@, 1, n as nat) && start == decimal(
            n as nat,
        ).len() + 3 && val@[start - 2] == CR,
        r is None ==> forall|m: nat| m <= usize::MAX ==> !(#[trigger] digits_at(val@, 1, m) && val@[1
            + decimal(m).len() as int] == CR),
{
    if val.len() < 1 {
        return None;
    }
    match parse_digits(val, 1, usize::MAX as u64) {
        Number::Value(n, e) => {
            if val[e] != CR {
                proof {
                    assert forall|m: nat| m <= usize::MAX implies !(#[trigger] digits_at(val@, 1, m)
                        && val@[1 + decimal(m).len() as int] == CR) by {
                        if digits_at(val@, 1, m) {
                            lemma_digits_unique(val@, 1, m, n as nat);
                        }
                    }
                }
                return None;
            }
            Some((n as usize, e + 2))
        },
        _ => None,
    }
}


/// The wire bytes of an array holding `items`.
pub fn encode_items(items: &[Data]) -> (r: Vec<u8>)
    ensures
        r@ == encode(Resp::Array(views(items@))),
{
    let mut out: Vec<u8> = Vec::new();
    out.push(42u8);
    push_decimal(&mut out, items.len() as u64);
    push_crlf(&mut out);
    let ghost start = out@;
    proof {
        lemma_views(items@);
    }
    let mut k: usize = 0;
    while k < items.len()
        invariant
            k <= items@.len(),
            views(items@).len() == items@.len(),
            forall|j: int| 0 <= j < items@.len() ==> #[trigger] views(items@)[j] == items@[j]@,
            out@ == start + encode_all(views(items@).take(k as int)),
        decreases items@.len() - k,
    {
        items[k].encode_into(&mut out);
        proof {
            let vs = views(items@);
            lemma_encode_all_push(vs.take(k as int), vs[k as int]);
            assert(vs.take(k as int).push(vs[k as int]) =~= vs.take(k + 1));
        }
        k = k + 1;
    }
    assert(views(items@).take(k as int) =~= views(items@));
    assert(out@ =~= encode(Resp::Array(views(items@))));
    out
}

} // verus!
