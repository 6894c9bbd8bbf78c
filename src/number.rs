use vstd::prelude::*;
use crate::protocol::{all_digits, digits_value, is_digit, lemma_prefix_value_le};

verus! {

/// The value of a non-empty run of decimal digits.
pub open spec fn digits_of(t: Seq<u8>) -> Option<nat> {
    if t.len() > 0 && all_digits(t) {
        Some(digits_value(t))
    } else {
        None
    }
}

/// An unsigned decimal with an optional leading `+`.
pub open spec fn uint_of(s: Seq<u8>) -> Option<nat> {
    if s.len() > 0 && s[0] == 43 {
        digits_of(s.drop_first())
    } else {
        digits_of(s)
    }
}

/// A signed decimal with an optional leading `+` or `-`.
pub open spec fn int_of(s: Seq<u8>) -> Option<int> {
    if s.len() > 0 && s[0] == 45 {
        match digits_of(s.drop_first()) {
            Some(n) => Some(-n),
            None => None,
        }
    } else {
        match uint_of(s) {
            Some(n) => Some(n as int),
            None => None,
        }
    }
}

/// `uint_of(s)` when it is at most `limit`.
pub open spec fn uint_within(s: Seq<u8>, limit: int) -> Option<nat> {
    match uint_of(s) {
        Some(n) => if n <= limit {
            Some(n)
        } else {
            None
        },
        None => None,
    }
}

/// `int_of(s)` when it lies in `lo..=hi`.
pub open spec fn int_within(s: Seq<u8>, lo: int, hi: int) -> Option<int> {
    match int_of(s) {
        Some(n) => if lo <= n <= hi {
            Some(n)
        } else {
            None
        },
        None => None,
    }
}

fn digits_bounded(s: &[u8], start: usize, limit: u64) -> (r: Option<u64>)
    requires
        start <= s@.len(),
    ensures
        r matches Some(n) ==> digits_of(s@.skip(start as int)) == Some(n as nat) && n <= limit,
        r is None ==> match digits_of(s@.skip(start as int)) {
            Some(n) => n > limit,
            None => true,
        },
{
    let ghost t = s@.skip(start as int);
    if start >= s.len() {
        return None;
    }
    let mut i: usize = start;
    let mut val: u64 = 0;
    while i < s.len()
        invariant
            start <= i <= s@.len(),
            t == s@.skip(start as int),
            all_digits(t.take(i - start)),
            val == digits_value(t.take(i - start)),
            val <= limit,
        decreases s@.len() - i,
    {
        let c = s[i];
        if c < 48 || c > 57 {
            assert(t[i - start] == c);
            return None;
        }
        let d: u64 = (c - 48) as u64;
        let ghost next = t.take(i + 1 - start);
        assert(next.drop_last() =~= t.take(i - start));
        assert(next.last() == c);
        assert(all_digits(next));
        if d > limit || val > (limit - d) / 10 {
            proof {
                if d <= limit {
                    assert(val * 10 + d > limit) by (nonlinear_arith)
                        requires
                            val > (limit - d) / 10,
                            d <= limit,
                    ;
                }
                if t.len() > 0 && all_digits(t) {
                    lemma_prefix_value_le(t, i + 1 - start);
                    assert(t.take(i + 1 - start) == next);
                }
            }
            return None;
        }
        val = val * 10 + d;
        i = i + 1;
    }
    assert(t.take(i - start) =~= t);
    Some(val)
}

/// Reads an unsigned decimal (optional `+`) that fits in `limit`.
pub fn parse_uint(s: &[u8], limit: u64) -> (r: Option<u64>)
    ensures
        r matches Some(n) ==> uint_within(s@, limit as int) == Some(n as nat),
        r is None ==> uint_within(s@, limit as int) is None,
{
    if s.len() > 0 && s[0] == 43 {
        assert(s@.drop_first() =~= s@.skip(1));
        digits_bounded(s, 1, limit)
    } else {
        assert(s@ =~= s@.skip(0));
        digits_bounded(s, 0, limit)
    }
}

/// Reads a signed decimal (optional `+` or `-`) that fits in an `i64`.
pub fn parse_i64(s: &[u8]) -> (r: Option<i64>)
    ensures
        r matches Some(n) ==> int_within(s@, i64::MIN as int, i64::MAX as int) == Some(n as int),
        r is None ==> int_within(s@, i64::MIN as int, i64::MAX as int) is None,
{
    if s.len() > 0 && s[0] == 45 {
        assert(s@.drop_first() =~= s@.skip(1));
        match digits_bounded(s, 1, 9223372036854775808) {
            Some(m) => Some((0i128 - m as i128) as i64),
            None => None,
        }
    } else {
        match parse_uint(s, 9223372036854775807) {
            Some(m) => Some(m as i64),
            None => None,
        }
    }
}

/// Reads a signed decimal that fits in an `isize`.
pub fn parse_isize(s: &[u8]) -> (r: Option<isize>)
    ensures
        r matches Some(n) ==> int_within(s@, isize::MIN as int, isize::MAX as int) == Some(
            n as int,
        ),
        r is None ==> int_within(s@, isize::MIN as int, isize::MAX as int) is None,
{
    match parse_i64(s) {
        Some(v) => {
            if (v as i128) < (isize::MIN as i128) || (v as i128) > (isize::MAX as i128) {
                None
            } else {
                Some(v as isize)
            }
        },
        None => {
            proof {
                assert(isize::MIN >= i64::MIN && isize::MAX <= i64::MAX);
            }
            None
        },
    }
}

/// Milliseconds in a digit run read as the first three decimals of a fraction of a second.
pub open spec fn frac_ms(f: Seq<u8>) -> nat {
    let a: nat = if f.len() > 0 { (f[0] - 48) as nat } else { 0 };
    let b: nat = if f.len() > 1 { (f[1] - 48) as nat } else { 0 };
    let c: nat = if f.len() > 2 { (f[2] - 48) as nat } else { 0 };
    a * 100 + b * 10 + c
}

/// Position of the first `.` in `s`, if any.
pub open spec fn has_dot_at(s: Seq<u8>, k: int) -> bool {
    0 <= k < s.len() && s[k] == 46 && forall|j: int| 0 <= j < k ==> s[j] != 46
}

/// A timeout in seconds, `<digits>` or `<digits>.<digits>`, in whole milliseconds
/// (decimals past the third are dropped).
pub open spec fn seconds_ms(s: Seq<u8>) -> Option<nat> {
    if exists|k: int| has_dot_at(s, k) {
        let k = choose|k: int| has_dot_at(s, k);
        let f = s.skip(k + 1);
        match digits_of(s.take(k)) {
            Some(n) => if all_digits(f) {
                Some(n * 1000 + frac_ms(f))
            } else {
                None
            },
            None => None,
        }
    } else {
        match digits_of(s) {
            Some(n) => Some(n * 1000),
            None => None,
        }
    }
}

/// Reads a timeout given in seconds (see `seconds_ms`) as milliseconds.
pub fn parse_timeout_ms(s: &[u8]) -> (r: Option<u64>)
    ensures
        r matches Some(n) ==> seconds_ms(s@) == Some(n as nat) && n <= 18446744073709550999,
        r is None ==> match seconds_ms(s@) {
            Some(n) => n > 18446744073709550999,
            None => true,
        },
{
    let mut k: usize = 0;
    while k < s.len() && s[k] != 46
        invariant
            k <= s@.len(),
            forall|j: int| 0 <= j < k ==> s@[j] != 46,
        decreases s@.len() - k,
    {
        k = k + 1;
    }
    let limit: u64 = 18446744073709550;
    if k == s.len() {
        assert(!exists|k: int| has_dot_at(s@, k));
        assert(s@ =~= s@.skip(0));
        return match digits_bounded(s, 0, limit) {
            Some(n) => Some(n * 1000),
            None => None,
        };
    }
    assert(has_dot_at(s@, k as int));
    proof {
        assert forall|k2: int| has_dot_at(s@, k2) implies k2 == k by {
            if k2 < k {
            } else if k2 > k {
                assert(s@[k as int] != 46);
            }
        }
    }
    let head = crate::common::copy_slice(s, 0, k);
    assert(head@ =~= s@.take(k as int));
    assert(head@ =~= head@.skip(0));
    let whole = match digits_bounded(head.as_slice(), 0, limit) {
        Some(n) => n,
        None => {
            proof {
                let kk = choose|k2: int| has_dot_at(s@, k2);
                assert(kk == k);
            }
            return None;
        },
    };
    proof {
        let kk = choose|k2: int| has_dot_at(s@, k2);
        assert(kk == k);
    }
    let mut j: usize = k + 1;
    let mut ms: u64 = 0;
    let ghost f = s@.skip(k + 1);
    while j < s.len()
        invariant
            k + 1 <= j <= s@.len(),
            f == s@.skip(k + 1),
            has_dot_at(s@, k as int),
            (choose|k2: int| has_dot_at(s@, k2)) == k,
            all_digits(f.take(j - k - 1)),
            ms == frac_ms(f.take(j - k - 1)),
        decreases s@.len() - j,
    {
        let c = s[j];
        if c < 48 || c > 57 {
            assert(f[j - k - 1] == c);
            assert(!all_digits(f));
            return None;
        }
        let pos = j - k - 1;
        let ghost nt = f.take(j - k);
        assert(all_digits(nt)) by {
            assert forall|q: int| 0 <= q < nt.len() implies is_digit(#[trigger] nt[q]) by {
                if q < j - k - 1 {
                    assert(nt[q] == f.take(j - k - 1)[q]);
                }
            }
        }
        if pos == 0 {
            ms = ms + (c - 48) as u64 * 100;
        } else if pos == 1 {
            ms = ms + (c - 48) as u64 * 10;
        } else if pos == 2 {
            ms = ms + (c - 48) as u64;
        }
        j = j + 1;
    }
    assert(f.take(j - k - 1) =~= f);
    assert(ms <= 999);
    Some(whole * 1000 + ms)
}

} // verus!
