//! Decimal text of integers, held as ASCII bytes.
use vstd::prelude::*;

verus! {

/// The ASCII digits of `n`, most significant first.
pub open spec fn digits(n: nat) -> Seq<u8>
    decreases n,
{
    if n < 10 {
        seq![(48 + n) as u8]
    } else {
        digits(n / 10).push((48 + n % 10) as u8)
    }
}

/// The base-10 text of `v`, with a leading `-` when it is negative.
pub open spec fn decimal(v: int) -> Seq<u8> {
    if v < 0 {
        seq![45u8] + digits((-v) as nat)
    } else {
        digits(v as nat)
    }
}

/// Whether `c` is an ASCII decimal digit.
pub open spec fn is_digit(c: u8) -> bool {
    48 <= c <= 57
}

/// The value of a run of ASCII digits (any other byte counts as its offset from `0`).
pub open spec fn digits_value(s: Seq<u8>) -> int
    decreases s.len(),
{
    if s.len() == 0 {
        0
    } else {
        digits_value(s.drop_last()) * 10 + (s.last() - 48)
    }
}

/// Whether every byte of `s` is a digit.
pub open spec fn all_digits(s: Seq<u8>) -> bool {
    forall|i: int| 0 <= i < s.len() ==> is_digit(#[trigger] s[i])
}

/// Whether `s` starts with a `+` or `-` sign.
pub open spec fn has_sign(s: Seq<u8>) -> bool {
    s.len() > 0 && (s[0] == 43 || s[0] == 45)
}

/// `s` without its sign.
pub open spec fn unsigned_part(s: Seq<u8>) -> Seq<u8> {
    if has_sign(s) {
        s.drop_first()
    } else {
        s
    }
}

/// What reading `s` as a base-10 `i128` gives: an optional `+` or `-`, then
/// one or more digits and nothing else, with a value in range.
pub open spec fn decimal_value(s: Seq<u8>) -> Option<int> {
    let body = unsigned_part(s);
    let v = if s.len() > 0 && s[0] == 45 {
        -digits_value(body)
    } else {
        digits_value(body)
    };
    if body.len() == 0 || !all_digits(body) || v < i128::MIN || v > i128::MAX {
        None
    } else {
        Some(v)
    }
}

/// Appends the digits of `n` to `out`.
fn push_digits(n: u128, out: &mut Vec<u8>)
    ensures
        final(out)@ == old(out)@ + digits(n as nat),
    decreases n,
{
    if n < 10 {
        out.push((48 + n) as u8);
        assert(old(out)@ + digits(n as nat) == old(out)@.push((48 + n) as u8));
    } else {
        push_digits(n / 10, out);
        out.push((48 + n % 10) as u8);
        assert(old(out)@ + digits(n as nat) == (old(out)@ + digits((n / 10) as nat)).push(
            (48 + n % 10) as u8,
        ));
    }
}

/// The base-10 text of `v`.
pub fn int_to_decimal(v: i128) -> (r: Vec<u8>)
    ensures
        r@ == decimal(v as int),
{
    let mut out: Vec<u8> = Vec::new();
    if v < 0 {
        out.push(45u8);
        let m: u128 = ((-(v + 1)) as u128) + 1;
        push_digits(m, &mut out);
    } else {
        push_digits(v as u128, &mut out);
    }
    out
}

proof fn lemma_digits_value_mono(s: Seq<u8>, k: int)
    requires
        0 <= k <= s.len(),
        forall|i: int| 0 <= i < s.len() ==> is_digit(#[trigger] s[i]),
    ensures
        0 <= digits_value(s.subrange(0, k)) <= digits_value(s),
    decreases s.len(),
{
    if s.len() > 0 {
        if k == s.len() {
            assert(s.subrange(0, k) == s);
            lemma_digits_value_mono(s.drop_last(), 0);
        } else {
            assert(s.drop_last().subrange(0, k) == s.subrange(0, k));
            lemma_digits_value_mono(s.drop_last(), k);
        }
    } else {
        assert(s.subrange(0, k) == s);
    }
}

/// Reads `s` as a base-10 `i128`, as `decimal_value` says.
pub fn parse_decimal(s: &[u8]) -> (r: Option<i128>)
    ensures
        r == match decimal_value(s@) {
            Some(v) => Some(v as i128),
            None => None::<i128>,
        },
{
    let ghost sv = s@;
    let n = s.len();
    let mut start: usize = 0;
    let mut negative = false;
    if n > 0 && (s[0] == 43u8 || s[0] == 45u8) {
        start = 1;
        negative = s[0] == 45u8;
    }
    assert(negative == (sv.len() > 0 && sv[0] == 45));
    let ghost body = if start == 1 {
        sv.drop_first()
    } else {
        sv
    };
    assert(body == sv.subrange(start as int, n as int));
    assert(start == 1 <==> (sv.len() > 0 && (sv[0] == 43 || sv[0] == 45)));
    if start >= n {
        return None;
    }
    let limit: u128 = 0x8000_0000_0000_0000_0000_0000_0000_0000;
    let mut acc: u128 = 0;
    let mut i: usize = start;
    while i < n
        invariant
            sv == s@,
            n == s@.len(),
            start <= i <= n,
            body == sv.subrange(start as int, n as int),
            body == unsigned_part(sv),
            negative == (sv.len() > 0 && sv[0] == 45),
            forall|j: int| 0 <= j < i - start ==> is_digit(#[trigger] body[j]),
            acc as int == digits_value(body.subrange(0, i - start)),
            acc <= limit,
            limit == 0x8000_0000_0000_0000_0000_0000_0000_0000,
        decreases n - i,
    {
        let c = s[i];
        if c < 48u8 || c > 57u8 {
            assert(!is_digit(body[i - start]));
            assert(body.len() > 0);
            assert(!all_digits(body));
            assert(decimal_value(sv) is None);
            return None;
        }
        assert(body.subrange(0, i + 1 - start).drop_last() == body.subrange(0, i - start));
        assert(body.subrange(0, i + 1 - start).last() == c);
        assert(digits_value(body.subrange(0, i + 1 - start)) == acc * 10 + (c - 48));
        if acc > 17014118346046923173168730371588410572u128 {
            proof {
                assert forall|j: int| 0 <= j < i + 1 - start implies is_digit(
                    #[trigger] body.subrange(0, i + 1 - start)[j],
                ) by {}
                assert(limit == 0x8000_0000_0000_0000_0000_0000_0000_0000);
                assert(acc * 10 > limit);
                assert(digits_value(body.subrange(0, i + 1 - start)) > limit);
                if all_digits(body) {
                    lemma_digits_value_mono(body, i + 1 - start);
                    assert(digits_value(body) > limit);
                }
                assert(decimal_value(sv) is None);
            }
            return None;
        }
        acc = acc * 10 + (c - 48) as u128;
        assert(digits_value(body.subrange(0, i + 1 - start)) == acc);
        if acc > limit {
            proof {
                if all_digits(body) {
                    lemma_digits_value_mono(body, i + 1 - start);
                    assert(digits_value(body) > limit);
                }
                assert(decimal_value(sv) is None);
            }
            return None;
        }
        i = i + 1;
    }
    assert(body.subrange(0, n - start) == body);
    if negative {
        if acc == limit {
            Some(-170141183460469231731687303715884105727i128 - 1)
        } else {
            Some(-(acc as i128))
        }
    } else if acc == limit {
        None
    } else {
        Some(acc as i128)
    }
}

} // verus!
