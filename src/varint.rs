//! Variable-length big-endian integers ("varints").
//!
//! A varint is 1 to 9 bytes long. Each of the first eight bytes carries seven
//! payload bits, its most significant bit telling whether another byte follows.
//! A ninth byte, when present, carries all eight of its bits.
use crate::parsing_error::ParsingError;
use vstd::prelude::*;

verus! {

pub type Varint = i128;

/// `128` raised to the power `n`.
pub open spec fn pow128(n: nat) -> int
    decreases n,
{
    if n == 0 {
        1
    } else {
        128 * pow128((n - 1) as nat)
    }
}

/// The value carried by the seven low bits of the first `n` bytes at `off`.
pub open spec fn varint_acc(b: Seq<u8>, off: int, n: nat) -> int
    decreases n,
{
    if n == 0 {
        0
    } else {
        varint_acc(b, off, (n - 1) as nat) * 128 + (b[off + n - 1] % 128) as int
    }
}

/// The length of the varint at `off`, looking from its byte `i` on; `None`
/// when the buffer ends before the varint does.
pub open spec fn varint_len_from(b: Seq<u8>, off: int, i: nat) -> Option<nat>
    decreases 8 - i,
{
    if off + i >= b.len() {
        None
    } else if i >= 8 {
        Some(9)
    } else if b[off + i] < 128 {
        Some(i + 1)
    } else {
        varint_len_from(b, off, i + 1)
    }
}

/// The number of bytes of the varint that starts at `off`, if the buffer holds it.
pub open spec fn varint_len(b: Seq<u8>, off: int) -> Option<nat> {
    varint_len_from(b, off, 0)
}

/// The value of a varint of `n` bytes at `off`.
pub open spec fn varint_value_of_len(b: Seq<u8>, off: int, n: nat) -> int {
    if n <= 8 {
        varint_acc(b, off, n)
    } else {
        varint_acc(b, off, 8) * 256 + b[off + 8] as int
    }
}

/// The value of the varint at `off` (meaningful when `varint_len` is `Some`).
pub open spec fn varint_value(b: Seq<u8>, off: int) -> int {
    varint_value_of_len(b, off, varint_len(b, off).unwrap())
}

/// What decoding the varint at `off` gives: its value and length, or the
/// error for a truncated buffer.
pub open spec fn varint_at(b: Seq<u8>, off: int) -> Result<(int, nat), ParsingError> {
    match varint_len(b, off) {
        Some(n) => Ok((varint_value_of_len(b, off, n), n)),
        None => Err(ParsingError::InvalidVarint),
    }
}

proof fn lemma_pow128_bound(i: nat)
    requires
        i <= 8,
    ensures
        1 <= pow128(i) <= pow128(8),
        pow128(8) == 0x100000000000000,
    decreases 8 - i,
{
    reveal_with_fuel(pow128, 9);
    if i < 8 {
        lemma_pow128_bound(i + 1);
    }
}

/// A varint that decodes takes 1 to 9 bytes, all within the buffer.
pub proof fn lemma_varint_at_bounds(b: Seq<u8>, off: int)
    requires
        varint_at(b, off) is Ok,
    ensures
        1 <= varint_at(b, off)->Ok_0.1 <= 9,
        off + varint_at(b, off)->Ok_0.1 <= b.len(),
        0 <= varint_at(b, off)->Ok_0.0 < 0x1_0000_0000_0000_0000,
{
    lemma_varint_len_from_shape(b, off, 0);
    let n = varint_at(b, off)->Ok_0.1;
    lemma_varint_acc_bound(b, off, if n <= 8 { n } else { 8 });
    lemma_pow128_bound(if n <= 8 { n } else { 8 });
    lemma_pow128_bound(8);
}

proof fn lemma_varint_acc_bound(b: Seq<u8>, off: int, n: nat)
    requires
        n <= 8,
    ensures
        0 <= varint_acc(b, off, n) < pow128(n),
    decreases n,
{
    if n > 0 {
        lemma_varint_acc_bound(b, off, (n - 1) as nat);
    }
}

proof fn lemma_varint_len_from_shape(b: Seq<u8>, off: int, i: nat)
    requires
        i <= 8,
        varint_len_from(b, off, i) is Some,
    ensures
        i < varint_len_from(b, off, i).unwrap() <= 9,
        off + varint_len_from(b, off, i).unwrap() <= b.len(),
    decreases 8 - i,
{
    if off + i < b.len() && i < 8 && b[off + i] >= 128 {
        lemma_varint_len_from_shape(b, off, i + 1);
    }
}

/// The 7-bit groups of `v` over `n` bytes, most significant first, each with
/// its continuation bit set.
pub open spec fn varint_groups(v: nat, n: nat) -> Seq<u8>
    decreases n,
{
    if n == 0 {
        seq![]
    } else {
        varint_groups(v / 128, (n - 1) as nat).push((128 + v % 128) as u8)
    }
}

/// The encoding of `v` as a varint of `n` bytes (legal when `varint_fits(v, n)`).
pub open spec fn encode_varint(v: nat, n: nat) -> Seq<u8> {
    if n <= 8 {
        varint_groups(v, n).update(n - 1, (v % 128) as u8)
    } else {
        varint_groups(v / 256, 8).push((v % 256) as u8)
    }
}

/// Whether `v` can be written as a varint of exactly `n` bytes.
pub open spec fn varint_fits(v: nat, n: nat) -> bool {
    &&& 1 <= n <= 9
    &&& if n <= 8 {
        v < pow128(n)
    } else {
        v < pow128(8) * 256
    }
}

proof fn lemma_groups_shape(v: nat, n: nat)
    ensures
        varint_groups(v, n).len() == n,
        forall|i: int| 0 <= i < n ==> #[trigger] varint_groups(v, n)[i] >= 128,
    decreases n,
{
    if n > 0 {
        lemma_groups_shape(v / 128, (n - 1) as nat);
    }
}

proof fn lemma_acc_groups(b: Seq<u8>, off: int, v: nat, n: nat)
    requires
        v < pow128(n),
        0 <= off,
        off + n <= b.len(),
        forall|i: int| 0 <= i < n ==> #[trigger] (b[off + i] % 128) == varint_groups(v, n)[i] % 128,
    ensures
        varint_acc(b, off, n) == v,
    decreases n,
{
    if n > 0 {
        let p = pow128((n - 1) as nat);
        lemma_groups_shape(v / 128, (n - 1) as nat);
        assert(v / 128 < p) by {
            vstd::arithmetic::div_mod::lemma_multiply_divide_lt(v as int, 128, p);
        }
        assert forall|i: int| 0 <= i < n - 1 implies #[trigger] (b[off + i] % 128) == varint_groups(
            v / 128,
            (n - 1) as nat,
        )[i] % 128 by {
            assert(varint_groups(v, n)[i] == varint_groups(v / 128, (n - 1) as nat)[i]);
        }
        lemma_acc_groups(b, off, v / 128, (n - 1) as nat);
        assert(b[off + n - 1] % 128 == varint_groups(v, n)[n - 1] % 128);
        assert(varint_groups(v, n)[n - 1] == (128 + v % 128) as u8);
        vstd::arithmetic::div_mod::lemma_fundamental_div_mod(v as int, 128);
    }
}

proof fn lemma_len_from_encoding(b: Seq<u8>, off: int, n: nat, i: nat)
    requires
        1 <= n <= 9,
        i < n,
        0 <= off,
        off + n <= b.len(),
        forall|j: int| 0 <= j < n - 1 && j < 8 ==> #[trigger] b[off + j] >= 128,
        n <= 8 ==> b[off + n - 1] < 128,
    ensures
        varint_len_from(b, off, i) == Some(n),
    decreases n - i,
{
    if i < n - 1 && i < 8 {
        lemma_len_from_encoding(b, off, n, i + 1);
    }
}

/// Whether the `n` bytes at `off` form a legal varint: 1 to 9 bytes, every
/// byte but the last of at most eight with its top bit set, and the last
/// with it clear when there are at most eight.
pub open spec fn legal_encoding(b: Seq<u8>, off: int, n: nat) -> bool {
    &&& 1 <= n <= 9
    &&& 0 <= off
    &&& off + n <= b.len()
    &&& forall|j: int| 0 <= j < n - 1 && j < 8 ==> #[trigger] b[off + j] >= 128
    &&& n <= 8 ==> b[off + n - 1] < 128
}

/// A legal encoding of `n` bytes decodes, and the decoder moves past exactly
/// those `n` bytes.
pub proof fn lemma_legal_encoding_decodes(b: Seq<u8>, off: int, n: nat)
    requires
        legal_encoding(b, off, n),
    ensures
        varint_at(b, off) == Ok::<(int, nat), ParsingError>((varint_value_of_len(b, off, n), n)),
{
    lemma_len_from_encoding(b, off, n, 0);
}

/// Decoding the encoding of a value gives the value back, and the decoder
/// moves past exactly the bytes of the encoding, whatever surrounds it.
pub proof fn lemma_varint_round_trip(pre: Seq<u8>, v: nat, n: nat, post: Seq<u8>)
    requires
        varint_fits(v, n),
    ensures
        encode_varint(v, n).len() == n,
        varint_at(pre + encode_varint(v, n) + post, pre.len() as int) == Ok::<(int, nat), ParsingError>(
            (v as int, n),
        ),
{
    let e = encode_varint(v, n);
    let b = pre + e + post;
    let off = pre.len() as int;
    if n <= 8 {
        lemma_groups_shape(v, n);
        assert forall|j: int| 0 <= j < n implies #[trigger] b[off + j] == e[j] by {}
        assert forall|i: int| 0 <= i < n implies #[trigger] (b[off + i] % 128) == varint_groups(v, n)[i] % 128 by {
            assert(b[off + i] == e[i]);
        }
        lemma_acc_groups(b, off, v, n);
        assert forall|j: int| 0 <= j < n - 1 && j < 8 implies #[trigger] b[off + j] >= 128 by {
            assert(b[off + j] == e[j]);
        }
        assert(b[off + n - 1] == e[n - 1]);
        lemma_len_from_encoding(b, off, n, 0);
    } else {
        lemma_groups_shape(v / 256, 8);
        lemma_pow128_bound(8);
        assert(v / 256 < pow128(8)) by {
            vstd::arithmetic::div_mod::lemma_multiply_divide_lt(v as int, 256, pow128(8));
        }
        assert forall|j: int| 0 <= j < 9 implies #[trigger] b[off + j] == e[j] by {}
        assert forall|i: int| 0 <= i < 8 implies #[trigger] (b[off + i] % 128) == varint_groups(v / 256, 8)[i] % 128 by {
            assert(b[off + i] == e[i]);
        }
        lemma_acc_groups(b, off, v / 256, 8);
        assert forall|j: int| 0 <= j < n - 1 && j < 8 implies #[trigger] b[off + j] >= 128 by {
            assert(b[off + j] == e[j]);
        }
        lemma_len_from_encoding(b, off, n, 0);
        vstd::arithmetic::div_mod::lemma_fundamental_div_mod(v as int, 256);
    }
}

/// Whether the most significant bit of `number` is set.
pub fn is_msb_set(number: u8) -> (r: bool)
    ensures
        r == (number >= 128),
{
    assert((number & 0x80u8 != 0) == (number >= 128)) by (bit_vector);
    number & 0x80u8 != 0
}

/// Decodes the varint that starts at `*offset` in `buffer` and moves `*offset`
/// past it; a buffer that ends inside the varint gives `InvalidVarint` and
/// leaves `*offset` as it was.
pub fn parse_varint(offset: &mut usize, buffer: &[u8]) -> (r: Result<Varint, ParsingError>)
    ensures
        match varint_at(buffer@, *old(offset) as int) {
            Ok((v, n)) => 0 <= v < 0x1_0000_0000_0000_0000 && r == Ok::<Varint, ParsingError>(v as i128)
                && *final(offset) == *old(offset) + n,
            Err(e) => r == Err::<Varint, ParsingError>(e) && *final(offset) == *old(offset),
        },
        r is Ok ==> *old(offset) < *final(offset) <= buffer@.len(),
{
    proof {
        if varint_at(buffer@, *old(offset) as int) is Ok {
            lemma_varint_at_bounds(buffer@, *old(offset) as int);
        }
    }
    let start = *offset;
    let ghost b = buffer@;
    let mut result: i128 = 0;
    let mut i: usize = 0;
    if start >= buffer.len() {
        return Err(ParsingError::InvalidVarint);
    }
    while i < 8
        invariant
            start == *old(offset),
            *offset == start,
            b == buffer@,
            start < buffer.len(),
            i <= 8,
            0 <= result < pow128(i as nat),
            result == varint_acc(b, start as int, i as nat),
            varint_len(b, start as int) == varint_len_from(b, start as int, i as nat),
        decreases 8 - i,
    {
        if i >= buffer.len() - start {
            return Err(ParsingError::InvalidVarint);
        }
        let byte = buffer[start + i];
        proof {
            lemma_pow128_bound(i as nat);
            lemma_pow128_bound((i + 1) as nat);
        }
        result = result * 128 + (byte % 128) as i128;
        if !is_msb_set(byte) {
            *offset = start + i + 1;
            return Ok(result);
        }
        i = i + 1;
    }
    if 8 >= buffer.len() - start {
        return Err(ParsingError::InvalidVarint);
    }
    proof {
        lemma_pow128_bound(8);
    }
    result = result * 256 + buffer[start + 8] as i128;
    *offset = start + 9;
    Ok(result)
}

} // verus!
