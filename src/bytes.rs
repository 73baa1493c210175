//! Numbers as text and as big-endian bytes, the building blocks of the
//! object and index formats.

use vstd::prelude::*;

verus! {

/// The ASCII decimal digits of `n`, without leading zeros.
pub open spec fn decimal(n: nat) -> Seq<u8>
    decreases n,
{
    if n < 10 {
        seq![(48 + n) as u8]
    } else {
        decimal(n / 10) + seq![(48 + n % 10) as u8]
    }
}

/// The ASCII octal digits of `n`, without leading zeros.
pub open spec fn octal(n: nat) -> Seq<u8>
    decreases n,
{
    if n < 8 {
        seq![(48 + n) as u8]
    } else {
        octal(n / 8) + seq![(48 + n % 8) as u8]
    }
}

pub open spec fn is_digit(b: u8, base: nat) -> bool {
    48 <= b < 48 + base
}

pub open spec fn all_digits(s: Seq<u8>, base: nat) -> bool {
    forall|i: int| 0 <= i < s.len() ==> is_digit(#[trigger] s[i], base)
}

/// The value of a sequence of ASCII digits in base `base`.
pub open spec fn digits_value(s: Seq<u8>, base: nat) -> nat
    decreases s.len(),
{
    if s.len() == 0 {
        0
    } else {
        digits_value(s.drop_last(), base) * base + (s.last() - 48) as nat
    }
}

/// The big-endian bytes of a 32-bit value.
pub open spec fn be32(n: u32) -> Seq<u8> {
    seq![(n >> 24) as u8, (n >> 16) as u8, (n >> 8) as u8, n as u8]
}

/// The big-endian bytes of a 16-bit value.
pub open spec fn be16(n: u16) -> Seq<u8> {
    seq![(n >> 8) as u8, n as u8]
}

/// The 32-bit value of four big-endian bytes at `i`.
pub open spec fn be32_at(s: Seq<u8>, i: int) -> u32 {
    ((s[i] as u32) << 24) | ((s[i + 1] as u32) << 16) | ((s[i + 2] as u32) << 8) | (s[i
        + 3] as u32)
}

/// The 16-bit value of two big-endian bytes at `i`.
pub open spec fn be16_at(s: Seq<u8>, i: int) -> u16 {
    ((s[i] as u16) << 8) | (s[i + 1] as u16)
}

pub proof fn lemma_be32(n: u32)
    ensures
        be32_at(be32(n), 0) == n,
        be32(n).len() == 4,
{
    let b = be32(n);
    assert(b[0] == (n >> 24) as u8 && b[1] == (n >> 16) as u8 && b[2] == (n >> 8) as u8 && b[3]
        == n as u8);
    assert(((((n >> 24) as u8) as u32) << 24) | ((((n >> 16) as u8) as u32) << 16) | ((((n
        >> 8) as u8) as u32) << 8) | ((n as u8) as u32) == n) by (bit_vector);
}

pub proof fn lemma_be16(n: u16)
    ensures
        be16_at(be16(n), 0) == n,
        be16(n).len() == 2,
{
    let b = be16(n);
    assert(b[0] == (n >> 8) as u8 && b[1] == n as u8);
    assert(((((n >> 8) as u8) as u16) << 8) | ((n as u8) as u16) == n) by (bit_vector);
}

/// Decimal text is made of digits and reads back as the number.
pub proof fn lemma_decimal(n: nat)
    ensures
        all_digits(decimal(n), 10),
        digits_value(decimal(n), 10) == n,
        decimal(n).len() >= 1,
    decreases n,
{
    if n >= 10 {
        lemma_decimal(n / 10);
        assert(decimal(n).drop_last() =~= decimal(n / 10));
        assert((n / 10) * 10 + n % 10 == n) by (nonlinear_arith);
        assert(decimal(n).last() == (48 + n % 10) as u8);
        assert(((48 + n % 10) as u8) - 48 == n % 10);
        assert(digits_value(decimal(n), 10) == digits_value(decimal(n / 10), 10) * 10 + n % 10);
    } else {
        assert(((48 + n) as u8) - 48 == n);
        assert(decimal(n).drop_last() =~= Seq::<u8>::empty());
        assert(digits_value(Seq::<u8>::empty(), 10) == 0);
        assert(digits_value(decimal(n), 10) == digits_value(decimal(n).drop_last(), 10) * 10 + n);
    }
}

/// Octal text is made of digits and reads back as the number.
pub proof fn lemma_octal(n: nat)
    ensures
        all_digits(octal(n), 8),
        digits_value(octal(n), 8) == n,
        octal(n).len() >= 1,
    decreases n,
{
    if n >= 8 {
        lemma_octal(n / 8);
        assert(octal(n).drop_last() =~= octal(n / 8));
        assert((n / 8) * 8 + n % 8 == n) by (nonlinear_arith);
        assert(octal(n).last() == (48 + n % 8) as u8);
        assert(((48 + n % 8) as u8) - 48 == n % 8);
        assert(digits_value(octal(n), 8) == digits_value(octal(n / 8), 8) * 8 + n % 8);
    } else {
        assert(((48 + n) as u8) - 48 == n);
        assert(octal(n).drop_last() =~= Seq::<u8>::empty());
        assert(digits_value(Seq::<u8>::empty(), 8) == 0);
        assert(digits_value(octal(n), 8) == digits_value(octal(n).drop_last(), 8) * 8 + n);
    }
}

/// The octal text of a number has five or six digits exactly when the number
/// lies in `0o10000 .. 0o1000000`.
pub proof fn lemma_octal_len(n: nat)
    ensures
        (octal(n).len() == 5 || octal(n).len() == 6) <==> (4096 <= n < 262144),
{
    reveal_with_fuel(octal, 7);
}

/// Appends the decimal digits of `n`.
pub fn push_decimal(out: &mut Vec<u8>, n: u64)
    ensures
        final(out)@ == old(out)@ + decimal(n as nat),
    decreases n,
{
    if n >= 10 {
        push_decimal(out, n / 10);
    }
    out.push((48 + n % 10) as u8);
    proof {
        if n >= 10 {
            assert(final(out)@ =~= old(out)@ + decimal(n as nat));
        }
    }
}

/// Appends the octal digits of `n`.
pub fn push_octal(out: &mut Vec<u8>, n: u32)
    ensures
        final(out)@ == old(out)@ + octal(n as nat),
    decreases n,
{
    if n >= 8 {
        push_octal(out, n / 8);
    }
    out.push((48 + n % 8) as u8);
    proof {
        if n >= 8 {
            assert(final(out)@ =~= old(out)@ + octal(n as nat));
        }
    }
}

pub fn push_be32(out: &mut Vec<u8>, n: u32)
    ensures
        final(out)@ == old(out)@ + be32(n),
{
    out.push((n >> 24) as u8);
    out.push((n >> 16) as u8);
    out.push((n >> 8) as u8);
    out.push(n as u8);
    proof {
        assert(final(out)@ =~= old(out)@ + be32(n));
    }
}

pub fn push_be16(out: &mut Vec<u8>, n: u16)
    ensures
        final(out)@ == old(out)@ + be16(n),
{
    out.push((n >> 8) as u8);
    out.push(n as u8);
    proof {
        assert(final(out)@ =~= old(out)@ + be16(n));
    }
}

pub fn push_all(out: &mut Vec<u8>, s: &[u8])
    ensures
        final(out)@ == old(out)@ + s@,
{
    let mut i: usize = 0;
    while i < s.len()
        invariant
            0 <= i <= s@.len(),
            out@ == old(out)@ + s@.subrange(0, i as int),
        decreases s@.len() - i,
    {
        out.push(s[i]);
        i = i + 1;
        proof {
            assert(out@ =~= old(out)@ + s@.subrange(0, i as int));
        }
    }
    proof {
        assert(s@.subrange(0, s@.len() as int) =~= s@);
    }
}

pub fn read_be32(s: &[u8], i: usize) -> (r: u32)
    requires
        i + 4 <= s@.len(),
    ensures
        r == be32_at(s@, i as int),
{
    ((s[i] as u32) << 24) | ((s[i + 1] as u32) << 16) | ((s[i + 2] as u32) << 8) | (s[i
        + 3] as u32)
}

pub fn read_be16(s: &[u8], i: usize) -> (r: u16)
    requires
        i + 2 <= s@.len(),
    ensures
        r == be16_at(s@, i as int),
{
    ((s[i] as u16) << 8) | (s[i + 1] as u16)
}

/// Reads the bytes `s[from..to]` as a number in base ten or eight; `None`
/// when the range is empty, holds a non-digit, or the value does not fit.
pub fn parse_digits(s: &[u8], from: usize, to: usize, base: u64) -> (r: Option<u64>)
    requires
        from <= to <= s@.len(),
        base == 8 || base == 10,
    ensures
        r is Some <==> (from < to && all_digits(s@.subrange(from as int, to as int), base as nat)
            && digits_value(s@.subrange(from as int, to as int), base as nat) <= u64::MAX),
        r is Some ==> r->0 == digits_value(s@.subrange(from as int, to as int), base as nat),
{
    if from == to {
        return None;
    }
    let mut v: u64 = 0;
    let mut i: usize = from;
    while i < to
        invariant
            from <= i <= to <= s@.len(),
            base == 8 || base == 10,
            all_digits(s@.subrange(from as int, i as int), base as nat),
            v == digits_value(s@.subrange(from as int, i as int), base as nat),
        decreases to - i,
    {
        let c = s[i];
        let sub = Ghost(s@.subrange(from as int, i as int + 1));
        proof {
            assert(sub@.drop_last() =~= s@.subrange(from as int, i as int));
        }
        if c < 48 || c >= 48 + base as u8 {
            proof {
                assert(!is_digit(s@.subrange(from as int, to as int)[i - from], base as nat));
            }
            return None;
        }
        let d = (c - 48) as u64;
        if v > (u64::MAX - d) / base {
            proof {
                let whole = s@.subrange(from as int, to as int);
                if all_digits(whole, base as nat) {
                    lemma_digits_prefix_bound(whole, (i - from + 1) as int, base as nat);
                    assert(whole.subrange(0, i - from + 1) =~= sub@);
                }
                let (vi, di, bi) = (v as int, d as int, base as int);
                assert(vi * bi + di > u64::MAX) by (nonlinear_arith)
                    requires vi > (u64::MAX - di) / bi, bi > 0, 0 <= di <= u64::MAX;
                assert(digits_value(sub@, base as nat) == vi * bi + di);
            }
            return None;
        }
        proof {
            let (vi, di, bi) = (v as int, d as int, base as int);
            assert(vi * bi + di <= u64::MAX) by (nonlinear_arith)
                requires 0 <= vi <= (u64::MAX - di) / bi, bi > 0, 0 <= di <= u64::MAX;
        }
        v = v * base + d;
        i = i + 1;
    }
    Some(v)
}

/// The value of an optionally signed run of decimal digits.
pub open spec fn signed_value(s: Seq<u8>) -> Option<int> {
    if s.len() > 0 && (s[0] == 45 || s[0] == 43) {
        let d = s.drop_first();
        if d.len() > 0 && all_digits(d, 10) {
            Some(
                if s[0] == 45 {
                    -digits_value(d, 10)
                } else {
                    digits_value(d, 10) as int
                },
            )
        } else {
            None
        }
    } else if s.len() > 0 && all_digits(s, 10) {
        Some(digits_value(s, 10) as int)
    } else {
        None
    }
}

/// The decimal text of a signed number, with a leading `-` when negative.
pub open spec fn signed_decimal(n: int) -> Seq<u8> {
    if n < 0 {
        seq![45u8] + decimal((-n) as nat)
    } else {
        decimal(n as nat)
    }
}

pub proof fn lemma_signed_decimal(n: int)
    ensures
        signed_value(signed_decimal(n)) == Some(n),
        no_space_or_tab(signed_decimal(n)),
{
    if n < 0 {
        lemma_decimal((-n) as nat);
        assert(signed_decimal(n).drop_first() =~= decimal((-n) as nat));
    } else {
        lemma_decimal(n as nat);
    }
}

/// Holds neither a space nor a tab nor a line break.
pub open spec fn no_space_or_tab(s: Seq<u8>) -> bool {
    forall|i: int| 0 <= i < s.len() ==> #[trigger] s[i] != 32 && s[i] != 9 && s[i] != 10
}

/// Reads `s[from..to]` as an optionally signed decimal number that fits in
/// an `i64`.
pub fn parse_i64(s: &[u8], from: usize, to: usize) -> (r: Option<i64>)
    requires
        from <= to <= s@.len(),
    ensures
        r is Some <==> (signed_value(s@.subrange(from as int, to as int)) is Some && i64::MIN
            <= signed_value(s@.subrange(from as int, to as int))->0 <= i64::MAX),
        r is Some ==> r->0 == signed_value(s@.subrange(from as int, to as int))->0,
{
    let ghost t = s@.subrange(from as int, to as int);
    if from < to && (s[from] == 45 || s[from] == 43) {
        proof {
            assert(s@.subrange(from as int + 1, to as int) =~= t.drop_first());
        }
        match parse_digits(s, from + 1, to, 10) {
            Some(v) => {
                if s[from] == 45 {
                    if v <= 9223372036854775808 {
                        Some((0i128 - v as i128) as i64)
                    } else {
                        None
                    }
                } else if v <= 9223372036854775807 {
                    Some(v as i64)
                } else {
                    None
                }
            },
            None => None,
        }
    } else {
        match parse_digits(s, from, to, 10) {
            Some(v) => {
                if v <= 9223372036854775807 {
                    Some(v as i64)
                } else {
                    None
                }
            },
            None => None,
        }
    }
}

/// Appends the decimal text of a signed number.
pub fn push_signed_decimal(out: &mut Vec<u8>, n: i64)
    ensures
        final(out)@ == old(out)@ + signed_decimal(n as int),
{
    if n < 0 {
        out.push(45);
        let m: u64 = (0i128 - n as i128) as u64;
        push_decimal(out, m);
        proof {
            assert(final(out)@ =~= old(out)@ + signed_decimal(n as int));
        }
    } else {
        push_decimal(out, n as u64);
    }
}

/// Six octal digits are less than `0o1000000`.
pub proof fn lemma_digits_len_bound(s: Seq<u8>, base: nat)
    requires
        base == 8,
        s.len() <= 6,
        all_digits(s, base),
    ensures
        digits_value(s, base) < 262144,
{
    lemma_digits_pow8(s);
    reveal_with_fuel(pow8, 7);
    assert(pow8(6) == 262144);
    lemma_pow8_mono(s.len() as int, 6);
}

proof fn lemma_digits_pow8(s: Seq<u8>)
    requires
        all_digits(s, 8),
    ensures
        digits_value(s, 8) < pow8(s.len() as int),
    decreases s.len(),
{
    if s.len() > 0 {
        let p = s.drop_last();
        assert(all_digits(p, 8)) by {
            assert forall|i: int| 0 <= i < p.len() implies is_digit(#[trigger] p[i], 8) by {
                assert(p[i] == s[i]);
            }
        }
        lemma_digits_pow8(p);
        assert(is_digit(s[s.len() - 1], 8));
        let v = digits_value(p, 8);
        let d = s.last() - 48;
        let q = pow8(p.len() as int);
        assert(v * 8 + d < q * 8) by (nonlinear_arith)
            requires v < q, 0 <= d < 8;
    }
}

pub open spec fn pow8(k: int) -> nat
    decreases k,
{
    if k <= 0 {
        1
    } else {
        8 * pow8(k - 1)
    }
}

proof fn lemma_pow8_mono(a: int, b: int)
    requires
        0 <= a <= b,
    ensures
        pow8(a) <= pow8(b),
    decreases b - a,
{
    if a < b {
        lemma_pow8_mono(a, b - 1);
    }
}

/// A prefix of a run of digits never has a larger value than the whole.
pub proof fn lemma_digits_prefix_bound(s: Seq<u8>, k: int, base: nat)
    requires
        0 <= k <= s.len(),
        base >= 1,
        all_digits(s, base),
    ensures
        digits_value(s.subrange(0, k), base) <= digits_value(s, base),
    decreases s.len() - k,
{
    if k < s.len() {
        lemma_digits_prefix_bound(s, k + 1, base);
        let p = s.subrange(0, k + 1);
        assert(p.drop_last() =~= s.subrange(0, k));
        assert(is_digit(s[k], base));
        assert(digits_value(s.subrange(0, k), base) <= digits_value(p, base)) by (nonlinear_arith)
            requires
                digits_value(p, base) == digits_value(s.subrange(0, k), base) * base + (p.last() - 48) as nat,
                base >= 1,
        ;
    } else {
        assert(s.subrange(0, k) =~= s);
    }
}

} // verus!
