use vstd::prelude::*;

use crate::error::EvalError;
use vstd::math::abs;

verus! {

/// `v` fits in an `i64`.
pub open spec fn fits(v: int) -> bool {
    i64::MIN <= v <= i64::MAX
}

/// `v` as an `i64`, or `Overflow`.
pub open spec fn checked(v: int) -> Result<i64, EvalError> {
    if fits(v) {
        Ok(v as i64)
    } else {
        Err(EvalError::Overflow)
    }
}

/// `b` multiplied by itself `e - 1` times; `b` itself when `e` is at most 1.
pub open spec fn power(b: int, e: int) -> int
    decreases e,
{
    if e <= 1 {
        b
    } else {
        b * power(b, e - 1)
    }
}

/// The number of decimal digits of `n`.
pub open spec fn num_digits(n: nat) -> nat
    decreases n,
{
    if n < 10 {
        1
    } else {
        1 + num_digits(n / 10)
    }
}

/// Ten to the power `k`.
pub open spec fn pow10(k: nat) -> nat
    decreases k,
{
    if k == 0 {
        1
    } else {
        10 * pow10((k - 1) as nat)
    }
}

/// The integer that the decimal text of `l` followed by the decimal text of `r`
/// reads as.
pub open spec fn joined(l: int, r: nat) -> int {
    if l >= 0 {
        l * pow10(num_digits(r)) + r
    } else {
        l * pow10(num_digits(r)) - r
    }
}

/// The integer that the decimal text of `r` written `k` times reads as.
pub open spec fn repeated(r: nat, k: nat) -> int
    decreases k,
{
    if k <= 1 {
        r as int
    } else {
        joined(repeated(r, (k - 1) as nat), r)
    }
}

/// The decimal text of `l` followed by that of `r`, read as an integer: a text
/// with a `-` inside reads as none.
pub open spec fn concat_value(l: i64, r: i64) -> Result<i64, EvalError> {
    if r < 0 {
        Err(EvalError::NotANumber)
    } else {
        checked(joined(l as int, r as nat))
    }
}

/// The decimal text of `r` written `k` times, read as an integer: no text at all
/// when `k` is not positive, and a `-` inside when `r` is negative and written
/// more than once, read as none.
pub open spec fn repeat_value(r: i64, k: i64) -> Result<i64, EvalError> {
    if k <= 0 {
        Err(EvalError::NotANumber)
    } else if k == 1 {
        Ok(r)
    } else if r < 0 {
        Err(EvalError::NotANumber)
    } else {
        checked(repeated(r as nat, k as nat))
    }
}

proof fn lemma_pow10_pos(k: nat)
    ensures
        pow10(k) >= 1,
    decreases k,
{
    if k > 0 {
        lemma_pow10_pos((k - 1) as nat);
    }
}

proof fn lemma_pow10_mono(a: nat, b: nat)
    requires
        a <= b,
    ensures
        pow10(a) <= pow10(b),
    decreases b,
{
    if a < b {
        lemma_pow10_mono(a, (b - 1) as nat);
        lemma_pow10_pos((b - 1) as nat);
    }
}

proof fn lemma_digits_bound(n: nat, k: nat)
    requires
        k >= 1,
        n < pow10(k),
    ensures
        num_digits(n) <= k,
    decreases n,
{
    if n >= 10 {
        if k == 1 {
            assert(pow10(1) == 10) by {
                reveal_with_fuel(pow10, 2);
            }
        } else {
            assert(n / 10 < pow10((k - 1) as nat));
            lemma_digits_bound(n / 10, (k - 1) as nat);
        }
    }
}

/// The scale for appending the digits of `r` is at most ten to the nineteenth.
proof fn lemma_scale_bound(r: nat)
    requires
        r <= i64::MAX,
    ensures
        pow10(num_digits(r)) <= 10_000_000_000_000_000_000,
{
    assert(pow10(19) == 10_000_000_000_000_000_000) by {
        reveal_with_fuel(pow10, 20);
    }
    lemma_digits_bound(r, 19);
    lemma_pow10_mono(num_digits(r), 19);
}

/// `v` as an `i64`, or `Overflow` when it does not fit.
fn narrow(v: i128) -> (r: Result<i64, EvalError>)
    ensures
        r == checked(v as int),
{
    if v < i64::MIN as i128 || v > i64::MAX as i128 {
        Err(EvalError::Overflow)
    } else {
        Ok(v as i64)
    }
}

/// `l + r`, or `Overflow`.
pub fn add_value(l: i64, r: i64) -> (v: Result<i64, EvalError>)
    ensures
        v == checked(l + r),
{
    narrow(l as i128 + r as i128)
}

/// `l - r`, or `Overflow`.
pub fn sub_value(l: i64, r: i64) -> (v: Result<i64, EvalError>)
    ensures
        v == checked(l - r),
{
    narrow(l as i128 - r as i128)
}

/// `l * r`, or `Overflow`.
pub fn mul_value(l: i64, r: i64) -> (v: Result<i64, EvalError>)
    ensures
        v == checked(l * r),
{
    proof {
        assert(-0x8000_0000_0000_0000_0000_0000_0000_0000 <= (l as int) * (r as int)
            <= 0x7fff_ffff_ffff_ffff_ffff_ffff_ffff_ffff) by (nonlinear_arith)
            requires
                i64::MIN <= l <= i64::MAX,
                i64::MIN <= r <= i64::MAX,
        ;
    }
    narrow(l as i128 * r as i128)
}

proof fn lemma_power_fixed(b: int, e: int)
    requires
        b == 0 || b == 1,
    ensures
        power(b, e) == b,
    decreases e,
{
    if e > 1 {
        lemma_power_fixed(b, e - 1);
    }
}

proof fn lemma_power_minus_one(e: int)
    requires
        e >= 1,
    ensures
        power(-1, e) == (if e % 2 == 0 {
            1int
        } else {
            -1int
        }),
    decreases e,
{
    if e > 1 {
        lemma_power_minus_one(e - 1);
    }
}

proof fn lemma_power_grows(b: int, i: int, k: int)
    requires
        b <= -2 || b >= 2,
        1 <= i <= k,
    ensures
        abs(power(b, i)) <= abs(power(b, k)),
    decreases k,
{
    if i < k {
        lemma_power_grows(b, i, k - 1);
        let p = power(b, k - 1);
        assert(abs(p) <= abs(b * p)) by (nonlinear_arith)
            requires
                b <= -2 || b >= 2,
        ;
    }
}

/// `b` multiplied by itself `e - 1` times, or `Overflow`.
pub fn power_value(b: i64, e: i64) -> (v: Result<i64, EvalError>)
    ensures
        v == checked(power(b as int, e as int)),
{
    if e <= 1 {
        return Ok(b);
    }
    if b == 0 || b == 1 {
        proof {
            lemma_power_fixed(b as int, e as int);
        }
        return Ok(b);
    }
    if b == -1 {
        proof {
            lemma_power_minus_one(e as int);
        }
        return if e % 2 == 0 {
            Ok(1)
        } else {
            Ok(-1)
        };
    }
    let mut acc: i64 = b;
    let mut i: i64 = 1;
    while i < e
        invariant
            1 <= i <= e,
            b <= -2 || b >= 2,
            acc as int == power(b as int, i as int),
        decreases e - i,
    {
        let next = mul_value(acc, b);
        proof {
            assert(power(b as int, i + 1) == b * power(b as int, i as int));
            assert((acc as int) * (b as int) == (b as int) * (acc as int)) by (nonlinear_arith);
        }
        match next {
            Ok(v) => {
                acc = v;
            },
            Err(_) => {
                proof {
                    let q = power(b as int, i + 1);
                    assert(!fits(q));
                    if i + 1 < e {
                        lemma_power_grows(b as int, i + 2, e as int);
                        assert(power(b as int, i + 2) == b * q);
                        assert(abs(b * q) >= 2 * abs(q)) by (nonlinear_arith)
                            requires
                                b <= -2 || b >= 2,
                        ;
                    }
                }
                return Err(EvalError::Overflow);
            },
        }
        i = i + 1;
    }
    Ok(acc)
}

/// Ten to the number of decimal digits of `r`.
fn digit_scale(r: i64) -> (p: i128)
    requires
        r >= 0,
    ensures
        p == pow10(num_digits(r as nat)),
        p <= 10_000_000_000_000_000_000,
{
    let mut p: i128 = 10;
    let mut m: i64 = r;
    proof {
        reveal_with_fuel(pow10, 2);
        lemma_scale_bound(r as nat);
    }
    while m >= 10
        invariant
            0 <= m <= r,
            p > 0,
            p * pow10(num_digits(m as nat)) == 10 * pow10(num_digits(r as nat)),
            pow10(num_digits(r as nat)) <= 10_000_000_000_000_000_000,
        decreases m,
    {
        proof {
            let q = pow10(num_digits((m / 10) as nat));
            assert(pow10(num_digits(m as nat)) == 10 * q);
            lemma_pow10_pos(num_digits((m / 10) as nat));
            assert(p * 10 * q == p * (10 * q)) by (nonlinear_arith);
            assert(p * 10 <= p * 10 * q) by (nonlinear_arith)
                requires
                    p > 0,
                    q >= 1,
            ;
        }
        p = p * 10;
        m = m / 10;
    }
    proof {
        assert(pow10(1) == 10) by {
            reveal_with_fuel(pow10, 2);
        }
        assert(num_digits(m as nat) == 1);
        assert(p * 10 == 10 * pow10(num_digits(r as nat)));
    }
    p
}

/// The integer read from the decimal text of `l` followed by that of `r`.
pub fn concat_digits(l: i64, r: i64) -> (v: Result<i64, EvalError>)
    ensures
        v == concat_value(l, r),
{
    if r < 0 {
        return Err(EvalError::NotANumber);
    }
    let p = digit_scale(r);
    proof {
        assert(-0x8000_0000_0000_0000_0000_0000_0000_0000 + 0x8000_0000_0000_0000 <= (l as int) * (
        p as int) <= 0x7fff_ffff_ffff_ffff_ffff_ffff_ffff_ffff - 0x8000_0000_0000_0000)
            by (nonlinear_arith)
            requires
                i64::MIN <= l <= i64::MAX,
                0 <= p <= 10_000_000_000_000_000_000,
        ;
    }
    let scaled = l as i128 * p;
    if l >= 0 {
        narrow(scaled + r as i128)
    } else {
        narrow(scaled - r as i128)
    }
}

proof fn lemma_repeated_grows(r: nat, i: nat, k: nat)
    requires
        1 <= i <= k,
    ensures
        0 <= repeated(r, i) <= repeated(r, k),
    decreases k,
{
    if i < k {
        lemma_repeated_grows(r, i, (k - 1) as nat);
        let a = repeated(r, (k - 1) as nat);
        lemma_pow10_pos(num_digits(r));
        assert(a <= a * pow10(num_digits(r)) + r) by (nonlinear_arith)
            requires
                a >= 0,
                pow10(num_digits(r)) >= 1,
        ;
    } else {
        lemma_repeated_nonneg(r, k);
    }
}

proof fn lemma_repeated_nonneg(r: nat, k: nat)
    ensures
        repeated(r, k) >= 0,
    decreases k,
{
    if k > 1 {
        lemma_repeated_nonneg(r, (k - 1) as nat);
        let a = repeated(r, (k - 1) as nat);
        lemma_pow10_pos(num_digits(r));
        assert(a * pow10(num_digits(r)) >= 0) by (nonlinear_arith)
            requires
                a >= 0,
        ;
    }
}

proof fn lemma_repeated_zero(k: nat)
    ensures
        repeated(0, k) == 0,
    decreases k,
{
    if k > 1 {
        lemma_repeated_zero((k - 1) as nat);
    }
}

/// The integer read from the decimal text of `r` written `k` times.
pub fn repeat_digits(r: i64, k: i64) -> (v: Result<i64, EvalError>)
    ensures
        v == repeat_value(r, k),
{
    if k <= 0 {
        return Err(EvalError::NotANumber);
    }
    if k == 1 {
        return Ok(r);
    }
    if r < 0 {
        return Err(EvalError::NotANumber);
    }
    if r == 0 {
        proof {
            lemma_repeated_zero(k as nat);
        }
        return Ok(0);
    }
    let mut acc: i64 = r;
    let mut i: i64 = 1;
    while i < k
        invariant
            1 <= i <= k,
            r > 0,
            acc as int == repeated(r as nat, i as nat),
        decreases k - i,
    {
        proof {
            lemma_repeated_nonneg(r as nat, i as nat);
            assert(repeated(r as nat, (i + 1) as nat) == joined(acc as int, r as nat));
        }
        match concat_digits(acc, r) {
            Ok(v) => {
                acc = v;
            },
            Err(_) => {
                proof {
                    lemma_repeated_grows(r as nat, (i + 1) as nat, k as nat);
                }
                return Err(EvalError::Overflow);
            },
        }
        i = i + 1;
    }
    Ok(acc)
}

} // verus!
