//! Fixed-point scalar arithmetic for matrix entries.
//!
//! A raw `i64` value `x` stands for the real number `x / SCALE`.  Results of
//! multiplication are truncated toward zero and saturate at `RAW_LIMIT`, the
//! edge of the representable range, much as a floating-point type saturates
//! at its own limits.  Every operation carries an exact integer contract.

use vstd::prelude::*;
use vstd::arithmetic::div_mod::lemma_div_multiples_vanish;

verus! {

/// One unit of the fixed-point scale: the raw representation of 1.0.
pub const SCALE: i64 = 1_000_000_000_000;

/// Largest raw magnitude a scalar may hold (10^5 in real terms).
pub const RAW_LIMIT: i64 = 100_000_000_000_000_000;

/// Absolute tolerance of the convergence comparison (10^-8 in real terms).
pub const TOL: i64 = 10_000;

/// Largest supported matrix dimension.
pub const N_MAX: usize = 10_000;

/// Number of binary digits used for the fractional part of an exponent.
pub const FRAC_BITS: usize = 40;

/// Absolute value of a mathematical integer.
pub open spec fn abs_i(x: int) -> int {
    if x >= 0 {
        x
    } else {
        -x
    }
}

/// Division truncating toward zero, as the scalar operations perform it.
pub open spec fn tdiv(a: int, b: int) -> int
    recommends
        b > 0,
{
    if a >= 0 {
        a / b
    } else {
        -((-a) / b)
    }
}

/// Saturation of a raw value at the representable range.
pub open spec fn clamp_raw(x: int) -> int {
    if x > RAW_LIMIT as int {
        RAW_LIMIT as int
    } else if x < -(RAW_LIMIT as int) {
        -(RAW_LIMIT as int)
    } else {
        x
    }
}

/// What scalar multiplication returns: the scaled product, truncated toward
/// zero and saturated at the representable range.
pub open spec fn fx_mul_spec(a: int, b: int) -> int {
    clamp_raw(tdiv(a * b, SCALE as int))
}

/// `r` is the integer square root of `v`.
pub open spec fn is_sqrt(r: int, v: int) -> bool {
    0 <= r && r * r <= v && v < (r + 1) * (r + 1)
}

/// The integer square root (floor of the real square root).
pub open spec fn sqrt_floor(v: int) -> int
    recommends
        v >= 0,
{
    choose|r: int| #[trigger] is_sqrt(r, v)
}

pub proof fn lemma_sqrt_exists(v: nat)
    ensures
        exists|r: int| is_sqrt(r, v as int),
    decreases v,
{
    if v == 0 {
        assert(is_sqrt(0, 0));
    } else {
        lemma_sqrt_exists((v - 1) as nat);
        let r = choose|r: int| #[trigger] is_sqrt(r, v - 1);
        if (r + 1) * (r + 1) <= v {
            assert(v - 1 < (r + 1) * (r + 1));
            assert(v < (r + 2) * (r + 2)) by (nonlinear_arith)
                requires
                    v == (r + 1) * (r + 1) && r >= 0,
            ;
            assert(is_sqrt(r + 1, v as int));
        } else {
            assert(is_sqrt(r, v as int));
        }
    }
}

pub proof fn lemma_sqrt_unique(v: int, r: int)
    requires
        is_sqrt(r, v),
    ensures
        r == sqrt_floor(v),
{
    let s = sqrt_floor(v);
    assert(is_sqrt(s, v)) by {
        lemma_sqrt_exists(v as nat);
    }
    assert(r == s) by (nonlinear_arith)
        requires
            is_sqrt(r, v) && is_sqrt(s, v),
    ;
}

/// Truncating division of an `i128` by a positive divisor.
pub(crate) fn tdiv_i128(a: i128, b: i128) -> (r: i128)
    requires
        b > 0,
        a > i128::MIN,
    ensures
        r == tdiv(a as int, b as int),
        abs_i(r as int) <= abs_i(a as int),
{
    if a >= 0 {
        let q: u128 = (a as u128) / (b as u128);
        assert(q <= a as u128) by {
            vstd::arithmetic::div_mod::lemma_div_nonincreasing(a as int, b as int);
            vstd::arithmetic::div_mod::lemma_div_pos_is_pos(a as int, b as int);
        }
        q as i128
    } else {
        let m: u128 = (-a) as u128;
        let q: u128 = m / (b as u128);
        assert(q <= m) by {
            vstd::arithmetic::div_mod::lemma_div_nonincreasing(m as int, b as int);
            vstd::arithmetic::div_mod::lemma_div_pos_is_pos(m as int, b as int);
        }
        -(q as i128)
    }
}

/// Scalar multiplication: truncated toward zero, saturated at `RAW_LIMIT`.
pub fn fx_mul(a: i64, b: i64) -> (r: i64)
    ensures
        r == fx_mul_spec(a as int, b as int),
        -RAW_LIMIT <= r <= RAW_LIMIT,
        a >= 0 && b >= 0 ==> r >= 0,
{
    assert((a as i128) * (b as i128) == a * b && -0x40000000000000000000000000000000
        <= a * b <= 0x40000000000000000000000000000000) by (nonlinear_arith)
        requires
            i64::MIN <= a <= i64::MAX && i64::MIN <= b <= i64::MAX,
    ;
    let p: i128 = (a as i128) * (b as i128);
    let d: i128 = tdiv_i128(p, SCALE as i128);
    if d > RAW_LIMIT as i128 {
        RAW_LIMIT
    } else if d < -(RAW_LIMIT as i128) {
        -RAW_LIMIT
    } else {
        d as i64
    }
}

/// The integer square root of a `u128` below `2^98`.
fn isqrt_u128(v: u128) -> (r: u128)
    requires
        v < 0x4000000000000000000000000,
    ensures
        is_sqrt(r as int, v as int),
{
    let mut lo: u128 = 0;
    let mut hi: u128 = 0x2000000000000;
    assert(v < hi * hi) by (nonlinear_arith)
        requires
            v < 0x4000000000000000000000000 && hi == 0x2000000000000,
    ;
    while lo + 1 < hi
        invariant
            lo < hi <= 0x2000000000000,
            lo * lo <= v,
            v < hi * hi,
        decreases hi - lo,
    {
        let mid: u128 = lo + (hi - lo) / 2;
        assert(mid * mid <= 0x4000000000000000000000000) by (nonlinear_arith)
            requires
                mid <= 0x2000000000000,
        ;
        if mid * mid <= v {
            lo = mid;
        } else {
            hi = mid;
        }
    }
    lo
}

/// Square root of a nonnegative scalar: `sqrt(x / SCALE)` in fixed point,
/// computed as the integer square root of `x * SCALE`.
pub fn fx_sqrt(x: i64) -> (r: i64)
    requires
        0 <= x <= RAW_LIMIT,
    ensures
        r == sqrt_floor(x * SCALE),
        0 <= r <= RAW_LIMIT,
{
    assert(0 <= x * SCALE <= 100_000_000_000_000_000_000_000_000_000) by (nonlinear_arith)
        requires
            0 <= x <= RAW_LIMIT,
    ;
    let v: u128 = (x as u128) * (SCALE as u128);
    let r: u128 = isqrt_u128(v);
    assert(r <= RAW_LIMIT) by (nonlinear_arith)
        requires
            is_sqrt(r as int, v as int) && v <= 100_000_000_000_000_000_000_000_000_000,
    ;
    proof {
        lemma_sqrt_unique(v as int, r as int);
    }
    r as i64
}

/// Iterated scalar multiplication: `x` to an integer power, in fixed point.
pub open spec fn ipow_spec(x: int, q: nat) -> int
    decreases q,
{
    if q == 0 {
        SCALE as int
    } else {
        fx_mul_spec(ipow_spec(x, (q - 1) as nat), x)
    }
}

/// The digit recurrence for a fractional exponent: at each step the base is
/// replaced by its square root and the remaining exponent is doubled; when a
/// binary digit of the exponent is set the accumulator takes the factor.
pub open spec fn pow_frac_rec(base: int, rem: int, acc: int, k: nat) -> int
    decreases k,
{
    if k == 0 {
        acc
    } else {
        let b2 = sqrt_floor(base * SCALE);
        let r2 = 2 * rem;
        if r2 >= SCALE {
            pow_frac_rec(b2, r2 - SCALE, fx_mul_spec(acc, b2), (k - 1) as nat)
        } else {
            pow_frac_rec(b2, r2, acc, (k - 1) as nat)
        }
    }
}

/// What raising a nonnegative scalar to a positive scalar power returns:
/// the integer part of the exponent by iterated multiplication, the
/// fractional part by the square-root digit recurrence.
pub open spec fn powf_spec(x: int, p: int) -> int
    recommends
        0 <= x,
        0 < p,
{
    fx_mul_spec(
        ipow_spec(x, (p / (SCALE as int)) as nat),
        pow_frac_rec(x, p % (SCALE as int), SCALE as int, FRAC_BITS as nat),
    )
}

proof fn lemma_pow_frac_zero(base: int, acc: int, k: nat)
    ensures
        pow_frac_rec(base, 0, acc, k) == acc,
    decreases k,
{
    if k > 0 {
        lemma_pow_frac_zero(sqrt_floor(base * SCALE), acc, (k - 1) as nat);
    }
}

/// A power of one is the identity: raising any representable nonnegative
/// scalar to the exponent 1.0 returns it unchanged.
pub proof fn lemma_powf_one(x: int)
    requires
        0 <= x <= RAW_LIMIT,
    ensures
        powf_spec(x, SCALE as int) == x,
{
    let s = SCALE as int;
    assert(s / s == 1) by {
        vstd::arithmetic::div_mod::lemma_div_by_self(s);
    }
    assert(s % s == 0) by {
        vstd::arithmetic::div_mod::lemma_mod_self_0(s);
    }
    assert(ipow_spec(x, 1) == fx_mul_spec(SCALE as int, x)) by {
        reveal_with_fuel(ipow_spec, 2);
    }
    assert(tdiv(s * x, s) == x) by {
        lemma_div_multiples_vanish(x, s);
        if x < 0 {
            assert(-(s * x) == s * (-x)) by (nonlinear_arith);
            lemma_div_multiples_vanish(-x, s);
        }
    }
    assert(fx_mul_spec(s, x) == x);
    lemma_pow_frac_zero(x, s, FRAC_BITS as nat);
    assert(tdiv(x * s, s) == x) by {
        assert(x * s == s * x) by (nonlinear_arith);
        lemma_div_multiples_vanish(x, s);
        if x < 0 {
            assert(-(s * x) == s * (-x)) by (nonlinear_arith);
            lemma_div_multiples_vanish(-x, s);
        }
    }
    assert(fx_mul_spec(x, s) == x);
}

/// A nonnegative scalar raised to a positive scalar power.
pub fn fx_powf(x: i64, p: i64) -> (r: i64)
    requires
        0 <= x <= RAW_LIMIT,
        0 < p <= RAW_LIMIT,
    ensures
        r == powf_spec(x as int, p as int),
        0 <= r <= RAW_LIMIT,
{
    let pu: u64 = p as u64;
    let q: u64 = pu / (SCALE as u64);
    let f: i64 = (pu % (SCALE as u64)) as i64;

    let mut acc: i64 = SCALE;
    let mut i: u64 = 0;
    while i < q
        invariant
            i <= q,
            0 <= x <= RAW_LIMIT,
            0 <= acc <= RAW_LIMIT,
            acc == ipow_spec(x as int, i as nat),
        decreases q - i,
    {
        acc = fx_mul(acc, x);
        i = i + 1;
    }

    let mut frac_acc: i64 = SCALE;
    let mut base: i64 = x;
    let mut rem: i64 = f;
    let mut k: usize = 0;
    while k < FRAC_BITS
        invariant
            k <= FRAC_BITS,
            0 <= base <= RAW_LIMIT,
            0 <= rem < SCALE,
            0 <= frac_acc <= RAW_LIMIT,
            pow_frac_rec(base as int, rem as int, frac_acc as int, (FRAC_BITS - k) as nat)
                == pow_frac_rec(x as int, f as int, SCALE as int, FRAC_BITS as nat),
        decreases FRAC_BITS - k,
    {
        base = fx_sqrt(base);
        let rem2: i64 = rem * 2;
        if rem2 >= SCALE {
            rem = rem2 - SCALE;
            frac_acc = fx_mul(frac_acc, base);
        } else {
            rem = rem2;
        }
        k = k + 1;
    }
    fx_mul(acc, frac_acc)
}

} // verus!
