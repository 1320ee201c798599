//! Fixed-point arithmetic: the number representation under every coordinate,
//! distance and colour channel in this crate.
//!
//! An `i64` value `v` stands for the real number `v / SCALE`.  Products and
//! quotients are computed exactly in `i128` and rounded toward zero, so every
//! operation has an exact mathematical description in its contract.

use vstd::prelude::*;
use vstd::arithmetic::div_mod::lemma_div_is_ordered;
use vstd::arithmetic::div_mod::lemma_div_is_ordered_by_denominator;

verus! {

/// Number of fixed-point steps per world unit: an `i64` value `v` represents
/// the real number `v / SCALE`.
pub const SCALE: i64 = 1_000_000;

/// Magnitude bound accepted by the vector operations: one million world units.
/// Keeping operands under this bound keeps every intermediate product inside
/// `i128` and every result inside `i64`.
pub const FX_BOUND: i64 = 1_000_000_000_000;

/// Absolute value.
pub open spec fn abs_int(a: int) -> int {
    if a < 0 {
        -a
    } else {
        a
    }
}

/// Quotient rounded toward zero, as Rust's `/` computes it on signed
/// integers (the spec-mode `/` on `int` rounds toward negative infinity
/// instead, so the distinction matters for negative operands).
pub open spec fn trunc_div(a: int, b: int) -> int {
    let m = abs_int(a) / abs_int(b);
    if (a < 0) == (b < 0) {
        m
    } else {
        -m
    }
}

/// Fixed-point product: the real product of `a / SCALE` and `b / SCALE`,
/// rounded toward zero to a multiple of `1 / SCALE`.
pub open spec fn fx_mul(a: int, b: int) -> int {
    trunc_div(a * b, SCALE as int)
}

/// Fixed-point quotient: the real quotient of `a / SCALE` by `b / SCALE`,
/// rounded toward zero to a multiple of `1 / SCALE`.
pub open spec fn fx_div(a: int, b: int) -> int {
    trunc_div(a * (SCALE as int), b)
}

/// `v` forced into `[lo, hi]`.
pub open spec fn clamp_int(v: int, lo: int, hi: int) -> int {
    if v < lo {
        lo
    } else if v > hi {
        hi
    } else {
        v
    }
}

/// `r` is the integer square root of `n`, rounded down.
pub open spec fn is_sqrt_floor(n: int, r: int) -> bool {
    0 <= r && r * r <= n && n < (r + 1) * (r + 1)
}

/// The integer square root of `n`, rounded down (meaningful for `n >= 0`).
pub open spec fn sqrt_floor(n: int) -> int {
    choose|r: int| is_sqrt_floor(n, r)
}

/// The rounded-down square root of a non-negative number is unique.
pub proof fn lemma_sqrt_floor_unique(n: int, r1: int, r2: int)
    requires
        is_sqrt_floor(n, r1),
        is_sqrt_floor(n, r2),
    ensures
        r1 == r2,
{
    if r1 < r2 {
        assert((r1 + 1) * (r1 + 1) <= r2 * r2) by (nonlinear_arith)
            requires
                0 <= r1,
                0 <= r2,
                r1 < r2,
        ;
    }
    if r2 < r1 {
        assert((r2 + 1) * (r2 + 1) <= r1 * r1) by (nonlinear_arith)
            requires
                0 <= r1,
                0 <= r2,
                r2 < r1,
        ;
    }
}

/// Any witness of `is_sqrt_floor` is the value of `sqrt_floor`.
pub proof fn lemma_sqrt_floor_is(n: int, r: int)
    requires
        is_sqrt_floor(n, r),
    ensures
        sqrt_floor(n) == r,
{
    assert(exists|q: int| is_sqrt_floor(n, q));
    let w = choose|q: int| is_sqrt_floor(n, q);
    lemma_sqrt_floor_unique(n, w, r);
}

/// The rounded-down square root is monotonic.
pub proof fn lemma_sqrt_floor_monotonic(n1: int, n2: int, r1: int, r2: int)
    requires
        is_sqrt_floor(n1, r1),
        is_sqrt_floor(n2, r2),
        n1 <= n2,
    ensures
        r1 <= r2,
{
    if r2 < r1 {
        assert((r2 + 1) * (r2 + 1) <= r1 * r1) by (nonlinear_arith)
            requires
                0 <= r1,
                0 <= r2,
                r2 < r1,
        ;
    }
}

/// `|x * y| <= bx * by` whenever `|x| <= bx` and `|y| <= by`.
pub proof fn lemma_abs_mul_le(x: int, y: int, bx: int, by: int)
    requires
        abs_int(x) <= bx,
        abs_int(y) <= by,
    ensures
        abs_int(x * y) <= bx * by,
{
    assert(abs_int(x * y) <= bx * by) by (nonlinear_arith)
        requires
            abs_int(x) <= bx,
            abs_int(y) <= by,
    ;
}

/// A truncated quotient is no larger in magnitude than the dividend.
pub proof fn lemma_trunc_div_bound(a: int, b: int)
    requires
        b != 0,
    ensures
        abs_int(trunc_div(a, b)) <= abs_int(a),
        abs_int(a) < abs_int(b) ==> trunc_div(a, b) == 0,
{
    let ma = abs_int(a);
    let mb = abs_int(b);
    lemma_div_is_ordered_by_denominator(ma, 1, mb);
    assert(ma / 1 == ma);
    if ma < mb {
        assert(ma / mb == 0) by (nonlinear_arith)
            requires
                0 <= ma < mb,
        ;
    }
}

/// A truncated quotient by a positive divisor is bounded by the quotient of a
/// bound on the dividend's magnitude.
pub proof fn lemma_trunc_div_abs_bound(a: int, b: int, ba: int)
    requires
        0 < b,
        abs_int(a) <= ba,
    ensures
        abs_int(trunc_div(a, b)) <= ba / b,
{
    lemma_div_is_ordered(0, abs_int(a), b);
    lemma_div_is_ordered(abs_int(a), ba, b);
}

/// The rounded-down square root exists for every non-negative number: the
/// value `sqrt_floor` picks does satisfy `is_sqrt_floor`.
pub proof fn lemma_sqrt_floor_exists(n: int)
    requires
        0 <= n,
    ensures
        is_sqrt_floor(n, sqrt_floor(n)),
    decreases n,
{
    if n == 0 {
        assert(is_sqrt_floor(0, 0));
    } else {
        lemma_sqrt_floor_exists(n - 1);
        let r = sqrt_floor(n - 1);
        if (r + 1) * (r + 1) <= n {
            assert(n == (r + 1) * (r + 1));
            assert((r + 1 + 1) * (r + 1 + 1) > (r + 1) * (r + 1)) by (nonlinear_arith)
                requires
                    r >= 0,
            ;
            assert(is_sqrt_floor(n, r + 1));
        } else {
            assert(is_sqrt_floor(n, r));
        }
    }
}

/// Pins a truncated quotient of non-negative operands via quotient and
/// remainder witnesses.
pub proof fn lemma_trunc_div_exact(a: int, b: int, q: int, r: int)
    requires
        0 <= a,
        0 < b,
        a == q * b + r,
        0 <= r < b,
    ensures
        trunc_div(a, b) == q,
{
    vstd::arithmetic::div_mod::lemma_fundamental_div_mod_converse_div(a, b, q, r);
}

/// Truncated division by a positive divisor is monotonic on non-negative
/// dividends.
pub proof fn lemma_trunc_div_ordered_nonneg(a1: int, a2: int, b: int)
    requires
        0 <= a1 <= a2,
        0 < b,
    ensures
        trunc_div(a1, b) <= trunc_div(a2, b),
        0 <= trunc_div(a1, b),
{
    lemma_div_is_ordered(a1, a2, b);
    lemma_div_is_ordered(0, a1, b);
}

/// Truncated division by a positive divisor is monotonic.
pub proof fn lemma_trunc_div_monotone(a1: int, a2: int, b: int)
    requires
        a1 <= a2,
        0 < b,
    ensures
        trunc_div(a1, b) <= trunc_div(a2, b),
{
    if 0 <= a1 {
        lemma_div_is_ordered(a1, a2, b);
        lemma_div_is_ordered(0, a1, b);
    } else if a2 < 0 {
        lemma_div_is_ordered(-a2, -a1, b);
        lemma_div_is_ordered(0, -a2, b);
    } else {
        lemma_div_is_ordered(0, -a1, b);
        lemma_div_is_ordered(0, a2, b);
    }
}

/// Integer square root of `n`, rounded down, by bisection.
pub fn isqrt_u128(n: u128) -> (r: u64)
    ensures
        is_sqrt_floor(n as int, r as int),
{
    let mut lo: u64 = 0;
    let mut hi: u64 = u64::MAX;
    proof {
        assert(((hi as int) + 1) * ((hi as int) + 1) > u128::MAX) by (nonlinear_arith)
            requires
                hi == u64::MAX,
        ;
    }
    while lo < hi
        invariant
            lo <= hi,
            (lo as int) * (lo as int) <= n as int,
            (n as int) < ((hi as int) + 1) * ((hi as int) + 1),
        decreases hi - lo,
    {
        let gap: u64 = hi - lo;
        let mid: u64 = lo + gap / 2 + 1;
        proof {
            assert((mid as int) * (mid as int) <= u128::MAX) by (nonlinear_arith)
                requires
                    0 <= mid <= u64::MAX,
                    u64::MAX < 0x1_0000_0000_0000_0000,
                    u128::MAX == 0xffff_ffff_ffff_ffff_ffff_ffff_ffff_ffff,
            ;
        }
        let sq: u128 = (mid as u128) * (mid as u128);
        if sq <= n {
            lo = mid;
        } else {
            hi = mid - 1;
        }
    }
    lo
}

/// Quotient of `a` by `b`, rounded toward zero, as Rust's `/` on signed
/// integers computes it.
pub fn trunc_div_i128(a: i128, b: i128) -> (q: i128)
    requires
        b != 0,
        a != i128::MIN,
        b != i128::MIN,
    ensures
        q == trunc_div(a as int, b as int),
{
    let ma: u128 = if a < 0 {
        (-a) as u128
    } else {
        a as u128
    };
    let mb: u128 = if b < 0 {
        (-b) as u128
    } else {
        b as u128
    };
    proof {
        lemma_trunc_div_bound(a as int, b as int);
    }
    let mq: u128 = ma / mb;
    proof {
        lemma_div_is_ordered_by_denominator(ma as int, 1, mb as int);
        assert((ma as int) / 1 == ma as int);
    }
    if (a < 0) != (b < 0) {
        -(mq as i128)
    } else {
        mq as i128
    }
}

/// Fixed-point multiply on machine integers: exact in `i128`, rounded toward
/// zero back to the fixed-point grid.
pub fn fx_mul_i64(a: i64, b: i64) -> (r: i64)
    requires
        i64::MIN <= fx_mul(a as int, b as int) <= i64::MAX,
    ensures
        r as int == fx_mul(a as int, b as int),
{
    proof {
        assert((a as int) * (b as int) < i128::MAX && (a as int) * (b as int) > i128::MIN)
            by (nonlinear_arith)
            requires
                i64::MIN <= a <= i64::MAX,
                i64::MIN <= b <= i64::MAX,
        ;
    }
    let p: i128 = (a as i128) * (b as i128);
    let q: i128 = trunc_div_i128(p, SCALE as i128);
    q as i64
}

/// Fixed-point divide on machine integers: exact in `i128`, rounded toward
/// zero back to the fixed-point grid.
pub fn fx_div_i64(a: i64, b: i64) -> (r: i64)
    requires
        b != 0,
        i64::MIN <= fx_div(a as int, b as int) <= i64::MAX,
    ensures
        r as int == fx_div(a as int, b as int),
{
    proof {
        assert((a as int) * (SCALE as int) < i128::MAX && (a as int) * (SCALE as int) > i128::MIN)
            by (nonlinear_arith)
            requires
                i64::MIN <= a <= i64::MAX,
                SCALE == 1_000_000,
        ;
    }
    let p: i128 = (a as i128) * (SCALE as i128);
    let q: i128 = trunc_div_i128(p, b as i128);
    q as i64
}

} // verus!
