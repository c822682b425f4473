//! Rounded linear interpolation between two grid coordinates.

use vstd::prelude::*;
use vstd::arithmetic::div_mod::lemma_fundamental_div_mod;
use vstd::arithmetic::div_mod::lemma_fundamental_div_mod_converse;

verus! {

/// The grid coordinate nearest to `t * p + (1 - t) * q` for the fraction
/// `t = n / d`, halves rounded up.
pub open spec fn lerp(n: int, d: int, p: int, q: int) -> int {
    (2 * (n * p + (d - n) * q) + d) / (2 * d)
}

/// The smaller of two integers.
pub open spec fn lower(a: int, b: int) -> int {
    if a <= b {
        a
    } else {
        b
    }
}

/// The larger of two integers.
pub open spec fn upper(a: int, b: int) -> int {
    if a <= b {
        b
    } else {
        a
    }
}

/// The largest denominator that `interpolate` is asked to handle: twice the
/// square of the widest difference of two `i32` values.
pub open spec fn denominator_limit() -> int {
    0x2_0000_0000_0000_0000
}

/// A quotient is pinned down by the two multiples of the divisor around the
/// dividend.
pub proof fn lemma_floor(a: int, d: int, k: int)
    requires
        d > 0,
        d * k <= a < d * k + d,
    ensures
        a / d == k,
{
    assert(a == k * d + (a - d * k)) by (nonlinear_arith);
    lemma_fundamental_div_mod_converse(a, d, k, a - d * k);
}

/// Interpolating from the `q` end: the result is `q` plus the rounded share
/// of the way to `p`.
pub proof fn lemma_lerp_from_q(n: int, d: int, p: int, q: int)
    requires
        d > 0,
    ensures
        lerp(n, d, p, q) == q + (2 * n * (p - q) + d) / (2 * d),
{
    let a = 2 * n * (p - q) + d;
    let k = a / (2 * d);
    lemma_fundamental_div_mod(a, 2 * d);
    assert(2 * (n * p + (d - n) * q) + d == 2 * d * q + a) by (nonlinear_arith)
        requires
            a == 2 * n * (p - q) + d,
    ;
    assert((2 * d) * (q + k) == 2 * d * q + (2 * d) * k) by (nonlinear_arith);
    lemma_floor(2 * (n * p + (d - n) * q) + d, 2 * d, q + k);
}

/// Interpolating from the `p` end: the result is `p` plus the rounded share
/// of the way to `q`.
pub proof fn lemma_lerp_from_p(n: int, d: int, p: int, q: int)
    requires
        d > 0,
    ensures
        lerp(n, d, p, q) == p + (2 * (d - n) * (q - p) + d) / (2 * d),
{
    let a = 2 * (d - n) * (q - p) + d;
    let k = a / (2 * d);
    lemma_fundamental_div_mod(a, 2 * d);
    assert(2 * (n * p + (d - n) * q) + d == 2 * d * p + a) by (nonlinear_arith)
        requires
            a == 2 * (d - n) * (q - p) + d,
    ;
    assert((2 * d) * (p + k) == 2 * d * p + (2 * d) * k) by (nonlinear_arith);
    lemma_floor(2 * (n * p + (d - n) * q) + d, 2 * d, p + k);
}

/// An interpolated coordinate never leaves the interval spanned by its two
/// ends.
pub proof fn lemma_lerp_between(n: int, d: int, p: int, q: int)
    requires
        d > 0,
        0 <= n <= d,
    ensures
        lower(p, q) <= lerp(n, d, p, q) <= upper(p, q),
{
    let lo = lower(p, q);
    let hi = upper(p, q);
    let total = n * p + (d - n) * q;
    let r = lerp(n, d, p, q);
    assert(d * lo <= total <= d * hi) by (nonlinear_arith)
        requires
            0 <= n <= d,
            lo <= p <= hi,
            lo <= q <= hi,
            total == n * p + (d - n) * q,
    ;
    lemma_fundamental_div_mod(2 * total + d, 2 * d);
    assert(lo <= r <= hi) by (nonlinear_arith)
        requires
            d > 0,
            d * lo <= total <= d * hi,
            2 * total + d == (2 * d) * r + (2 * total + d) % (2 * d),
            0 <= (2 * total + d) % (2 * d) < 2 * d,
    ;
}

/// Computes `lerp(n, d, p, q)` without leaving 128 bits.
pub(crate) fn interpolate(n: i128, d: i128, p: i32, q: i32) -> (r: i32)
    requires
        0 < d <= denominator_limit(),
        0 <= n <= d,
    ensures
        r == lerp(n as int, d as int, p as int, q as int),
{
    proof {
        lemma_lerp_between(n as int, d as int, p as int, q as int);
    }
    if p >= q {
        let span: i128 = (p as i128) - (q as i128);
        assert(0 <= 2 * n * span + d <= 0x8_0000_0000_0000_0000_0000_0000) by (nonlinear_arith)
            requires
                0 <= n <= d,
                d <= 0x2_0000_0000_0000_0000,
                0 <= span <= 0x1_0000_0000,
        ;
        assert(0 <= 2 * n <= 0x4_0000_0000_0000_0000);
        assert(0 <= 2 * n * span) by (nonlinear_arith)
            requires
                0 <= n,
                0 <= span,
        ;
        let shift: i128 = (2 * n * span + d) / (2 * d);
        proof {
            lemma_lerp_from_q(n as int, d as int, p as int, q as int);
        }
        ((q as i128) + shift) as i32
    } else {
        let span: i128 = (q as i128) - (p as i128);
        let rest: i128 = d - n;
        assert(0 <= 2 * rest * span + d <= 0x8_0000_0000_0000_0000_0000_0000) by (nonlinear_arith)
            requires
                0 <= rest <= d,
                d <= 0x2_0000_0000_0000_0000,
                0 <= span <= 0x1_0000_0000,
        ;
        assert(0 <= 2 * rest * span) by (nonlinear_arith)
            requires
                0 <= rest,
                0 <= span,
        ;
        let shift: i128 = (2 * rest * span + d) / (2 * d);
        proof {
            lemma_lerp_from_p(n as int, d as int, p as int, q as int);
        }
        ((p as i128) + shift) as i32
    }
}

} // verus!
