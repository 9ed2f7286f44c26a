//! Saturating decimal fixed-point arithmetic on `i64`.
//!
//! A value `v: i64` stands for the real number `v / SCALE`. All engine
//! arithmetic is total: sums and scaled products are computed exactly in
//! `i128` and clamped into the `i64` range, so every operation is a pure
//! function of its arguments. The spec functions here (`clip`, `div_trunc`,
//! `s_add`, `s_mul_div`, `sqrt_floor`, ...) are the mathematical model that
//! every executable operation is proved to match exactly.

use vstd::prelude::*;
use vstd::arithmetic::div_mod::{lemma_fundamental_div_mod, lemma_div_is_ordered};

verus! {

/// Fixed-point scale: an `i64` value `v` stands for the real number `v / 1000`.
pub const SCALE: i64 = 1000;

/// The scale squared; squared fixed-point quantities carry this factor.
pub const SCALE_SQ: i64 = 1_000_000;

/// Clamp an unbounded integer into the `i64` range.
pub open spec fn clip(x: int) -> int {
    if x > i64::MAX as int {
        i64::MAX as int
    } else if x < i64::MIN as int {
        i64::MIN as int
    } else {
        x
    }
}

/// Truncating (round-toward-zero) division; meaningful for `b != 0`.
/// Spelled with Euclidean `/` on magnitudes so that it coincides with the
/// behaviour of Rust's `/` on signed integers.
pub open spec fn div_trunc(a: int, b: int) -> int {
    if a == 0 {
        0
    } else if a > 0 && b > 0 {
        a / b
    } else if a < 0 && b < 0 {
        (a * -1) / (b * -1)
    } else if a < 0 {
        ((a * -1) / b) * -1
    } else {
        (a / (b * -1)) * -1
    }
}

/// Ceiling division of a non-negative `a` by a positive `b`.
pub open spec fn div_ceil_nn(a: int, b: int) -> int {
    (a + b - 1) / b
}

/// Saturating sum.
pub open spec fn s_add(a: int, b: int) -> int {
    clip(a + b)
}

/// Saturating difference.
pub open spec fn s_sub(a: int, b: int) -> int {
    clip(a - b)
}

/// Saturating product.
pub open spec fn s_mul(a: int, b: int) -> int {
    clip(a * b)
}

/// Saturating scaled product: `a * b / c` with truncating division, `c > 0`.
pub open spec fn s_mul_div(a: int, b: int, c: int) -> int {
    clip(div_trunc(a * b, c))
}

/// Saturating scaled product whose magnitude is rounded up instead of
/// truncated: `sign(a*b) * ceil(|a*b| / c)`, `c > 0`.
pub open spec fn s_mul_div_ceil(a: int, b: int, c: int) -> int {
    if a * b >= 0 {
        clip(div_ceil_nn(a * b, c))
    } else {
        clip(-div_ceil_nn(-(a * b), c))
    }
}

/// Midpoint of two `i64`-range integers, rounded toward zero.
pub open spec fn s_mid(a: int, b: int) -> int {
    clip(div_trunc(a + b, 2))
}

/// The integer square root, rounded down.
pub open spec fn sqrt_floor(x: nat) -> nat
    decreases x,
{
    if x < 2 {
        x
    } else {
        let r = 2 * sqrt_floor(x / 4);
        if (r + 1) * (r + 1) <= x {
            r + 1
        } else {
            r
        }
    }
}

/// `sqrt_floor` is the unique natural number whose square brackets `x`.
pub proof fn lemma_sqrt_floor_bounds(x: nat)
    ensures
        sqrt_floor(x) * sqrt_floor(x) <= x,
        (sqrt_floor(x) + 1) * (sqrt_floor(x) + 1) > x,
    decreases x,
{
    if x < 2 {
        assert(sqrt_floor(x) == x);
        assert(x * x <= x && (x + 1) * (x + 1) > x) by (nonlinear_arith)
            requires
                x < 2,
        ;
    } else {
        lemma_sqrt_floor_bounds(x / 4);
        let r0 = sqrt_floor(x / 4) as int;
        let q = (x / 4) as int;
        let xi = x as int;
        lemma_fundamental_div_mod(xi, 4);
        assert(4 * q <= xi && xi < 4 * q + 4);
        assert(r0 * r0 <= q && (r0 + 1) * (r0 + 1) > q);
        let r = 2 * r0;
        assert(r * r <= xi) by (nonlinear_arith)
            requires
                r == 2 * r0,
                r0 * r0 <= q,
                4 * q <= xi,
        ;
        assert((r + 2) * (r + 2) > xi) by (nonlinear_arith)
            requires
                r == 2 * r0,
                (r0 + 1) * (r0 + 1) > q,
                xi < 4 * q + 4,
        ;
        assert(sqrt_floor(x) == if (r + 1) * (r + 1) <= xi { r + 1 } else { r });
        if (r + 1) * (r + 1) <= xi {
            assert(sqrt_floor(x) == r + 1);
        } else {
            assert(sqrt_floor(x) == r);
        }
    }
}

pub proof fn lemma_sqrt_floor_unique(x: nat, r: nat)
    requires
        r * r <= x,
        (r + 1) * (r + 1) > x,
    ensures
        r == sqrt_floor(x),
{
    lemma_sqrt_floor_bounds(x);
    let s = sqrt_floor(x);
    if r < s {
        assert((r + 1) * (r + 1) <= s * s) by (nonlinear_arith)
            requires
                r + 1 <= s,
        ;
    }
    if s < r {
        assert((s + 1) * (s + 1) <= r * r) by (nonlinear_arith)
            requires
                s + 1 <= r,
        ;
    }
}

/// The square root is monotone.
pub proof fn lemma_sqrt_floor_le(x: nat, y: nat)
    requires
        x <= y,
    ensures
        sqrt_floor(x) <= sqrt_floor(y),
{
    lemma_sqrt_floor_bounds(x);
    lemma_sqrt_floor_bounds(y);
    let a = sqrt_floor(x);
    let b = sqrt_floor(y);
    if b < a {
        assert((b + 1) * (b + 1) <= a * a) by (nonlinear_arith)
            requires
                b + 1 <= a,
        ;
    }
}

/// The integer square root, rounded up.
pub open spec fn sqrt_ceil(x: nat) -> nat {
    let r = sqrt_floor(x);
    if r * r == x {
        r
    } else {
        r + 1
    }
}

/// `sqrt_ceil` squares to at least its argument, and is positive on
/// positive arguments.
pub proof fn lemma_sqrt_ceil_bounds(x: nat)
    ensures
        sqrt_ceil(x) * sqrt_ceil(x) >= x,
        x >= 1 ==> sqrt_ceil(x) >= 1,
        sqrt_floor(x) <= sqrt_ceil(x),
{
    lemma_sqrt_floor_bounds(x);
    let r = sqrt_floor(x);
    if r * r != x {
        assert(sqrt_ceil(x) == r + 1);
    }
    if x >= 1 && sqrt_ceil(x) == 0 {
        assert(r == 0);
        assert((r + 1) * (r + 1) == 1) by (nonlinear_arith)
            requires
                r == 0,
        ;
    }
}

/// Ceiling of the square root of a non-negative `i64` value.
pub fn isqrt_ceil(x: i64) -> (r: i64)
    requires
        x >= 0,
    ensures
        r as int == sqrt_ceil(x as nat),
{
    let f = isqrt(x);
    proof {
        lemma_sqrt_floor_bounds(x as nat);
        assert(f <= 3_037_000_499) by {
            if f >= 3_037_000_500 {
                assert(f * f >= 3_037_000_500i64 * 3_037_000_500) by (nonlinear_arith)
                    requires
                        f >= 3_037_000_500,
                ;
            }
        }
    }
    if f * f == x {
        f
    } else {
        f + 1
    }
}

/// The magnitude of a truncating quotient times the divisor never exceeds
/// the magnitude of the dividend.
pub proof fn lemma_div_trunc_mag(p: int, q: int)
    requires
        q > 0,
    ensures
        (if div_trunc(p, q) >= 0 { div_trunc(p, q) } else { -div_trunc(p, q) }) * q <= (if p >= 0 { p } else { -p }),
        p >= 0 ==> div_trunc(p, q) >= 0,
        p <= 0 ==> div_trunc(p, q) <= 0,
{
    let m = if p >= 0 { p } else { -p };
    let t = div_trunc(p, q);
    let tm = if t >= 0 { t } else { -t };
    if p == 0 {
        assert(t == 0);
        assert(tm * q == 0) by (nonlinear_arith)
            requires
                tm == 0,
        ;
    } else if p > 0 {
        lemma_fundamental_div_mod(p, q);
        assert(t == p / q);
        assert(p / q >= 0 && q * (p / q) <= p) by (nonlinear_arith)
            requires
                p > 0,
                q > 0,
                p == q * (p / q) + p % q,
                0 <= p % q < q,
        ;
        assert(q * t == t * q) by (nonlinear_arith);
        assert(tm == t && m == p);
    } else {
        lemma_fundamental_div_mod(-p, q);
        assert(t == -((-p) / q));
        assert((-p) / q >= 0 && q * ((-p) / q) <= -p) by (nonlinear_arith)
            requires
                -p > 0,
                q > 0,
                -p == q * ((-p) / q) + (-p) % q,
                0 <= (-p) % q < q,
        ;
        assert(tm == (-p) / q && m == -p);
        assert(q * tm == tm * q) by (nonlinear_arith);
    }
}

/// Magnitude bound for truncating division by a positive divisor: the scaled
/// product `a * b / c` is no larger in magnitude than `a` when `|b| <= c`.
pub proof fn lemma_div_trunc_scale(a: int, b: int, c: int)
    requires
        c > 0,
        -c <= b <= c,
    ensures
        -(if a >= 0 { a } else { -a }) <= div_trunc(a * b, c) <= (if a >= 0 { a } else { -a }),
{
    let p = a * b;
    let m = if a >= 0 { a } else { -a };
    assert(-(m * c) <= p && p <= m * c) by (nonlinear_arith)
        requires
            -c <= b <= c,
            c > 0,
            m == (if a >= 0 { a } else { -a }),
            p == a * b,
    ;
    if p == 0 {
    } else if p > 0 {
        lemma_div_is_ordered(p, m * c, c);
        assert((m * c) / c == m) by (nonlinear_arith)
            requires
                c > 0,
        ;
        assert(div_trunc(p, c) == p / c);
        assert(p / c >= 0) by (nonlinear_arith)
            requires
                p > 0,
                c > 0,
        ;
    } else {
        lemma_div_is_ordered(-p, m * c, c);
        assert((m * c) / c == m) by (nonlinear_arith)
            requires
                c > 0,
        ;
        assert(div_trunc(p, c) == -((-p) / c));
        assert((-p) / c >= 0) by (nonlinear_arith)
            requires
                -p > 0,
                c > 0,
        ;
    }
}

/// Ceiling division never under-approximates and overshoots by less than
/// one divisor.
pub proof fn lemma_ceil_div_bounds(p: int, d: int, q: int)
    requires
        p >= 0,
        d > 0,
        q >= 0,
        p <= q * d,
    ensures
        div_ceil_nn(p, d) * d >= p,
        0 <= div_ceil_nn(p, d) <= q,
{
    lemma_fundamental_div_mod(p + d - 1, d);
    let c = div_ceil_nn(p, d);
    assert(p + d - 1 == d * c + ((p + d - 1) % d));
    assert(d * c == c * d) by (nonlinear_arith);
    assert(0 <= (p + d - 1) % d < d);
    if c > q {
        assert(c >= q + 1);
        assert(c * d >= (q + 1) * d && (q + 1) * d == q * d + d) by (nonlinear_arith)
            requires
                c >= q + 1,
                d > 0,
        ;
        assert(c * d <= p + d - 1);
    }
    if c < 0 {
        assert(c * d <= -d) by (nonlinear_arith)
            requires
                c <= -1,
                d > 0,
        ;
    }
}

/// Saturating addition of two `i64` values.
pub fn sat_add(a: i64, b: i64) -> (r: i64)
    ensures
        r as int == s_add(a as int, b as int),
{
    match a.checked_add(b) {
        Some(v) => v,
        None => {
            if a > 0 {
                i64::MAX
            } else {
                i64::MIN
            }
        },
    }
}

/// Saturating subtraction of two `i64` values.
pub fn sat_sub(a: i64, b: i64) -> (r: i64)
    ensures
        r as int == s_sub(a as int, b as int),
{
    match a.checked_sub(b) {
        Some(v) => v,
        None => {
            if a >= 0 {
                i64::MAX
            } else {
                i64::MIN
            }
        },
    }
}

/// Clamp an exact `i128` value into the `i64` range.
pub fn clip128(x: i128) -> (r: i64)
    ensures
        r as int == clip(x as int),
{
    if x > i64::MAX as i128 {
        i64::MAX
    } else if x < i64::MIN as i128 {
        i64::MIN
    } else {
        x as i64
    }
}

proof fn lemma_prod_in_i128(a: int, b: int)
    requires
        i64::MIN as int <= a <= i64::MAX as int,
        i64::MIN as int <= b <= i64::MAX as int,
    ensures
        -0x4000_0000_0000_0000_0000_0000_0000_0000 <= a * b,
        a * b <= 0x4000_0000_0000_0000_0000_0000_0000_0000,
{
    assert(i64::MIN as int <= a <= i64::MAX as int
        && i64::MIN as int <= b <= i64::MAX as int
        ==> -(0x8000_0000_0000_0000 * 0x8000_0000_0000_0000) <= a * b
            <= 0x8000_0000_0000_0000 * 0x8000_0000_0000_0000) by (nonlinear_arith);
}

/// Saturating product of two `i64` values.
pub fn sat_mul(a: i64, b: i64) -> (r: i64)
    ensures
        r as int == s_mul(a as int, b as int),
{
    proof {
        lemma_prod_in_i128(a as int, b as int);
    }
    let p: i128 = (a as i128) * (b as i128);
    clip128(p)
}

/// `div_trunc(p, c)` has magnitude at most `|p|` when `c >= 1`.
proof fn lemma_div_trunc_abs_le(p: int, c: int)
    requires
        c > 0,
    ensures
        -(if p >= 0 { p } else { -p }) <= div_trunc(p, c) <= (if p >= 0 { p } else { -p }),
{
    lemma_div_trunc_scale(p, 1, c);
    assert(p * 1 == p);
}

/// `a * b / c` with truncating division, computed exactly and clamped.
pub fn mul_div(a: i64, b: i64, c: i64) -> (r: i64)
    requires
        c > 0,
    ensures
        r as int == s_mul_div(a as int, b as int, c as int),
{
    proof {
        lemma_prod_in_i128(a as int, b as int);
    }
    let p: i128 = (a as i128) * (b as i128);
    let q: i128 = match p.checked_div(c as i128) {
        Some(v) => v,
        None => 0,
    };
    proof {
        lemma_div_trunc_abs_le(p as int, c as int);
    }
    assert(q as int == div_trunc(p as int, c as int));
    clip128(q)
}

/// `sign(a*b) * ceil(|a*b| / c)`, computed exactly and clamped.
pub fn mul_div_ceil(a: i64, b: i64, c: i64) -> (r: i64)
    requires
        c > 0,
    ensures
        r as int == s_mul_div_ceil(a as int, b as int, c as int),
{
    proof {
        lemma_prod_in_i128(a as int, b as int);
    }
    let p: i128 = (a as i128) * (b as i128);
    if p >= 0 {
        let num: i128 = p + (c as i128 - 1);
        let q: i128 = match num.checked_div(c as i128) {
            Some(v) => v,
            None => 0,
        };
        proof {
            lemma_div_trunc_abs_le(num as int, c as int);
        }
        assert(q as int == div_ceil_nn(p as int, c as int));
        clip128(q)
    } else {
        let num: i128 = (-p) + (c as i128 - 1);
        let q: i128 = match num.checked_div(c as i128) {
            Some(v) => v,
            None => 0,
        };
        proof {
            lemma_div_trunc_abs_le(num as int, c as int);
        }
        assert(q as int == div_ceil_nn(-(p as int), c as int));
        clip128(-q)
    }
}

/// Midpoint of two `i64` values, rounded toward zero.
pub fn mid_point(a: i64, b: i64) -> (r: i64)
    ensures
        r as int == s_mid(a as int, b as int),
{
    let s: i128 = (a as i128) + (b as i128);
    let q: i128 = match s.checked_div(2) {
        Some(v) => v,
        None => 0,
    };
    proof {
        lemma_div_trunc_abs_le(s as int, 2);
    }
    assert(q as int == div_trunc(s as int, 2));
    clip128(q)
}

/// Floor of the square root of a non-negative `i64` value.
pub fn isqrt(x: i64) -> (r: i64)
    requires
        x >= 0,
    ensures
        r as int == sqrt_floor(x as nat),
        0 <= r,
        r * r <= x,
        (r + 1) * (r + 1) > x,
{
    let xv: u64 = x as u64;
    let mut lo: u64 = 0;
    let mut hi: u64 = 3037000500;
    assert(3037000500int * 3037000500int > i64::MAX as int);
    while lo + 1 < hi
        invariant
            lo < hi <= 3037000500,
            xv == x,
            x >= 0,
            (lo as int) * (lo as int) <= x as int,
            (hi as int) * (hi as int) > x as int,
        decreases hi - lo,
    {
        let mid: u64 = lo + (hi - lo) / 2;
        assert(lo < mid < hi);
        assert((mid as int) * (mid as int) < 0x8000_0000_0000_0000) by (nonlinear_arith)
            requires
                0 <= mid as int <= 3037000499,
        ;
        if mid * mid <= xv {
            lo = mid;
        } else {
            hi = mid;
        }
    }
    proof {
        lemma_sqrt_floor_unique(x as nat, lo as nat);
    }
    proof {
        lemma_sqrt_floor_bounds(x as nat);
    }
    lo as i64
}

} // verus!
