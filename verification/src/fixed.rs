//! Fixed-point arithmetic for the simulation.
//!
//! Every scalar quantity of the simulator is an `i64` counting thousandths
//! of a unit ("milli-units", see [`SCALE`]).  The simulation space is
//! confined to the span `[-SPAN, SPAN]`: every arithmetic helper clamps its
//! result into that range, so all operations are total and no overflow can
//! occur.  Values driven against the edge of the span simply stick there,
//! the fixed-point analogue of running off to infinity.

use vstd::prelude::*;

verus! {

/// Number of fixed-point steps per unit: scalars are thousandths of a unit.
pub const SCALE: i64 = 1000;

/// Greatest magnitude a scalar may take; results are clamped into
/// `[-SPAN, SPAN]`.
pub const SPAN: i64 = 4_000_000_000_000_000;

/// `x` clamped into the simulation span.
pub open spec fn clamped(x: int) -> int {
    if x > SPAN {
        SPAN as int
    } else if x < -(SPAN as int) {
        -(SPAN as int)
    } else {
        x
    }
}

/// The absolute value of `x`.
pub open spec fn absolute(x: int) -> int {
    if x < 0 {
        -x
    } else {
        x
    }
}

/// Division truncated toward zero (the behaviour of `/` on machine
/// integers), defined for any non-zero divisor.
pub open spec fn tdiv(a: int, b: int) -> int {
    let q = absolute(a) / absolute(b);
    if (a < 0) != (b < 0) {
        -q
    } else {
        q
    }
}

/// The integer square root: greatest `r` with `r * r <= n` (and `0` for
/// negative `n`).
pub open spec fn sqrt_floor(n: int) -> int
    decreases n,
{
    if n <= 0 {
        0
    } else {
        let r = sqrt_floor(n - 1);
        if (r + 1) * (r + 1) <= n {
            r + 1
        } else {
            r
        }
    }
}

/// The integer cube root: greatest `r >= 0` with `r * r * r <= n` (and `0`
/// for negative `n`).
pub open spec fn cbrt_floor(n: int) -> int
    decreases n,
{
    if n <= 0 {
        0
    } else {
        let r = cbrt_floor(n - 1);
        if (r + 1) * (r + 1) * (r + 1) <= n {
            r + 1
        } else {
            r
        }
    }
}

pub proof fn lemma_sqrt_floor_bounds(n: int)
    requires
        0 <= n,
    ensures
        0 <= sqrt_floor(n),
        sqrt_floor(n) * sqrt_floor(n) <= n,
        n < (sqrt_floor(n) + 1) * (sqrt_floor(n) + 1),
    decreases n,
{
    if n == 0 {
    } else {
        lemma_sqrt_floor_bounds(n - 1);
        let p = sqrt_floor(n - 1);
        if (p + 1) * (p + 1) <= n {
            assert(n < (p + 2) * (p + 2)) by (nonlinear_arith)
                requires
                    0 <= p,
                    n - 1 < (p + 1) * (p + 1),
            ;
        }
    }
}

pub proof fn lemma_sqrt_floor_unique(n: int, r: int)
    requires
        0 <= n,
        0 <= r,
        r * r <= n,
        n < (r + 1) * (r + 1),
    ensures
        r == sqrt_floor(n),
{
    lemma_sqrt_floor_bounds(n);
    let s = sqrt_floor(n);
    if r < s {
        assert((r + 1) * (r + 1) <= s * s) by (nonlinear_arith)
            requires
                0 <= r + 1,
                r + 1 <= s,
        ;
    } else if s < r {
        assert((s + 1) * (s + 1) <= r * r) by (nonlinear_arith)
            requires
                0 <= s + 1,
                s + 1 <= r,
        ;
    }
}

pub proof fn lemma_cbrt_floor_bounds(n: int)
    requires
        0 <= n,
    ensures
        0 <= cbrt_floor(n),
        cbrt_floor(n) * cbrt_floor(n) * cbrt_floor(n) <= n,
        n < (cbrt_floor(n) + 1) * (cbrt_floor(n) + 1) * (cbrt_floor(n) + 1),
    decreases n,
{
    if n == 0 {
    } else {
        lemma_cbrt_floor_bounds(n - 1);
        let p = cbrt_floor(n - 1);
        if (p + 1) * (p + 1) * (p + 1) <= n {
            assert(n < (p + 2) * (p + 2) * (p + 2)) by (nonlinear_arith)
                requires
                    0 <= p,
                    n - 1 < (p + 1) * (p + 1) * (p + 1),
            ;
        }
    }
}

pub proof fn lemma_cbrt_floor_unique(n: int, r: int)
    requires
        0 <= n,
        0 <= r,
        r * r * r <= n,
        n < (r + 1) * (r + 1) * (r + 1),
    ensures
        r == cbrt_floor(n),
{
    lemma_cbrt_floor_bounds(n);
    let s = cbrt_floor(n);
    if r < s {
        assert((r + 1) * (r + 1) * (r + 1) <= s * s * s) by (nonlinear_arith)
            requires
                0 <= r + 1,
                r + 1 <= s,
        ;
    } else if s < r {
        assert((s + 1) * (s + 1) * (s + 1) <= r * r * r) by (nonlinear_arith)
            requires
                0 <= s + 1,
                s + 1 <= r,
        ;
    }
}

/// `x` clamped into the span, executably.
pub fn clamp64(x: i64) -> (r: i64)
    ensures
        r == clamped(x as int),
{
    if x > SPAN {
        SPAN
    } else if x < -SPAN {
        -SPAN
    } else {
        x
    }
}

/// Clamped addition.
pub fn add_clamped(a: i64, b: i64) -> (r: i64)
    ensures
        r == clamped(a + b),
{
    let wide: i128 = a as i128 + b as i128;
    if wide > SPAN as i128 {
        SPAN
    } else if wide < -(SPAN as i128) {
        -SPAN
    } else {
        wide as i64
    }
}

/// Clamped subtraction.
pub fn sub_clamped(a: i64, b: i64) -> (r: i64)
    ensures
        r == clamped(a - b),
{
    let wide: i128 = a as i128 - b as i128;
    if wide > SPAN as i128 {
        SPAN
    } else if wide < -(SPAN as i128) {
        -SPAN
    } else {
        wide as i64
    }
}

/// Clamped negation.
pub fn neg_clamped(a: i64) -> (r: i64)
    ensures
        r == clamped(-(a as int)),
{
    if a > SPAN {
        -SPAN
    } else if a < -SPAN {
        SPAN
    } else {
        -a
    }
}

/// The product of two `i64` values, exactly, in an `i128`.
fn widen_mul(a: i64, b: i64) -> (p: i128)
    ensures
        p == a * b,
        -0x4000_0000_0000_0000_0000_0000_0000_0000 <= p
            <= 0x4000_0000_0000_0000_0000_0000_0000_0000,
{
    proof {
        assert(-0x4000_0000_0000_0000_0000_0000_0000_0000 <= (a as int) * (b as int)
            <= 0x4000_0000_0000_0000_0000_0000_0000_0000) by (nonlinear_arith)
            requires
                -0x8000_0000_0000_0000 <= a as int <= 0x7FFF_FFFF_FFFF_FFFF,
                -0x8000_0000_0000_0000 <= b as int <= 0x7FFF_FFFF_FFFF_FFFF,
        ;
    }
    (a as i128) * (b as i128)
}

/// Clamped truncating division of an `i128` by a non-zero `i128`.
fn div_clamp(p: i128, q: i128) -> (r: i64)
    requires
        q != 0,
        i128::MIN < p,
        i128::MIN < q,
    ensures
        r == clamped(tdiv(p as int, q as int)),
{
    let negative: bool = (p < 0) != (q < 0);
    let pa: u128 = if p < 0 {
        (-p) as u128
    } else {
        p as u128
    };
    let qa: u128 = if q < 0 {
        (-q) as u128
    } else {
        q as u128
    };
    let m: u128 = pa / qa;
    let bounded: i64 = if m > SPAN as u128 {
        SPAN
    } else {
        m as i64
    };
    if negative {
        -bounded
    } else {
        bounded
    }
}

/// Clamped truncating `a * b / c` for a non-zero `c`.
pub fn mul_div_clamped(a: i64, b: i64, c: i64) -> (r: i64)
    requires
        c != 0,
    ensures
        r == clamped(tdiv(a * b, c as int)),
{
    let p = widen_mul(a, b);
    div_clamp(p, c as i128)
}

/// Clamped truncating `a * b * SCALE / (d * d)` for a non-zero `d` and
/// factors within the span: the fixed-point ratio of a product of masses
/// to a squared distance.
pub fn mul_mul_div_sq_clamped(a: i64, b: i64, d: i64) -> (r: i64)
    requires
        -SPAN <= a <= SPAN,
        -SPAN <= b <= SPAN,
        d != 0,
    ensures
        r == clamped(tdiv(a * b * SCALE, d * d)),
{
    proof {
        assert(-0x4000_0000_0000_0000_0000_0000_0000 <= (a as int) * (b as int)
            <= 0x4000_0000_0000_0000_0000_0000_0000) by (nonlinear_arith)
            requires
                -(SPAN as int) <= a as int <= SPAN as int,
                -(SPAN as int) <= b as int <= SPAN as int,
                SPAN == 4_000_000_000_000_000i64,
        ;
        assert(0 < (d as int) * (d as int) <= 0x4000_0000_0000_0000_0000_0000_0000_0000)
            by (nonlinear_arith)
            requires
                d != 0,
                -0x8000_0000_0000_0000 <= d as int <= 0x7FFF_FFFF_FFFF_FFFF,
        ;
    }
    let masses: i128 = (a as i128) * (b as i128);
    let p: i128 = masses * (SCALE as i128);
    let q: i128 = (d as i128) * (d as i128);
    div_clamp(p, q)
}

/// Clamped integer square root of a `u128`.
pub fn sqrt_clamped(n: u128) -> (r: i64)
    ensures
        r == clamped(sqrt_floor(n as int)),
{
    let mut lo: u128 = 0;
    let mut hi: u128 = 0x1_0000_0000_0000_0000;
    proof {
        assert((n as int) < (hi as int) * (hi as int)) by (nonlinear_arith)
            requires
                hi == 0x1_0000_0000_0000_0000u128,
                n <= u128::MAX,
        ;
    }
    while hi - lo > 1
        invariant
            0 <= lo < hi,
            hi <= 0x1_0000_0000_0000_0000,
            (lo as int) * (lo as int) <= n as int,
            (n as int) < (hi as int) * (hi as int),
        decreases hi - lo,
    {
        let mid: u128 = lo + (hi - lo) / 2;
        proof {
            assert((mid as int) * (mid as int) < 0x1_0000_0000_0000_0000_0000_0000_0000_0000)
                by (nonlinear_arith)
                requires
                    mid < 0x1_0000_0000_0000_0000u128,
            ;
        }
        if mid * mid <= n {
            lo = mid;
        } else {
            hi = mid;
        }
    }
    proof {
        lemma_sqrt_floor_unique(n as int, lo as int);
    }
    if lo > SPAN as u128 {
        SPAN
    } else {
        lo as i64
    }
}

/// Integer cube root of a moderately sized `u128`.
pub fn cbrt_small(n: u128) -> (r: i64)
    requires
        n < 8_000_000_000_000_000_000_000,
    ensures
        r == cbrt_floor(n as int),
        0 <= r < 20_000_000,
{
    let mut lo: u128 = 0;
    let mut hi: u128 = 20_000_000;
    while hi - lo > 1
        invariant
            0 <= lo < hi,
            hi <= 20_000_000,
            (lo as int) * (lo as int) * (lo as int) <= n as int,
            (n as int) < (hi as int) * (hi as int) * (hi as int),
        decreases hi - lo,
    {
        let mid: u128 = lo + (hi - lo) / 2;
        proof {
            assert((mid as int) * (mid as int) <= 400_000_000_000_000
                && (mid as int) * (mid as int) * (mid as int)
                <= 8_000_000_000_000_000_000_000) by (nonlinear_arith)
                requires
                    0 <= mid < 20_000_000u128,
            ;
        }
        if mid * mid * mid <= n {
            lo = mid;
        } else {
            hi = mid;
        }
    }
    proof {
        lemma_cbrt_floor_unique(n as int, lo as int);
    }
    lo as i64
}

} // verus!
