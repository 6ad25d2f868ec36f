//! Fixed-point scalars.
//!
//! A scalar is an `i128` holding its value times `SCALE` (one million).
//! Multiplication, division and square root truncate toward zero, and
//! each executable operation returns exactly what its spec-level mirror
//! (`smul`, `sdiv`, `ssqrt`) computes.

use vstd::prelude::*;

verus! {

/// One unit, in fixed-point representation.
pub const SCALE: i128 = 1_000_000;

/// Largest operand product accepted by `fx_mul`; such products fit in `u128`.
pub const PROD_LIM: i128 = 100_000_000_000_000_000_000_000_000_000_000_000_000;

/// Largest magnitude accepted by `fx_div`.
pub const DIV_LIM: i128 = 1_000_000_000_000_000_000_000_000_000_000;

/// Largest value accepted by `fx_sqrt`; rescaled by `SCALE` it fits in `u128`.
pub const SQRT_LIM: i128 = 300_000_000_000_000_000_000_000_000_000_000;

/// Magnitude of a mathematical integer.
pub open spec fn sabs(a: int) -> int {
    if a < 0 {
        -a
    } else {
        a
    }
}

/// Fixed-point product: `a * b / SCALE`, truncated toward zero.
pub open spec fn smul(a: int, b: int) -> int {
    if (a < 0) == (b < 0) {
        (sabs(a) * sabs(b)) / (SCALE as int)
    } else {
        -((sabs(a) * sabs(b)) / (SCALE as int))
    }
}

/// Fixed-point quotient: `a * SCALE / b`, truncated toward zero.
pub open spec fn sdiv(a: int, b: int) -> int {
    if (a < 0) == (b < 0) {
        (sabs(a) * (SCALE as int)) / sabs(b)
    } else {
        -((sabs(a) * (SCALE as int)) / sabs(b))
    }
}

/// Integer square root: the greatest `r` with `r * r <= n` (0 for `n <= 0`).
pub open spec fn isqrt(n: int) -> int
    decreases n,
{
    if n <= 0 {
        0
    } else if (isqrt(n - 1) + 1) * (isqrt(n - 1) + 1) <= n {
        isqrt(n - 1) + 1
    } else {
        isqrt(n - 1)
    }
}

/// Fixed-point square root: `isqrt` of the value rescaled so the result
/// is again a fixed-point scalar.
pub open spec fn ssqrt(a: int) -> int {
    isqrt(a * (SCALE as int))
}

pub proof fn lemma_isqrt_bounds(n: int)
    ensures
        isqrt(n) >= 0,
        n >= 0 ==> isqrt(n) * isqrt(n) <= n,
        n >= 0 ==> n < (isqrt(n) + 1) * (isqrt(n) + 1),
    decreases
            if n >= 0 {
                n
            } else {
                0
            },
{
    if n <= 0 {
        assert(isqrt(n) == 0);
    } else {
        lemma_isqrt_bounds(n - 1);
        let r = isqrt(n - 1);
        if (r + 1) * (r + 1) <= n {
            assert(isqrt(n) == r + 1);
            assert(n - 1 < (r + 1) * (r + 1));
            assert(n == (r + 1) * (r + 1));
            assert((r + 2) * (r + 2) > (r + 1) * (r + 1)) by (nonlinear_arith)
                requires
                    r >= 0,
            ;
        } else {
            assert(isqrt(n) == r);
        }
    }
}

pub proof fn lemma_isqrt_unique(n: int, r: int)
    requires
        n >= 0,
        r >= 0,
        r * r <= n,
        n < (r + 1) * (r + 1),
    ensures
        r == isqrt(n),
{
    lemma_isqrt_bounds(n);
    let s = isqrt(n);
    if r < s {
        assert((r + 1) * (r + 1) <= s * s) by (nonlinear_arith)
            requires
                0 <= r,
                r < s,
        ;
        assert(false);
    } else if s < r {
        assert((s + 1) * (s + 1) <= r * r) by (nonlinear_arith)
            requires
                0 <= s,
                s < r,
        ;
        assert(false);
    }
}

pub proof fn lemma_isqrt_mono(m: int, n: int)
    requires
        m <= n,
    ensures
        isqrt(m) <= isqrt(n),
{
    lemma_isqrt_bounds(m);
    lemma_isqrt_bounds(n);
    if m > 0 {
        let a = isqrt(m);
        let b = isqrt(n);
        assert(a * a <= n);
        assert(a <= b) by (nonlinear_arith)
            requires
                a >= 0,
                b >= 0,
                a * a < (b + 1) * (b + 1),
        ;
    }
}

/// `isqrt(n) <= b` whenever `n < (b + 1) * (b + 1)`.
pub proof fn lemma_isqrt_le(n: int, b: int)
    requires
        b >= 0,
        n < (b + 1) * (b + 1),
    ensures
        isqrt(n) <= b,
{
    lemma_isqrt_bounds(n);
    if n >= 0 {
        let s = isqrt(n);
        assert(s <= b) by (nonlinear_arith)
            requires
                s >= 0,
                b >= 0,
                s * s < (b + 1) * (b + 1),
        ;
    }
}

/// A product bound: `|smul(a, b)|` is at most `ba * bb / SCALE`
/// whenever `|a| <= ba` and `|b| <= bb`.
pub proof fn lemma_smul_bound(a: int, b: int, ba: int, bb: int)
    requires
        sabs(a) <= ba,
        sabs(b) <= bb,
    ensures
        sabs(smul(a, b)) <= (ba * bb) / (SCALE as int),
{
    let p = sabs(a) * sabs(b);
    assert(0 <= sabs(a) * sabs(b) && sabs(a) * sabs(b) <= ba * bb) by (nonlinear_arith)
        requires
            0 <= sabs(a),
            0 <= sabs(b),
            sabs(a) <= ba,
            sabs(b) <= bb,
    ;
    vstd::arithmetic::div_mod::lemma_div_is_ordered(p, ba * bb, SCALE as int);
    vstd::arithmetic::div_mod::lemma_div_pos_is_pos(p, SCALE as int);
}

/// A quotient bound: `|sdiv(a, b)|` is at most `ba * SCALE / bmin`
/// whenever `|a| <= ba` and `|b| >= bmin > 0`.
pub proof fn lemma_sdiv_bound(a: int, b: int, ba: int, bmin: int)
    requires
        sabs(a) <= ba,
        sabs(b) >= bmin,
        bmin > 0,
    ensures
        sabs(sdiv(a, b)) <= (ba * (SCALE as int)) / bmin,
{
    let p = sabs(a) * (SCALE as int);
    assert(0 <= sabs(a) * (SCALE as int) && sabs(a) * (SCALE as int) <= ba * (SCALE as int))
        by (nonlinear_arith)
        requires
            0 <= sabs(a),
            sabs(a) <= ba,
    ;
    vstd::arithmetic::div_mod::lemma_div_is_ordered_by_denominator(p, bmin, sabs(b));
    vstd::arithmetic::div_mod::lemma_div_is_ordered(p, ba * (SCALE as int), bmin);
    vstd::arithmetic::div_mod::lemma_div_pos_is_pos(p, sabs(b));
}

/// The product of two magnitude bounds bounds the product of the magnitudes.
pub proof fn lemma_prod_bound(a: int, b: int, ba: int, bb: int)
    requires
        sabs(a) <= ba,
        sabs(b) <= bb,
    ensures
        sabs(a) * sabs(b) <= ba * bb,
{
    assert(sabs(a) * sabs(b) <= ba * bb) by (nonlinear_arith)
        requires
            0 <= sabs(a),
            0 <= sabs(b),
            sabs(a) <= ba,
            sabs(b) <= bb,
    ;
}

/// Fixed-point multiplication.
pub fn fx_mul(a: i128, b: i128) -> (r: i128)
    requires
        sabs(a as int) * sabs(b as int) <= PROD_LIM,
        -PROD_LIM <= a <= PROD_LIM,
        -PROD_LIM <= b <= PROD_LIM,
    ensures
        r == smul(a as int, b as int),
{
    let an: bool = a < 0;
    let bn: bool = b < 0;
    let am: u128 = if an {
        (-a) as u128
    } else {
        a as u128
    };
    let bm: u128 = if bn {
        (-b) as u128
    } else {
        b as u128
    };
    proof {
        assert(am == sabs(a as int));
        assert(bm == sabs(b as int));
        assert(am * bm <= PROD_LIM as u128);
    }
    let p: u128 = am * bm;
    let q: u128 = p / 1_000_000u128;
    proof {
        vstd::arithmetic::div_mod::lemma_div_nonincreasing(p as int, 1_000_000int);
        vstd::arithmetic::div_mod::lemma_div_pos_is_pos(p as int, 1_000_000int);
    }
    if an != bn {
        -(q as i128)
    } else {
        q as i128
    }
}

/// Fixed-point division; the divisor must be nonzero.
pub fn fx_div(a: i128, b: i128) -> (r: i128)
    requires
        b != 0,
        -DIV_LIM <= a <= DIV_LIM,
        -DIV_LIM <= b <= DIV_LIM,
    ensures
        r == sdiv(a as int, b as int),
{
    let an: bool = a < 0;
    let bn: bool = b < 0;
    let am: u128 = if an {
        (-a) as u128
    } else {
        a as u128
    };
    let bm: u128 = if bn {
        (-b) as u128
    } else {
        b as u128
    };
    proof {
        assert(am == sabs(a as int));
        assert(bm == sabs(b as int));
        assert(am * 1_000_000u128 <= (DIV_LIM as u128) * 1_000_000u128) by (nonlinear_arith)
            requires
                am <= DIV_LIM as u128,
        ;
    }
    let p: u128 = am * 1_000_000u128;
    let q: u128 = p / bm;
    proof {
        vstd::arithmetic::div_mod::lemma_div_nonincreasing(p as int, bm as int);
        vstd::arithmetic::div_mod::lemma_div_pos_is_pos(p as int, bm as int);
    }
    if an != bn {
        -(q as i128)
    } else {
        q as i128
    }
}

/// Integer square root by bisection.
fn isqrt_u128(n: u128) -> (r: u128)
    ensures
        r == isqrt(n as int),
        r * r <= n,
        r < 18_446_744_073_709_551_616u128,
{
    let mut lo: u128 = 0;
    let mut hi: u128 = 18_446_744_073_709_551_616u128;
    proof {
        assert((n as int) < hi * hi) by (nonlinear_arith)
            requires
                hi == 18_446_744_073_709_551_616u128,
                n <= u128::MAX,
        ;
    }
    while lo + 1 < hi
        invariant
            lo < hi,
            hi <= 18_446_744_073_709_551_616u128,
            lo * lo <= n,
            (n as int) < hi * hi,
        decreases hi - lo,
    {
        let mid: u128 = lo + (hi - lo) / 2;
        proof {
            assert(mid * mid <= u128::MAX) by (nonlinear_arith)
                requires
                    mid < 18_446_744_073_709_551_616u128,
            ;
        }
        if mid * mid <= n {
            lo = mid;
        } else {
            hi = mid;
        }
    }
    proof {
        lemma_isqrt_unique(n as int, lo as int);
    }
    lo
}

/// Fixed-point square root of a nonnegative scalar.
pub fn fx_sqrt(a: i128) -> (r: i128)
    requires
        0 <= a <= SQRT_LIM,
    ensures
        r == ssqrt(a as int),
        r >= 0,
{
    proof {
        assert((a as u128) * 1_000_000u128 <= (SQRT_LIM as u128) * 1_000_000u128)
            by (nonlinear_arith)
            requires
                a as u128 <= SQRT_LIM as u128,
        ;
        lemma_isqrt_bounds((a * SCALE) as int);
    }
    let p: u128 = (a as u128) * 1_000_000u128;
    let r: u128 = isqrt_u128(p);
    r as i128
}

} // verus!
