//! Fixed-point scalar arithmetic for the simulation core.
//!
//! Every physical quantity is stored as a signed 64-bit count of ticks,
//! with [`SCALE`] ticks to one simulation unit.  Stored quantities are kept
//! inside the band `[-LIM, LIM]`; results that would leave the band saturate
//! at its edge, the fixed-point analogue of a floating-point blow-up to
//! infinity.  Intermediate products are taken in 128-bit integers, whose
//! bounds are proved rather than assumed.

use vstd::arithmetic::div_mod::*;
use vstd::arithmetic::mul::*;
use vstd::math::abs;
use vstd::prelude::*;

verus! {

/// Ticks per simulation unit.
pub const SCALE: i64 = 1_000_000;

/// Largest magnitude a stored coordinate, velocity, acceleration, force
/// component, charge value or force constant may take, in ticks.
pub const LIM: i64 = 1_000_000_000_000;

/// Largest mass, in ticks.  Masses are only ever divided by, so they may be
/// far larger than the other quantities (a huge mass makes a body an anchor).
pub const MASS_MAX: i64 = 1_000_000_000_000_000_000;

/// Default Coulomb constant, in ticks (400 000 units).  The constant sets
/// the stiffness of the simulation, not its correctness, and is meant to be
/// tuned per scene through [`crate::solver::Solver`]'s `k` field.
pub const K_DEFAULT: i64 = 400_000_000_000;

/// A scalar that fits the stored band.
pub open spec fn in_range(x: int) -> bool {
    -(LIM as int) <= x && x <= LIM as int
}

/// Saturation into the stored band.
pub open spec fn clip(x: int) -> int {
    if x > LIM as int {
        LIM as int
    } else if x < -(LIM as int) {
        -(LIM as int)
    } else {
        x
    }
}

/// Division rounding toward zero (the rounding of `/` on machine integers),
/// for positive divisors.
pub open spec fn tdiv(a: int, b: int) -> int
    recommends
        b >= 1,
{
    if a >= 0 {
        a / b
    } else {
        -((-a) / b)
    }
}

/// The greatest `r` with `r * r <= n`.
pub open spec fn sqrt_floor(n: int) -> int
    recommends
        n >= 0,
    decreases n,
{
    if n <= 0 {
        0
    } else {
        let r = sqrt_floor(n - 1);
        if (r + 1) * (r + 1) <= n {
            r + 1
        } else {
            r
        }
    }
}

pub proof fn lemma_clip_in_range(x: int)
    ensures
        in_range(clip(x)),
        in_range(x) ==> clip(x) == x,
{
}

/// Saturation is an odd function, so it cannot break the symmetry of an
/// equal-and-opposite pair.
pub proof fn lemma_clip_odd(x: int)
    ensures
        clip(-x) == -clip(x),
{
}

/// Truncating division is an odd function of the dividend.
pub proof fn lemma_tdiv_neg(a: int, b: int)
    requires
        b >= 1,
    ensures
        tdiv(-a, b) == -tdiv(a, b),
{
    lemma_div_of0(b);
}

/// Truncating division keeps the sign of the dividend and never grows its
/// magnitude.
pub proof fn lemma_tdiv_bounds(a: int, b: int)
    requires
        b >= 1,
    ensures
        a >= 0 ==> 0 <= tdiv(a, b) <= a,
        a <= 0 ==> a <= tdiv(a, b) <= 0,
{
    lemma_div_of0(b);
    if a > 0 {
        lemma_div_pos_is_pos(a, b);
        lemma_div_nonincreasing(a, b);
    } else if a < 0 {
        lemma_div_pos_is_pos(-a, b);
        lemma_div_nonincreasing(-a, b);
    }
}

/// The quotient times the divisor does not pass the dividend.
pub proof fn lemma_tdiv_mul_le(a: int, b: int)
    requires
        a >= 0,
        b >= 1,
    ensures
        tdiv(a, b) * b <= a,
{
    lemma_fundamental_div_mod(a, b);
    lemma_mod_division_less_than_divisor(a, b);
    lemma_mul_is_commutative(b, a / b);
}

/// Bound used by the force computation: multiplying the quotient `a / r2`
/// by a factor `u` with `u * u <= r2` cannot pass the dividend `a` in
/// magnitude.
pub proof fn lemma_tdiv_mul_bound(a: int, r2: int, u: int)
    requires
        r2 >= 1,
        u * u <= r2,
    ensures
        -(abs(a) as int) <= tdiv(a, r2) * u,
        tdiv(a, r2) * u <= abs(a) as int,
{
    let q = tdiv(a, r2);
    let aa = abs(a) as int;
    let aq = tdiv(aa, r2);
    lemma_tdiv_bounds(a, r2);
    lemma_tdiv_bounds(aa, r2);
    assert(aq >= 0);
    assert(q == aq || q == -aq);
    if u >= 1 {
        assert(u <= u * u) by (nonlinear_arith)
            requires
                u >= 1,
        ;
    } else if u <= -1 {
        assert(-u <= u * u) by (nonlinear_arith)
            requires
                u <= -1,
        ;
    }
    assert(-r2 <= u && u <= r2);
    assert(-(aq * r2) <= q * u && q * u <= aq * r2) by (nonlinear_arith)
        requires
            0 <= aq,
            -aq <= q && q <= aq,
            -r2 <= u && u <= r2,
    ;
    lemma_tdiv_mul_le(aa, r2);
}

/// Dividing by `c` and then by `d` is dividing by `c * d`, also under
/// truncation toward zero.
pub proof fn lemma_tdiv_denominator(x: int, c: int, d: int)
    requires
        c >= 1,
        d >= 1,
    ensures
        tdiv(tdiv(x, c), d) == tdiv(x, c * d),
{
    assert(c * d >= 1) by (nonlinear_arith)
        requires
            c >= 1,
            d >= 1,
    ;
    lemma_div_of0(c);
    lemma_div_of0(d);
    lemma_div_of0(c * d);
    if x >= 0 {
        lemma_div_pos_is_pos(x, c);
        lemma_div_denominator(x, c, d);
    } else {
        lemma_div_pos_is_pos(-x, c);
        lemma_div_denominator(-x, c, d);
    }
}

pub proof fn lemma_sqrt_floor_bounds(n: int)
    requires
        n >= 0,
    ensures
        sqrt_floor(n) >= 0,
        sqrt_floor(n) * sqrt_floor(n) <= n,
        n < (sqrt_floor(n) + 1) * (sqrt_floor(n) + 1),
    decreases n,
{
    if n > 0 {
        lemma_sqrt_floor_bounds(n - 1);
        let r = sqrt_floor(n - 1);
        if (r + 1) * (r + 1) <= n {
            assert((r + 1) * (r + 1) < (r + 2) * (r + 2)) by (nonlinear_arith)
                requires
                    r >= 0,
            ;
        }
    }
}

/// A positive number has a positive floor square root.
pub proof fn lemma_sqrt_floor_pos(n: int)
    requires
        n >= 1,
    ensures
        sqrt_floor(n) >= 1,
{
    lemma_sqrt_floor_bounds(n);
    if sqrt_floor(n) == 0 {
        assert(n < (0 + 1) * (0 + 1));
        assert((0 + 1) * (0 + 1) == 1) by (nonlinear_arith);
        assert(false);
    }
}

/// The floor square root is the only `r >= 0` with `r * r <= n < (r + 1)^2`.
pub proof fn lemma_sqrt_floor_unique(n: int, r: int)
    requires
        n >= 0,
        r >= 0,
        r * r <= n,
        n < (r + 1) * (r + 1),
    ensures
        r == sqrt_floor(n),
{
    let s = sqrt_floor(n);
    lemma_sqrt_floor_bounds(n);
    if r < s {
        assert((r + 1) * (r + 1) <= s * s) by (nonlinear_arith)
            requires
                0 <= r,
                r + 1 <= s,
        ;
    }
    if s < r {
        assert((s + 1) * (s + 1) <= r * r) by (nonlinear_arith)
            requires
                0 <= s,
                s + 1 <= r,
        ;
    }
}

/// Saturate a wide intermediate into a stored scalar.
pub fn clip_i64(x: i128) -> (r: i64)
    ensures
        r as int == clip(x as int),
{
    if x > LIM as i128 {
        LIM
    } else if x < -(LIM as i128) {
        -LIM
    } else {
        x as i64
    }
}

/// Division of wide intermediates, rounding toward zero as `/` does on
/// primitive signed integers.
pub fn div_trunc(a: i128, b: i128) -> (r: i128)
    requires
        b >= 1,
        a > i128::MIN,
    ensures
        r as int == tdiv(a as int, b as int),
        -(abs(a as int) as int) <= r as int && r as int <= abs(a as int) as int,
{
    proof {
        lemma_tdiv_bounds(a as int, b as int);
    }
    if a >= 0 {
        let q: u128 = (a as u128) / (b as u128);
        q as i128
    } else {
        let n: i128 = -a;
        let q: u128 = (n as u128) / (b as u128);
        proof {
            lemma_div_pos_is_pos(n as int, b as int);
            lemma_div_nonincreasing(n as int, b as int);
        }
        -(q as i128)
    }
}

/// Floor square root by bisection.
pub fn isqrt(x: u128) -> (r: u64)
    ensures
        r as int == sqrt_floor(x as int),
{
    let mut lo: u128 = 0;
    let mut hi: u128 = 0x1_0000_0000_0000_0000;
    assert((x as int) < 0x1_0000_0000_0000_0000 * 0x1_0000_0000_0000_0000);
    while lo + 1 < hi
        invariant
            lo < hi,
            hi <= 0x1_0000_0000_0000_0000,
            (lo as int) * (lo as int) <= x as int,
            (x as int) < (hi as int) * (hi as int),
        decreases hi - lo,
    {
        let mid: u128 = lo + (hi - lo) / 2;
        proof {
            assert(mid < hi);
            assert(lo < mid);
            lemma_mul_upper_bound(
                mid as int,
                0xFFFF_FFFF_FFFF_FFFF,
                mid as int,
                0xFFFF_FFFF_FFFF_FFFF,
            );
        }
        let sq: u128 = mid * mid;
        if sq <= x {
            lo = mid;
        } else {
            hi = mid;
        }
    }
    proof {
        lemma_sqrt_floor_unique(x as int, lo as int);
    }
    lo as u64
}

/// Product bound for wide intermediates: factors inside `[-bx, bx]` and
/// `[-by, by]` multiply to something inside `[-bx * by, bx * by]`.
pub proof fn lemma_mul_abs_bound(x: int, y: int, bx: int, by: int)
    requires
        -bx <= x && x <= bx,
        -by <= y && y <= by,
    ensures
        -(bx * by) <= x * y,
        x * y <= bx * by,
{
    assert(-(bx * by) <= x * y && x * y <= bx * by) by (nonlinear_arith)
        requires
            -bx <= x && x <= bx,
            -by <= y && y <= by,
    ;
}

} // verus!
