//! Fixed-point arithmetic used throughout the solver.
//!
//! A velocity, a timestep or a grid spacing is held as an `i64` number of
//! ticks, where `SCALE` ticks make one physical unit.  Divisions in the
//! solver truncate toward zero (`tdiv`), which keeps corrections from ever
//! overshooting the exact quotient in magnitude.

use vstd::prelude::*;

verus! {

/// Number of fixed-point ticks per physical unit.
pub const SCALE: i64 = 1000;

/// `SCALE * SCALE`, the weight sum of a bilinear interpolation.
pub const SCALE_SQ: i64 = 1000000;

/// Largest magnitude a velocity sample, a source velocity or a scratch
/// sample may take.  Keeping samples inside this bound lets every
/// intermediate product of the solver fit in `i64`/`i128`.
pub const VMAX: i64 = 1000000000000;

/// Largest magnitude a vorticity sample may take (a central difference of
/// two samples bounded by `VMAX`).
pub const WMAX: i64 = 2000000000000;

/// Largest admitted overrelaxation factor, in ticks (a factor of ten).
pub const ORMAX: i64 = 10000;

/// Largest admitted timestep, grid spacing or confinement coefficient, in
/// ticks.
pub const PMAX: i64 = 1000000;

/// Largest admitted grid side length.
pub const DMAX: usize = 10000;

/// Magnitude of an integer.
pub open spec fn mag(a: int) -> int {
    if a >= 0 {
        a
    } else {
        -a
    }
}

/// Truncating (round-toward-zero) division, the semantics of every
/// division the solver performs.
pub open spec fn tdiv(a: int, b: int) -> int
    recommends
        b > 0,
{
    if a >= 0 {
        a / b
    } else {
        -((-a) / b)
    }
}

/// Truncating division on machine integers.
pub fn div_trunc(a: i64, b: i64) -> (r: i64)
    requires
        b > 0,
        a > i64::MIN,
    ensures
        r == tdiv(a as int, b as int),
        mag(r as int) <= mag(a as int),
{
    if a >= 0 {
        let q: u64 = (a as u64) / (b as u64);
        q as i64
    } else {
        let m: i64 = -a;
        let q: u64 = (m as u64) / (b as u64);
        -(q as i64)
    }
}

/// Truncating division on wide integers, for the vorticity force terms.
pub fn div_trunc_i128(a: i128, b: i128) -> (r: i128)
    requires
        b > 0,
        a > i128::MIN,
    ensures
        r == tdiv(a as int, b as int),
        mag(r as int) <= mag(a as int),
{
    if a >= 0 {
        let q: u128 = (a as u128) / (b as u128);
        q as i128
    } else {
        let m: i128 = -a;
        let q: u128 = (m as u128) / (b as u128);
        -(q as i128)
    }
}

/// The magnitude of a truncated quotient never exceeds the magnitude of
/// the exact quotient, and the quotient of `a` by a positive `b` keeps
/// `|tdiv(a, b) * b| <= |a|`.
pub proof fn lemma_tdiv_bounds(a: int, b: int)
    requires
        b > 0,
    ensures
        mag(tdiv(a, b)) <= mag(a),
        mag(tdiv(a, b)) * b <= mag(a),
        a >= 0 ==> tdiv(a, b) >= 0,
        a <= 0 ==> tdiv(a, b) <= 0,
{
    if a >= 0 {
        assert(a / b >= 0) by (nonlinear_arith)
            requires
                a >= 0,
                b > 0,
        ;
        assert((a / b) * b <= a) by (nonlinear_arith)
            requires
                a >= 0,
                b > 0,
        ;
        assert(a / b <= a) by (nonlinear_arith)
            requires
                a >= 0,
                b > 0,
        ;
    } else {
        let m = -a;
        assert(m / b >= 0) by (nonlinear_arith)
            requires
                m > 0,
                b > 0,
        ;
        assert((m / b) * b <= m) by (nonlinear_arith)
            requires
                m > 0,
                b > 0,
        ;
        assert(m / b <= m) by (nonlinear_arith)
            requires
                m > 0,
                b > 0,
        ;
    }
}

} // verus!
