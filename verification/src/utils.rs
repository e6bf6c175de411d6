//! Grid directions, a small 2-component vector, clamping and an exact
//! integer square root.

use vstd::prelude::*;

use crate::units::mag;
use crate::units::tdiv;
use crate::units::SCALE;

verus! {

/// The four directions adjacent to a cell on a cartesian grid.
pub fn get_directions() -> (r: [(isize, isize); 4])
    ensures
        r@ == seq![(-1isize, 0isize), (1isize, 0isize), (0isize, -1isize), (0isize, 1isize)],
{
    let r: [(isize, isize); 4] = [(-1, 0), (1, 0), (0, -1), (0, 1)];
    proof {
        assert(r@ =~= seq![
            (-1isize, 0isize),
            (1isize, 0isize),
            (0isize, -1isize),
            (0isize, 1isize),
        ]);
    }
    r
}

/// The eight cells around a cell, corners included.
pub fn get_directions_8() -> (r: [(isize, isize); 8])
    ensures
        r@ == seq![
            (-1isize, 0isize),
            (1isize, 0isize),
            (0isize, -1isize),
            (0isize, 1isize),
            (1isize, 1isize),
            (1isize, -1isize),
            (-1isize, 1isize),
            (-1isize, -1isize),
        ],
{
    let r: [(isize, isize); 8] = [
        (-1, 0),
        (1, 0),
        (0, -1),
        (0, 1),
        (1, 1),
        (1, -1),
        (-1, 1),
        (-1, -1),
    ];
    proof {
        assert(r@ =~= seq![
            (-1isize, 0isize),
            (1isize, 0isize),
            (0isize, -1isize),
            (0isize, 1isize),
            (1isize, 1isize),
            (1isize, -1isize),
            (-1isize, 1isize),
            (-1isize, -1isize),
        ]);
    }
    r
}

/// The 26 cells around a cell of a 3-dimensional cartesian grid.
pub fn get_directions_26() -> (r: [(isize, isize, isize); 26])
    ensures
        r@.len() == 26,
        forall|i: int|
            0 <= i < 26 ==> -1 <= (#[trigger] r@[i]).0 <= 1 && -1 <= r@[i].1 <= 1 && -1 <= r@[i].2
                <= 1,
        forall|i: int, j: int| 0 <= i < j < 26 ==> #[trigger] r@[i] != #[trigger] r@[j],
{
    let r: [(isize, isize, isize); 26] = [
        (1, 0, 0),
        (1, 1, 0),
        (1, -1, 0),
        (0, 1, 0),
        (0, -1, 0),
        (-1, 0, 0),
        (-1, 1, 0),
        (-1, -1, 0),
        (0, 0, 1),
        (0, 0, -1),
        (1, 0, 1),
        (1, 0, -1),
        (1, 1, 1),
        (1, 1, -1),
        (1, -1, 1),
        (1, -1, -1),
        (-1, 0, 1),
        (-1, 0, -1),
        (-1, 1, 1),
        (-1, 1, -1),
        (-1, -1, 1),
        (-1, -1, -1),
        (0, 1, 1),
        (0, 1, -1),
        (0, -1, 1),
        (0, -1, -1),
    ];
    r
}

/// A value pulled into a closed interval.
pub trait Clamp: Sized {
    /// What `clamped` returns.
    spec fn clamp_spec(&self, min: Self, max: Self) -> Self;

    fn clamped(&self, min: Self, max: Self) -> (r: Self)
        ensures
            r == self.clamp_spec(min, max),
    ;
}

impl Clamp for i64 {
    open spec fn clamp_spec(&self, min: i64, max: i64) -> i64 {
        if *self < min {
            min
        } else if *self > max {
            max
        } else {
            *self
        }
    }

    fn clamped(&self, min: i64, max: i64) -> (r: i64) {
        if *self < min {
            min
        } else if *self > max {
            max
        } else {
            *self
        }
    }
}

/// A 2-component tuple, used for velocities, grid coordinates and relative
/// offsets.
#[derive(Clone, Copy, Debug, PartialEq, Eq, Hash, Structural)]
pub struct Vector<T> {
    pub x: T,
    pub y: T,
}

impl<T> Vector<T> {
    pub fn construct(x: T, y: T) -> (r: Vector<T>)
        ensures
            r.x == x,
            r.y == y,
    {
        Vector { x, y }
    }
}

impl Vector<i64> {
    /// The zero vector.
    pub fn new() -> (r: Vector<i64>)
        ensures
            r.x == 0,
            r.y == 0,
    {
        Vector { x: 0, y: 0 }
    }

    /// Componentwise addition.
    pub fn add(&mut self, x: i64, y: i64)
        requires
            mag(old(self).x + x) <= i64::MAX,
            mag(old(self).y + y) <= i64::MAX,
        ensures
            final(self).x == old(self).x + x,
            final(self).y == old(self).y + y,
    {
        self.x = self.x + x;
        self.y = self.y + y;
    }

    /// Euclidean length, rounded down.
    pub fn magnitude(&self) -> (r: i64)
        requires
            mag(self.x as int) <= 4000000000000000000,
            mag(self.y as int) <= 4000000000000000000,
        ensures
            r >= 0,
            r == sqrt_floor((self.x * self.x + self.y * self.y) as nat),
    {
        let ax: u128 = abs_u128(self.x);
        let ay: u128 = abs_u128(self.y);
        proof {
            assert((ax as int) * (ax as int) == (self.x as int) * (self.x as int) && (ay as int)
                * (ay as int) == (self.y as int) * (self.y as int)) by (nonlinear_arith)
                requires
                    ax == mag(self.x as int),
                    ay == mag(self.y as int),
            ;
            assert((ax as int) * (ax as int) <= 16000000000000000000000000000000000000
                && (ay as int) * (ay as int) <= 16000000000000000000000000000000000000)
                by (nonlinear_arith)
                requires
                    0 <= ax <= 4000000000000000000,
                    0 <= ay <= 4000000000000000000,
            ;
        }
        let sq: u128 = ax * ax + ay * ay;
        proof {
            assert(sq < 0x40000000000000000000000000000000);
        }
        let r: u64 = isqrt(sq);
        proof {
            if r > 6000000000000000000 {
                assert((r as int) * (r as int) > sq) by (nonlinear_arith)
                    requires
                        r > 6000000000000000000,
                        sq <= 32000000000000000000000000000000000000,
                ;
            }
        }
        r as i64
    }

    /// Scales the vector so that its length is close to one whole unit
    /// (`SCALE` ticks); each component is scaled by `SCALE` and divided by
    /// the current length, truncating toward zero.
    pub fn normalize(&mut self)
        requires
            !(old(self).x == 0 && old(self).y == 0),
            mag(old(self).x as int) <= 4000000000000000,
            mag(old(self).y as int) <= 4000000000000000,
        ensures
            final(self).x == tdiv(
                old(self).x * SCALE,
                sqrt_floor((old(self).x * old(self).x + old(self).y * old(self).y) as nat) as int,
            ),
            final(self).y == tdiv(
                old(self).y * SCALE,
                sqrt_floor((old(self).x * old(self).x + old(self).y * old(self).y) as nat) as int,
            ),
    {
        let m: i64 = self.magnitude();
        let ghost n: int = (self.x as int) * (self.x as int) + (self.y as int) * (self.y as int);
        proof {
            assert(n >= 1) by (nonlinear_arith)
                requires
                    !(self.x == 0 && self.y == 0),
                    n == (self.x as int) * (self.x as int) + (self.y as int) * (self.y as int),
            ;
            lemma_sqrt_floor_bounds(n as nat);
            if m == 0 {
                assert(n < (sqrt_floor(n as nat) + 1) * (sqrt_floor(n as nat) + 1));
            }
            assert(m >= 1);
            assert(mag((self.x as int) * (SCALE as int)) <= 4000000000000000000 && mag(
                (self.y as int) * (SCALE as int),
            ) <= 4000000000000000000) by (nonlinear_arith)
                requires
                    mag(self.x as int) <= 4000000000000000,
                    mag(self.y as int) <= 4000000000000000,
                    SCALE == 1000,
            ;
        }
        self.x = crate::units::div_trunc(self.x * SCALE, m);
        self.y = crate::units::div_trunc(self.y * SCALE, m);
    }
}

impl Vector<isize> {
    /// Dot product of two offset vectors.
    pub fn dot(v1: Self, v2: Self) -> (r: isize)
        requires
            mag(v1.x as int) <= 32000,
            mag(v1.y as int) <= 32000,
            mag(v2.x as int) <= 32000,
            mag(v2.y as int) <= 32000,
        ensures
            r == v1.x * v2.x + v1.y * v2.y,
    {
        proof {
            assert(mag((v1.x as int) * (v2.x as int)) <= 1024000000 && mag(
                (v1.y as int) * (v2.y as int),
            ) <= 1024000000) by (nonlinear_arith)
                requires
                    mag(v1.x as int) <= 32000,
                    mag(v1.y as int) <= 32000,
                    mag(v2.x as int) <= 32000,
                    mag(v2.y as int) <= 32000,
            ;
        }
        v1.x * v2.x + v1.y * v2.y
    }
}

/// Magnitude of an `i64`, widened so that no input can overflow.
pub fn abs_u128(a: i64) -> (r: u128)
    ensures
        r == mag(a as int),
{
    if a >= 0 {
        a as u128
    } else {
        let wide: i128 = a as i128;
        (-wide) as u128
    }
}

/// Largest `r` with `r * r <= n`.
pub open spec fn sqrt_floor(n: nat) -> nat
    decreases n,
{
    if n == 0 {
        0
    } else {
        let r = sqrt_floor((n - 1) as nat);
        if (r + 1) * (r + 1) <= n {
            r + 1
        } else {
            r
        }
    }
}

/// `sqrt_floor` squares to at most its argument, and one more squares past
/// it.
pub proof fn lemma_sqrt_floor_bounds(n: nat)
    ensures
        sqrt_floor(n) * sqrt_floor(n) <= n,
        n < (sqrt_floor(n) + 1) * (sqrt_floor(n) + 1),
    decreases n,
{
    if n == 0 {
        assert(sqrt_floor(n) == 0);
        assert(n < (sqrt_floor(n) + 1) * (sqrt_floor(n) + 1)) by (nonlinear_arith)
            requires
                n == 0,
                sqrt_floor(n) == 0,
        ;
    } else {
        lemma_sqrt_floor_bounds((n - 1) as nat);
        let r = sqrt_floor((n - 1) as nat);
        assert(r * r <= n - 1);
        assert((n - 1) < (r + 1) * (r + 1));
        if (r + 1) * (r + 1) <= n {
            assert(sqrt_floor(n) == r + 1);
            assert(n <= (r + 1) * (r + 1));
            assert(n < (r + 1 + 1) * (r + 1 + 1)) by (nonlinear_arith)
                requires
                    n <= (r + 1) * (r + 1),
                    r >= 0,
            ;
        } else {
            assert(sqrt_floor(n) == r);
            assert(n < (r + 1) * (r + 1));
        }
    }
}

/// Any `r` whose square brackets `n` is `sqrt_floor(n)`.
pub proof fn lemma_sqrt_floor_unique(n: nat, r: nat)
    requires
        r * r <= n,
        n < (r + 1) * (r + 1),
    ensures
        r == sqrt_floor(n),
{
    lemma_sqrt_floor_bounds(n);
    let s = sqrt_floor(n);
    if r < s {
        assert((r + 1) * (r + 1) <= s * s) by (nonlinear_arith)
            requires
                r + 1 <= s,
        ;
    }
    if s < r {
        assert((s + 1) * (s + 1) <= r * r) by (nonlinear_arith)
            requires
                s + 1 <= r,
        ;
    }
}

/// Integer square root by bisection.
pub fn isqrt(n: u128) -> (r: u64)
    requires
        n < 0x40000000000000000000000000000000,
    ensures
        r as nat == sqrt_floor(n as nat),
        (r as nat) * (r as nat) <= n as nat,
        (n as nat) < ((r as nat) + 1) * ((r as nat) + 1),
{
    let mut lo: u64 = 0;
    let mut hi: u64 = 0x8000000000000000;
    proof {
        assert((hi as nat) * (hi as nat) == 0x40000000000000000000000000000000nat);
    }
    while hi - lo > 1
        invariant
            lo < hi,
            hi <= 0x8000000000000000,
            (lo as nat) * (lo as nat) <= n as nat,
            (n as nat) < (hi as nat) * (hi as nat),
        decreases hi - lo,
    {
        let mid: u64 = lo + (hi - lo) / 2;
        proof {
            assert((mid as int) * (mid as int) <= 0x40000000000000000000000000000000)
                by (nonlinear_arith)
                requires
                    0 <= mid <= 0x8000000000000000,
            ;
        }
        let sq: u128 = (mid as u128) * (mid as u128);
        if sq <= n {
            lo = mid;
        } else {
            hi = mid;
        }
    }
    proof {
        assert(hi == lo + 1);
        lemma_sqrt_floor_unique(n as nat, lo as nat);
    }
    lo
}

} // verus!
