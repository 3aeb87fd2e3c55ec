//! Plane geometry for the simulator: absolute positions and displacement
//! vectors, in fixed-point milli-units (see [`crate::fixed`]).

use vstd::prelude::*;

use crate::fixed::absolute;
use crate::fixed::add_clamped;
use crate::fixed::clamped;
use crate::fixed::mul_div_clamped;
use crate::fixed::neg_clamped;
use crate::fixed::sqrt_clamped;
use crate::fixed::sqrt_floor;
use crate::fixed::sub_clamped;
use crate::fixed::tdiv;
use crate::fixed::SCALE;
use crate::fixed::SPAN;

verus! {

/// An absolute position in simulation space, in milli-units.
#[derive(Clone, Copy, PartialEq, Eq, Structural, Debug)]
pub struct Coordinate {
    pub x: i64,
    pub y: i64,
}

/// A displacement, velocity or force, in milli-units per component.
#[derive(Clone, Copy, PartialEq, Eq, Structural, Debug)]
pub struct EuclideanVector {
    pub dx: i64,
    pub dy: i64,
}

impl Coordinate {
    /// The coordinate with the given pair of components.
    pub fn from(pair: (i64, i64)) -> (r: Self)
        ensures
            r.x == pair.0,
            r.y == pair.1,
    {
        Self { x: pair.0, y: pair.1 }
    }

    /// This position displaced by `delta`, clamped into the span.
    pub fn translated(self, delta: EuclideanVector) -> (r: Self)
        ensures
            r == self.translated_spec(delta),
    {
        Self { x: add_clamped(self.x, delta.dx), y: add_clamped(self.y, delta.dy) }
    }

    pub open spec fn translated_spec(self, delta: EuclideanVector) -> Coordinate {
        Coordinate {
            x: clamped(self.x + delta.dx) as i64,
            y: clamped(self.y + delta.dy) as i64,
        }
    }

    /// The displacement from `other` to this position.
    pub fn minus(self, other: Self) -> (r: EuclideanVector)
        ensures
            r == EuclideanVector::between_spec(other, self),
    {
        EuclideanVector::between(other, self)
    }
}

impl EuclideanVector {
    /// The squared length of this vector, exactly.
    pub open spec fn norm2(self) -> int {
        self.dx * self.dx + self.dy * self.dy
    }

    /// The length of this vector: the integer square root of the squared
    /// length, clamped into the span.
    pub open spec fn mag(self) -> int {
        clamped(sqrt_floor(self.norm2()))
    }

    pub open spec fn between_spec(from: Coordinate, to: Coordinate) -> EuclideanVector {
        EuclideanVector {
            dx: clamped(to.x - from.x) as i64,
            dy: clamped(to.y - from.y) as i64,
        }
    }

    /// The displacement that carries `from` to `to` (pointing toward `to`).
    pub fn between(from: Coordinate, to: Coordinate) -> (r: Self)
        ensures
            r == Self::between_spec(from, to),
    {
        Self { dx: sub_clamped(to.x, from.x), dy: sub_clamped(to.y, from.y) }
    }

    /// A displacement from the origin to `to`.
    pub fn towards(to: Coordinate) -> (r: EuclideanVector)
        ensures
            r.dx == to.x,
            r.dy == to.y,
    {
        Self { dx: to.x, dy: to.y }
    }

    /// The length of this vector, in milli-units.
    pub fn magnitude(&self) -> (r: i64)
        ensures
            r == self.mag(),
    {
        let ax = abs_wide(self.dx);
        let ay = abs_wide(self.dy);
        proof {
            assert(ax * ax == self.dx * self.dx && ay * ay == self.dy * self.dy
                && ax * ax + ay * ay < 0x1_0000_0000_0000_0000_0000_0000_0000_0000)
                by (nonlinear_arith)
                requires
                    ax == absolute(self.dx as int),
                    ay == absolute(self.dy as int),
                    -0x8000_0000_0000_0000 <= self.dx as int <= 0x7FFF_FFFF_FFFF_FFFF,
                    -0x8000_0000_0000_0000 <= self.dy as int <= 0x7FFF_FFFF_FFFF_FFFF,
            ;
        }
        sqrt_clamped(ax * ax + ay * ay)
    }

    /// Whether this vector's length equals `length` exactly.
    pub fn has_magnitude(&self, length: i64) -> (r: bool)
        ensures
            r <==> self.mag() == length,
    {
        self.magnitude() == length
    }

    pub open spec fn versor_spec(self) -> EuclideanVector {
        let m = self.mag();
        EuclideanVector {
            dx: clamped(tdiv(self.dx * SCALE, m)) as i64,
            dy: clamped(tdiv(self.dy * SCALE, m)) as i64,
        }
    }

    /// The unit vector pointing the way this vector points: each component
    /// is scaled by `SCALE` and divided by the length.  The zero vector has
    /// no direction, so it is excluded.
    pub fn versor(&self) -> (r: Self)
        requires
            self.dx != 0 || self.dy != 0,
        ensures
            r == self.versor_spec(),
    {
        let m = self.magnitude();
        proof {
            self.lemma_nonzero_mag();
        }
        Self {
            dx: mul_div_clamped(self.dx, SCALE, m),
            dy: mul_div_clamped(self.dy, SCALE, m),
        }
    }

    /// A vector other than the zero vector has a positive length.
    pub proof fn lemma_nonzero_mag(self)
        requires
            self.dx != 0 || self.dy != 0,
        ensures
            0 < self.mag() <= SPAN,
    {
        assert(self.dx * self.dx + self.dy * self.dy >= 1) by (nonlinear_arith)
            requires
                self.dx != 0 || self.dy != 0,
        ;
        crate::fixed::lemma_sqrt_floor_bounds(self.norm2());
        let s = sqrt_floor(self.norm2());
        if s == 0 {
            assert(false) by (nonlinear_arith)
                requires
                    s == 0,
                    self.norm2() < (s + 1) * (s + 1),
                    self.norm2() >= 1,
            ;
        }
    }

    pub open spec fn plus_spec(self, other: EuclideanVector) -> EuclideanVector {
        EuclideanVector {
            dx: clamped(self.dx + other.dx) as i64,
            dy: clamped(self.dy + other.dy) as i64,
        }
    }

    /// The sum of this vector and `other`, clamped into the span.
    pub fn plus(self, other: Self) -> (r: Self)
        ensures
            r == self.plus_spec(other),
            r.dx == clamped(self.dx + other.dx),
            r.dy == clamped(self.dy + other.dy),
    {
        Self { dx: add_clamped(self.dx, other.dx), dy: add_clamped(self.dy, other.dy) }
    }

    pub open spec fn negated_spec(self) -> EuclideanVector {
        EuclideanVector {
            dx: clamped(-(self.dx as int)) as i64,
            dy: clamped(-(self.dy as int)) as i64,
        }
    }

    /// This vector reversed.
    pub fn negated(self) -> (r: Self)
        ensures
            r == self.negated_spec(),
    {
        Self { dx: neg_clamped(self.dx), dy: neg_clamped(self.dy) }
    }

    pub open spec fn scaled_spec(self, factor: int) -> EuclideanVector {
        EuclideanVector {
            dx: clamped(tdiv(self.dx * factor, SCALE as int)) as i64,
            dy: clamped(tdiv(self.dy * factor, SCALE as int)) as i64,
        }
    }

    /// This vector scaled by the fixed-point factor `factor`.
    pub fn scaled(self, factor: i64) -> (r: Self)
        ensures
            r == self.scaled_spec(factor as int),
    {
        Self {
            dx: mul_div_clamped(self.dx, factor, SCALE),
            dy: mul_div_clamped(self.dy, factor, SCALE),
        }
    }

    pub open spec fn divided_spec(self, divisor: int) -> EuclideanVector {
        EuclideanVector {
            dx: clamped(tdiv(self.dx * SCALE, divisor)) as i64,
            dy: clamped(tdiv(self.dy * SCALE, divisor)) as i64,
        }
    }

    /// This vector divided by the non-zero fixed-point factor `divisor`.
    pub fn divided(self, divisor: i64) -> (r: Self)
        requires
            divisor != 0,
        ensures
            r == self.divided_spec(divisor as int),
            r.dx == clamped(tdiv(self.dx * SCALE, divisor as int)),
            r.dy == clamped(tdiv(self.dy * SCALE, divisor as int)),
    {
        Self {
            dx: mul_div_clamped(self.dx, SCALE, divisor),
            dy: mul_div_clamped(self.dy, SCALE, divisor),
        }
    }
}

/// The absolute value of an `i64`, exactly, in a `u128`.
fn abs_wide(x: i64) -> (r: u128)
    ensures
        r == absolute(x as int),
{
    if x < 0 {
        (-(x as i128)) as u128
    } else {
        x as u128
    }
}

/// The distance between two positions: the integer square root of the exact
/// squared distance, clamped into the span.
pub open spec fn distance(a: Coordinate, b: Coordinate) -> int {
    clamped(sqrt_floor((b.x - a.x) * (b.x - a.x) + (b.y - a.y) * (b.y - a.y)))
}

/// How one component of a versor relates to the division it truncates:
/// writing `a` for the component's absolute value and `au` for
/// `a * SCALE / m` rounded down, the truncated component squares to `au`
/// squared and `au` is pinned between the exact quotient's neighbours.
proof fn lemma_versor_component(x: i64, m: int)
    requires
        1 <= m,
    ensures
        ({
            let a = absolute(x as int);
            let q = tdiv(x as int * SCALE, m);
            let au = (a * SCALE) / m;
            &&& q * q == au * au
            &&& absolute(q) == au
            &&& 0 <= au
            &&& au * m <= a * SCALE
            &&& a * SCALE < au * m + m
        }),
{
    let s = SCALE as int;
    let xi = x as int;
    let a = absolute(xi);
    let q = tdiv(xi * s, m);
    let au = (a * s) / m;
    vstd::arithmetic::div_mod::lemma_div_pos_is_pos(a * s, m);
    vstd::arithmetic::div_mod::lemma_fundamental_div_mod(a * s, m);
    vstd::arithmetic::div_mod::lemma_mod_division_less_than_divisor(a * s, m);
    assert(au * m <= a * s && a * s < au * m + m) by (nonlinear_arith)
        requires
            a * s == m * au + (a * s) % m,
            0 <= (a * s) % m,
            (a * s) % m < m,
    ;
    if xi < 0 {
        assert(absolute(xi * s) == a * s);
        assert(q == -au);
    } else {
        assert(absolute(xi * s) == a * s);
        assert(q == au);
    }
    assert(q * q == au * au) by (nonlinear_arith)
        requires
            q == au || q == -au,
    ;
}

/// Normalising scales a vector's length to one unit: any vector of at
/// least one unit's length (whose components stay far enough from the edge
/// of the span that nothing is clamped) has a versor whose length is one
/// unit, within four milli-units.
///
/// The margin is needed: a vector shorter than one unit, such as one
/// milli-unit along each axis, normalises with a large rounding error.
#[verifier::rlimit(30)]
pub proof fn lemma_versor_magnitude(v: EuclideanVector)
    requires
        SCALE <= v.mag(),
        absolute(v.dx as int) <= 1_000_000_000_000_000,
        absolute(v.dy as int) <= 1_000_000_000_000_000,
    ensures
        SCALE - 3 <= v.versor_spec().mag() <= SCALE + 1,
{
    let s = SCALE as int;
    let dxi = v.dx as int;
    let dyi = v.dy as int;
    let a = absolute(dxi);
    let b = absolute(dyi);
    let n = v.norm2();
    assert(a * a == dxi * dxi && b * b == dyi * dyi && 0 <= n && n <= 2_000_000_000_000_000_000_000_000_000_000)
        by (nonlinear_arith)
        requires
            a == dxi || a == -dxi,
            b == dyi || b == -dyi,
            n == dxi * dxi + dyi * dyi,
            0 <= a <= 1_000_000_000_000_000,
            0 <= b <= 1_000_000_000_000_000,
    ;
    crate::fixed::lemma_sqrt_floor_bounds(n);
    let m = sqrt_floor(n);
    assert(m <= 1_500_000_000_000_000) by (nonlinear_arith)
        requires
            m * m <= n,
            n <= 2_000_000_000_000_000_000_000_000_000_000,
            0 <= m,
    ;
    assert(v.mag() == m);
    assert(s <= m);

    lemma_versor_component(v.dx, m);
    lemma_versor_component(v.dy, m);
    let q1 = tdiv(dxi * s, m);
    let q2 = tdiv(dyi * s, m);
    let au = (a * s) / m;
    let bu = (b * s) / m;

    // Neither component of the versor exceeds one unit, so none is clamped.
    assert(a <= m && b <= m) by (nonlinear_arith)
        requires
            a * a + b * b == n,
            n < (m + 1) * (m + 1),
            0 <= a,
            0 <= b,
            0 <= m,
    ;
    vstd::arithmetic::div_mod::lemma_div_is_ordered(a * s, m * s, m);
    vstd::arithmetic::div_mod::lemma_div_is_ordered(b * s, m * s, m);
    vstd::arithmetic::div_mod::lemma_div_multiples_vanish(s, m);
    assert((m * s) / m == s);
    assert(au <= s && bu <= s);
    let w = v.versor_spec();
    assert(w.dx == q1 && w.dy == q2);
    let uu = w.norm2();
    assert(uu == au * au + bu * bu);

    // Upper bound: the squared length of the versor is at most s*s + 3*s.
    assert(au * au * (m * m) <= (a * s) * (a * s)) by (nonlinear_arith)
        requires
            0 <= au,
            0 <= m,
            au * m <= a * s,
    ;
    assert(bu * bu * (m * m) <= (b * s) * (b * s)) by (nonlinear_arith)
        requires
            0 <= bu,
            0 <= m,
            bu * m <= b * s,
    ;
    assert((a * s) * (a * s) == (a * a) * (s * s) && (b * s) * (b * s) == (b * b) * (s * s))
        by (nonlinear_arith);
    assert(uu * (m * m) == au * au * (m * m) + bu * bu * (m * m)) by (nonlinear_arith)
        requires
            uu == au * au + bu * bu,
    ;
    assert(n * (s * s) == (a * a) * (s * s) + (b * b) * (s * s)) by (nonlinear_arith)
        requires
            n == a * a + b * b,
    ;
    assert(uu * (m * m) <= n * (s * s));
    assert(uu <= s * s + 3 * s) by (nonlinear_arith)
        requires
            uu * (m * m) <= n * (s * s),
            n < (m + 1) * (m + 1),
            s <= m,
            s == 1000,
            0 <= uu,
    ;

    // Lower bound: the squared length of the versor exceeds s*s - 4*s - 2.
    assert((a * s) * (a * s) < (au + 1) * (au + 1) * (m * m)) by (nonlinear_arith)
        requires
            0 <= a * s,
            a * s < au * m + m,
    ;
    assert((b * s) * (b * s) < (bu + 1) * (bu + 1) * (m * m)) by (nonlinear_arith)
        requires
            0 <= b * s,
            b * s < bu * m + m,
    ;
    assert((au + 1) * (au + 1) * (m * m) + (bu + 1) * (bu + 1) * (m * m) == (uu + 2 * au + 2
        * bu + 2) * (m * m)) by (nonlinear_arith)
        requires
            uu == au * au + bu * bu,
    ;
    assert(n * (s * s) < (uu + 2 * au + 2 * bu + 2) * (m * m));
    assert(s * s < uu + 2 * au + 2 * bu + 2) by (nonlinear_arith)
        requires
            m * m <= n,
            n * (s * s) < (uu + 2 * au + 2 * bu + 2) * (m * m),
            0 < m,
            0 < s,
    ;
    assert(uu >= s * s - 4 * s - 1);

    crate::fixed::lemma_sqrt_floor_bounds(uu);
    let r = sqrt_floor(uu);
    assert(r <= s + 1) by (nonlinear_arith)
        requires
            r * r <= uu,
            uu <= s * s + 3 * s,
            s == 1000,
            0 <= r,
    ;
    assert(r >= s - 3) by (nonlinear_arith)
        requires
            uu < (r + 1) * (r + 1),
            uu >= s * s - 4 * s - 1,
            s == 1000,
            0 <= r,
    ;
    assert(w.mag() == r);
}

/// A displacement and its reverse have the same components with opposite
/// signs: `between(a, b)` is `between(b, a)` reversed, for any two
/// positions.
pub proof fn lemma_between_antisymmetric(a: Coordinate, b: Coordinate)
    ensures
        EuclideanVector::between_spec(a, b) == EuclideanVector::between_spec(
            b,
            a,
        ).negated_spec(),
{
}

/// The length of the displacement between two positions is the distance
/// between them, whenever both lie within half the span (so that the
/// difference of the coordinates is not clamped).
pub proof fn lemma_between_magnitude(a: Coordinate, b: Coordinate)
    requires
        absolute(a.x as int) <= SPAN as int / 2,
        absolute(a.y as int) <= SPAN as int / 2,
        absolute(b.x as int) <= SPAN as int / 2,
        absolute(b.y as int) <= SPAN as int / 2,
    ensures
        EuclideanVector::between_spec(a, b).mag() == distance(a, b),
{
}

} // verus!
