//! A point mass: position, velocity, accumulated forces, and the pull it
//! exerts on other bodies under Newton's law of gravitation.

use vstd::prelude::*;

use crate::fixed::clamp64;
use crate::fixed::clamped;
use crate::fixed::cbrt_floor;
use crate::fixed::cbrt_small;
use crate::fixed::mul_div_clamped;
use crate::fixed::mul_mul_div_sq_clamped;
use crate::fixed::tdiv;
use crate::fixed::SCALE;
use crate::maths::Coordinate;
use crate::maths::EuclideanVector;

verus! {

/// Strength of gravity in this simulation, as a fixed-point factor
/// (ten units).  A tunable of the simulation, not a physical constant.
pub const GRAVITATIONAL_CONSTANT: i64 = 10_000;

/// Every body is a sphere of this uniform density, in units.
pub const DENSITY_UNITS: i64 = 3;

/// `3 / (4 * pi)`, the spherical volume-to-radius coefficient, in
/// millionths.
pub const SPHERE_COEF_MICRO: i64 = 238_732;

/// A point mass.
///
/// `forces` is rebuilt on every simulation tick: each other body of the
/// situation contributes one pull.  `highlighted` and `name` have no
/// effect on the physics; `radius` is derived from the mass for rendering.
pub struct Body {
    pub name: String,
    pub position: Coordinate,
    pub mass: i64,
    pub radius: i64,
    pub velocity: EuclideanVector,
    pub forces: Vec<EuclideanVector>,
    pub highlighted: bool,
}

/// The mathematical model of a [`Body`]: the same fields, with the force
/// list as a sequence and the name as a sequence of characters.
pub struct BodyView {
    pub name: Seq<char>,
    pub position: Coordinate,
    pub mass: i64,
    pub radius: i64,
    pub velocity: EuclideanVector,
    pub forces: Seq<EuclideanVector>,
    pub highlighted: bool,
}

impl View for Body {
    type V = BodyView;

    open spec fn view(&self) -> BodyView {
        BodyView {
            name: self.name@,
            position: self.position,
            mass: self.mass,
            radius: self.radius,
            velocity: self.velocity,
            forces: self.forces@,
            highlighted: self.highlighted,
        }
    }
}

/// The rendering radius of a body of mass `mass`: the cube root of
/// `3 / (4 * pi)` times the body's volume, where the volume is the mass
/// over the density.  A non-positive volume gives radius zero.
pub open spec fn radius_spec(mass: i64) -> int {
    let volume = clamped(tdiv(clamped(mass as int), DENSITY_UNITS as int));
    let inner = clamped(tdiv(volume * SPHERE_COEF_MICRO, 1_000_000));
    if inner <= 0 {
        0
    } else {
        cbrt_floor(inner * SCALE * SCALE)
    }
}

/// The acceleration a force imparts to a body of mass `mass` over one
/// tick: the force divided by the mass.
pub open spec fn accel_spec(f: EuclideanVector, mass: i64) -> EuclideanVector {
    EuclideanVector {
        dx: clamped(tdiv(f.dx * SCALE, mass as int)) as i64,
        dy: clamped(tdiv(f.dy * SCALE, mass as int)) as i64,
    }
}

/// The velocity of a body of mass `mass` that started at `v` after the
/// accelerations of the forces `fs` have been applied in order.
pub open spec fn vel_after(v: EuclideanVector, fs: Seq<EuclideanVector>, mass: i64) -> EuclideanVector
    decreases fs.len(),
{
    if fs.len() == 0 {
        v
    } else {
        let prev = vel_after(v, fs.drop_last(), mass);
        let acc = accel_spec(fs.last(), mass);
        EuclideanVector {
            dx: clamped(prev.dx + acc.dx) as i64,
            dy: clamped(prev.dy + acc.dy) as i64,
        }
    }
}

/// A body after one integration step: the position advances by the
/// velocity first, then every accumulated force accelerates the velocity.
pub open spec fn moved_view(b: BodyView) -> BodyView {
    BodyView {
        position: b.position.translated_spec(b.velocity),
        velocity: vel_after(b.velocity, b.forces, b.mass),
        ..b
    }
}

/// The gravitational pull `b` feels from `o`: directed from `b` toward
/// `o`, of strength `G * m_b * m_o / d^2`.  Two coincident bodies pull
/// not at all (the zero-distance guard).
pub open spec fn pull_spec(b: BodyView, o: BodyView) -> EuclideanVector {
    let joining = EuclideanVector::between_spec(b.position, o.position);
    let d = joining.mag();
    if d == 0 {
        EuclideanVector { dx: 0, dy: 0 }
    } else {
        let strength = clamped(
            tdiv(clamped(b.mass as int) * clamped(o.mass as int) * SCALE, d * d),
        );
        joining.versor_spec().scaled_spec(strength).scaled_spec(
            GRAVITATIONAL_CONSTANT as int,
        )
    }
}

impl Body {
    /// A nameless, massless body at rest at the origin.
    pub fn new() -> (r: Self)
        ensures
            r@.name == Seq::<char>::empty(),
            r.position == (Coordinate { x: 0, y: 0 }),
            r.mass == 0,
            r.radius == 0,
            r.velocity == (EuclideanVector { dx: 0, dy: 0 }),
            r@.forces == Seq::<EuclideanVector>::empty(),
            r.highlighted == false,
    {
        Self {
            name: String::new(),
            position: Coordinate { x: 0, y: 0 },
            mass: 0,
            radius: 0,
            velocity: EuclideanVector { dx: 0, dy: 0 },
            forces: Vec::<EuclideanVector>::new(),
            highlighted: false,
        }
    }

    /// This body placed at `arg`.
    pub fn at(self, arg: Coordinate) -> (r: Self)
        ensures
            r@ == (BodyView { position: arg, ..self@ }),
    {
        let mut body = self;
        body.position = arg;
        body
    }

    /// This body moving with velocity `arg`.
    pub fn moving(self, arg: EuclideanVector) -> (r: Self)
        ensures
            r@ == (BodyView { velocity: arg, ..self@ }),
    {
        let mut body = self;
        body.velocity = arg;
        body
    }

    /// This body named `arg`.
    pub fn named(self, arg: &str) -> (r: Self)
        ensures
            r@ == (BodyView { name: arg@, ..self@ }),
    {
        broadcast use vstd::string::to_string_from_display_ensures_for_str;

        let mut body = self;
        body.name = arg.to_string();
        body
    }

    /// This body given mass `arg`, with the rendering radius recomputed
    /// from it.
    pub fn with_mass(self, arg: i64) -> (r: Self)
        ensures
            r@ == (BodyView { mass: arg, radius: radius_spec(arg) as i64, ..self@ }),
            r.radius == radius_spec(arg),
    {
        let mut body = self;
        body.mass = arg;
        let volume = mul_div_clamped(clamp64(arg), 1, DENSITY_UNITS);
        let inner = mul_div_clamped(volume, SPHERE_COEF_MICRO, 1_000_000);
        body.radius = if inner <= 0 {
            0
        } else {
            cbrt_small((inner as u128) * 1_000_000)
        };
        body
    }

    /// One integration step: the position advances by the current
    /// velocity, then each accumulated force contributes its acceleration
    /// to the velocity.  The force list itself is left as it is.
    pub fn update(&mut self)
        requires
            old(self).forces.len() > 0 ==> old(self).mass != 0,
        ensures
            final(self)@ == moved_view(old(self)@),
    {
        self.position = self.position.translated(self.velocity);
        let mass = self.mass;
        let count = self.forces.len();
        let mut i: usize = 0;
        while i < count
            invariant
                count == self.forces.len(),
                count > 0 ==> mass != 0,
                mass == old(self).mass,
                self.mass == old(self).mass,
                i <= count,
                self.name == old(self).name,
                self.position == old(self).position.translated_spec(old(self).velocity),
                self.radius == old(self).radius,
                self.forces == old(self).forces,
                self.highlighted == old(self).highlighted,
                self.velocity == vel_after(
                    old(self).velocity,
                    old(self).forces@.take(i as int),
                    mass,
                ),
            decreases count - i,
        {
            let force = self.forces[i];
            let acc = force.divided(mass);
            self.velocity = self.velocity.plus(acc);
            proof {
                let fs = old(self).forces@;
                assert(fs.take(i + 1).drop_last() =~= fs.take(i as int));
                assert(fs.take(i + 1).last() == fs[i as int]);
            }
            i += 1;
        }
        proof {
            assert(old(self).forces@.take(count as int) =~= old(self).forces@);
            assert(self@ =~~= moved_view(old(self)@));
        }
    }

    /// The pull this body feels from `other`, by Newton's law of
    /// gravitation: strength `G * m * m' / d^2`, directed toward `other`.
    /// A body exactly on top of this one exerts no pull.
    pub fn pull_from(&self, other: &Self) -> (r: EuclideanVector)
        ensures
            r == pull_spec(self@, other@),
    {
        let joining = EuclideanVector::between(self.position, other.position);
        let d = joining.magnitude();
        if d == 0 {
            EuclideanVector { dx: 0, dy: 0 }
        } else {
            proof {
                if joining.dx == 0 && joining.dy == 0 {
                    assert(joining.norm2() == 0);
                    assert(crate::fixed::sqrt_floor(0) == 0);
                }
            }
            let strength = mul_mul_div_sq_clamped(
                clamp64(self.mass),
                clamp64(other.mass),
                d,
            );
            joining.versor().scaled(strength).scaled(GRAVITATIONAL_CONSTANT)
        }
    }

    /// Appends the pull from `other` to this body's accumulated forces.
    pub fn add_pull_from(&mut self, other: &Self)
        ensures
            final(self)@ == (BodyView {
                forces: old(self)@.forces.push(pull_spec(old(self)@, other@)),
                ..old(self)@
            }),
    {
        let pull = self.pull_from(other);
        self.forces.push(pull);
    }
}

/// The pull a body feels depends only on where it stands and on its mass,
/// never on the forces it has accumulated so far.
pub proof fn lemma_pull_same_site(b1: BodyView, b2: BodyView, o: BodyView)
    requires
        b1.position == b2.position,
        b1.mass == b2.mass,
    ensures
        pull_spec(b1, o) == pull_spec(b2, o),
{
}

/// Force-free motion is uniform: an integration step on a body with no
/// accumulated forces leaves its velocity exactly unchanged, whatever its
/// mass.
pub proof fn lemma_force_free_update(b: BodyView)
    requires
        b.forces.len() == 0,
    ensures
        moved_view(b).velocity == b.velocity,
{
}

} // verus!
