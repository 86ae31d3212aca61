//! Bodies, charges, and the Coulomb force law.
//!
//! A [`PointBody`] is a point mass with position, velocity, acceleration and
//! a list of forces pending since its last integration.  A [`Charge`] is a
//! body tagged with a signed charge value.  All components are fixed-point
//! ticks (see [`crate::num`]); the contracts describe every operation
//! exactly, saturation and truncating division included.

use crate::num::{
    clip, clip_i64, div_trunc, in_range, isqrt, lemma_clip_in_range, lemma_mul_abs_bound,
    lemma_sqrt_floor_bounds, lemma_sqrt_floor_pos, lemma_tdiv_mul_bound, sqrt_floor, tdiv,
    LIM, MASS_MAX, SCALE,
};
use vstd::arithmetic::mul::{lemma_mul_inequality, lemma_mul_is_distributive_add_other_way};
use vstd::prelude::*;

verus! {

#[derive(Clone, Copy, PartialEq, Eq, Structural, Debug)]
pub struct Position(pub i64, pub i64);

#[derive(Clone, Copy, PartialEq, Eq, Structural, Debug)]
pub struct Velocity(pub i64, pub i64);

#[derive(Clone, Copy, PartialEq, Eq, Structural, Debug)]
pub struct Acceleration(pub i64, pub i64);

#[derive(Clone, Copy, PartialEq, Eq, Structural, Debug)]
pub struct Force(pub i64, pub i64);

/// The mathematical image of a [`PointBody`]: unbounded integers and a
/// sequence of force pairs.
#[verifier::ext_equal]
pub ghost struct BodyModel {
    pub pos: (int, int),
    pub vel: (int, int),
    pub acc: (int, int),
    pub forces: Seq<(int, int)>,
    pub mass: int,
    pub id: int,
}

/// The mathematical image of a [`Charge`].
#[verifier::ext_equal]
pub ghost struct ChargeModel {
    pub body: BodyModel,
    pub charge: int,
}

/// A point mass.  `force_list` collects the forces applied since the last
/// integration; `integrate`-style updates consume it.
#[derive(Clone, PartialEq, Debug)]
pub struct PointBody {
    pub mass: i64,
    pub position: Position,
    pub velocity: Velocity,
    pub acceleration: Acceleration,
    pub force_list: Vec<Force>,
    pub id: i64,
}

/// A point mass carrying an electric charge.
#[derive(Clone, PartialEq, Debug)]
pub struct Charge {
    pub body: PointBody,
    pub charge: i64,
}

pub open spec fn force_model(f: Force) -> (int, int) {
    (f.0 as int, f.1 as int)
}

pub open spec fn forces_model(s: Seq<Force>) -> Seq<(int, int)> {
    s.map_values(|f: Force| force_model(f))
}

impl View for PointBody {
    type V = BodyModel;

    open spec fn view(&self) -> BodyModel {
        BodyModel {
            pos: (self.position.0 as int, self.position.1 as int),
            vel: (self.velocity.0 as int, self.velocity.1 as int),
            acc: (self.acceleration.0 as int, self.acceleration.1 as int),
            forces: forces_model(self.force_list@),
            mass: self.mass as int,
            id: self.id as int,
        }
    }
}

impl View for Charge {
    type V = ChargeModel;

    open spec fn view(&self) -> ChargeModel {
        ChargeModel { body: self.body@, charge: self.charge as int }
    }
}

pub open spec fn pair_in_range(p: (int, int)) -> bool {
    in_range(p.0) && in_range(p.1)
}

/// Well-formedness: every stored scalar sits in the band the constructors
/// establish, and the mass is positive.
pub open spec fn body_wf(b: BodyModel) -> bool {
    &&& pair_in_range(b.pos)
    &&& pair_in_range(b.vel)
    &&& pair_in_range(b.acc)
    &&& 1 <= b.mass && b.mass <= MASS_MAX as int
    &&& forall|i: int| 0 <= i < b.forces.len() ==> pair_in_range(#[trigger] b.forces[i])
}

pub open spec fn charge_wf(c: ChargeModel) -> bool {
    body_wf(c.body) && in_range(c.charge)
}

/// Masses below one tick are configuration errors; they are pinned to the
/// smallest positive mass rather than let into the integrator.
pub open spec fn clamp_mass(m: int) -> int {
    if m < 1 {
        1
    } else if m > MASS_MAX as int {
        MASS_MAX as int
    } else {
        m
    }
}

/// Acceleration gained from a list of forces: each force is divided by the
/// mass (components scaled back by `SCALE`), and the contributions are
/// summed.
pub open spec fn accel_from_forces(forces: Seq<(int, int)>, mass: int) -> (int, int)
    recommends
        mass >= 1,
    decreases forces.len(),
{
    if forces.len() == 0 {
        (0, 0)
    } else {
        let rest = accel_from_forces(forces.drop_last(), mass);
        let f = forces.last();
        (rest.0 + tdiv(f.0 * (SCALE as int), mass), rest.1 + tdiv(f.1 * (SCALE as int), mass))
    }
}

/// The acceleration is recomputed from scratch each tick; it is not
/// accumulated across ticks.
pub open spec fn spec_update_acceleration(b: BodyModel) -> BodyModel {
    let s = accel_from_forces(b.forces, b.mass);
    BodyModel { acc: (clip(s.0), clip(s.1)), ..b }
}

pub open spec fn spec_update_velocity(b: BodyModel, dt: int) -> BodyModel {
    BodyModel {
        vel: (
            clip(b.vel.0 + tdiv(b.acc.0 * dt, SCALE as int)),
            clip(b.vel.1 + tdiv(b.acc.1 * dt, SCALE as int)),
        ),
        ..b
    }
}

pub open spec fn spec_update_position(b: BodyModel, dt: int) -> BodyModel {
    BodyModel {
        pos: (
            clip(b.pos.0 + tdiv(b.vel.0 * dt, SCALE as int)),
            clip(b.pos.1 + tdiv(b.vel.1 * dt, SCALE as int)),
        ),
        ..b
    }
}

/// One semi-implicit Euler step: acceleration from the pending forces, then
/// velocity from the fresh acceleration, then position from the fresh
/// velocity, then the pending forces are cleared.
pub open spec fn spec_update_motion(b: BodyModel, dt: int) -> BodyModel {
    let b3 = spec_update_position(spec_update_velocity(spec_update_acceleration(b), dt), dt);
    BodyModel { forces: Seq::empty(), ..b3 }
}

/// The displacement from `b` to `a`, the direction in which `a` is pushed
/// when the two repel.
pub open spec fn away_vector(a: ChargeModel, b: ChargeModel) -> (int, int) {
    (a.body.pos.0 - b.body.pos.0, a.body.pos.1 - b.body.pos.1)
}

pub open spec fn dist_squared(a: ChargeModel, b: ChargeModel) -> int {
    let u = away_vector(a, b);
    u.0 * u.0 + u.1 * u.1
}

/// The signed magnitude of the Coulomb force `b` exerts on `a`:
/// `k * q_a * q_b / d^2`, under truncating division.  Positive means
/// repulsion (like charges), negative attraction.  Coincident charges are
/// the degenerate case and yield no force at all.
pub open spec fn spec_force_magnitude(a: ChargeModel, b: ChargeModel, k: int) -> int {
    if dist_squared(a, b) == 0 {
        0
    } else {
        tdiv(k * a.charge * b.charge, dist_squared(a, b))
    }
}

/// The Coulomb force `b` exerts on `a`, as a component pair: the magnitude
/// spread along the line joining the two bodies (unit direction
/// `(u.0 / d, u.1 / d)` taken under truncating division), saturated into the
/// stored band.
pub open spec fn spec_electric_force(a: ChargeModel, b: ChargeModel, k: int) -> (int, int) {
    let u = away_vector(a, b);
    let r2 = dist_squared(a, b);
    if r2 == 0 {
        (0, 0)
    } else {
        let mag = tdiv(k * a.charge * b.charge, r2);
        let d = sqrt_floor(r2);
        (clip(tdiv(mag * u.0, d)), clip(tdiv(mag * u.1, d)))
    }
}

impl Acceleration {
    pub fn clear(&mut self)
        ensures
            final(self).0 == 0 && final(self).1 == 0,
    {
        self.0 = 0;
        self.1 = 0;
    }
}

impl Default for PointBody {
    /// A fresh body of one unit of mass, at rest at the origin.
    fn default() -> (r: Self)
        ensures
            r@.pos == (0int, 0int),
            r@.vel == (0int, 0int),
            r@.acc == (0int, 0int),
            r@.forces == Seq::<(int, int)>::empty(),
            r@.mass == SCALE as int,
            r@.id == 0,
            body_wf(r@),
    {
        let b = PointBody {
            mass: SCALE,
            position: Position(0, 0),
            velocity: Velocity(0, 0),
            acceleration: Acceleration(0, 0),
            force_list: Vec::new(),
            id: 0,
        };
        proof {
            assert(b@.forces =~= Seq::<(int, int)>::empty());
        }
        b
    }
}

impl PointBody {
    /// A fresh body at rest at the origin.  A non-positive or oversized mass
    /// is a configuration error and is clamped into the valid band.
    pub fn new_from_mass(mass: i64) -> (r: Self)
        ensures
            r@.pos == (0int, 0int),
            r@.vel == (0int, 0int),
            r@.acc == (0int, 0int),
            r@.forces == Seq::<(int, int)>::empty(),
            r@.mass == clamp_mass(mass as int),
            r@.id == 0,
            body_wf(r@),
    {
        let m: i64 = if mass < 1 {
            1
        } else if mass > MASS_MAX {
            MASS_MAX
        } else {
            mass
        };
        let b = PointBody {
            mass: m,
            position: Position(0, 0),
            velocity: Velocity(0, 0),
            acceleration: Acceleration(0, 0),
            force_list: Vec::new(),
            id: 0,
        };
        proof {
            assert(b@.forces =~= Seq::<(int, int)>::empty());
        }
        b
    }

    /// Append a force to the pending list.  Components are saturated into
    /// the stored band on the way in, so an ill-formed force cannot poison
    /// the integrator.
    pub fn apply_force(&mut self, force: Force)
        ensures
            final(self)@ == (BodyModel {
                forces: old(self)@.forces.push((clip(force.0 as int), clip(force.1 as int))),
                ..old(self)@
            }),
            body_wf(old(self)@) ==> body_wf(final(self)@),
    {
        let f = Force(clip_i64(force.0 as i128), clip_i64(force.1 as i128));
        self.force_list.push(f);
        proof {
            assert(self@.forces =~= old(self)@.forces.push(
                (clip(force.0 as int), clip(force.1 as int)),
            ));
            assert(self@ =~= (BodyModel {
                forces: old(self)@.forces.push((clip(force.0 as int), clip(force.1 as int))),
                ..old(self)@
            }));
            if body_wf(old(self)@) {
                assert forall|i: int| 0 <= i < self@.forces.len() implies pair_in_range(
                    #[trigger] self@.forces[i],
                ) by {
                    if i < old(self)@.forces.len() {
                        assert(pair_in_range(old(self)@.forces[i]));
                    } else {
                        lemma_clip_in_range(force.0 as int);
                        lemma_clip_in_range(force.1 as int);
                    }
                }
            }
        }
    }

    /// Replace the acceleration by the one the pending forces produce.
    pub fn update_acceleration(&mut self)
        requires
            body_wf(old(self)@),
        ensures
            final(self)@ == spec_update_acceleration(old(self)@),
            body_wf(final(self)@),
    {
        proof {
            assert(body_wf(self@));
        }
        let s = accel_of(&self.force_list, self.mass);
        self.acceleration = Acceleration(s.0, s.1);
        proof {
            assert(self@.forces =~= old(self)@.forces);
            assert(self@ =~= spec_update_acceleration(old(self)@));
            lemma_clip_in_range(accel_from_forces(old(self)@.forces, old(self)@.mass).0);
            lemma_clip_in_range(accel_from_forces(old(self)@.forces, old(self)@.mass).1);
        }
    }

    /// Advance the velocity by the current acceleration over `dt`.
    pub fn update_velocity(&mut self, dt: i64)
        requires
            body_wf(old(self)@),
            -LIM <= dt && dt <= LIM,
        ensures
            final(self)@ == spec_update_velocity(old(self)@, dt as int),
            body_wf(final(self)@),
    {
        let vx = advance(self.velocity.0, self.acceleration.0, dt);
        let vy = advance(self.velocity.1, self.acceleration.1, dt);
        self.velocity = Velocity(vx, vy);
        proof {
            assert(self@.forces =~= old(self)@.forces);
            assert(self@ =~= spec_update_velocity(old(self)@, dt as int));
            lemma_clip_in_range(
                old(self)@.vel.0 + tdiv(old(self)@.acc.0 * dt as int, SCALE as int),
            );
            lemma_clip_in_range(
                old(self)@.vel.1 + tdiv(old(self)@.acc.1 * dt as int, SCALE as int),
            );
        }
    }

    /// Advance the position by the current velocity over `dt`.
    pub fn update_position(&mut self, dt: i64)
        requires
            body_wf(old(self)@),
            -LIM <= dt && dt <= LIM,
        ensures
            final(self)@ == spec_update_position(old(self)@, dt as int),
            body_wf(final(self)@),
    {
        let px = advance(self.position.0, self.velocity.0, dt);
        let py = advance(self.position.1, self.velocity.1, dt);
        self.position = Position(px, py);
        proof {
            assert(self@.forces =~= old(self)@.forces);
            assert(self@ =~= spec_update_position(old(self)@, dt as int));
            lemma_clip_in_range(
                old(self)@.pos.0 + tdiv(old(self)@.vel.0 * dt as int, SCALE as int),
            );
            lemma_clip_in_range(
                old(self)@.pos.1 + tdiv(old(self)@.vel.1 * dt as int, SCALE as int),
            );
        }
    }

    /// One full integration step: acceleration, then velocity, then position
    /// (semi-implicit Euler — the position update uses the velocity just
    /// updated), and the pending forces are cleared.
    pub fn update_motion(&mut self, dt: i64)
        requires
            body_wf(old(self)@),
            -LIM <= dt && dt <= LIM,
        ensures
            final(self)@ == spec_update_motion(old(self)@, dt as int),
            body_wf(final(self)@),
    {
        self.update_acceleration();
        self.update_velocity(dt);
        self.update_position(dt);
        self.force_list = Vec::new();
        proof {
            assert(self@.forces =~= Seq::<(int, int)>::empty());
            assert(self@ =~= spec_update_motion(old(self)@, dt as int));
        }
    }

    /// Euclidean distance to another body, in ticks, rounded down.
    pub fn distance(&self, other: &PointBody) -> (r: i64)
        requires
            body_wf(self@),
            body_wf(other@),
        ensures
            r as int == sqrt_floor(
                (other@.pos.0 - self@.pos.0) * (other@.pos.0 - self@.pos.0) + (other@.pos.1
                    - self@.pos.1) * (other@.pos.1 - self@.pos.1),
            ),
            r >= 0,
    {
        let dx = other.position.0 as i128 - self.position.0 as i128;
        let dy = other.position.1 as i128 - self.position.1 as i128;
        proof {
            lemma_mul_abs_bound(dx as int, dx as int, 2 * LIM as int, 2 * LIM as int);
            lemma_mul_abs_bound(dy as int, dy as int, 2 * LIM as int, 2 * LIM as int);
            assert(dx * dx >= 0) by (nonlinear_arith);
            assert(dy * dy >= 0) by (nonlinear_arith);
        }
        let r2 = dx * dx + dy * dy;
        let d = isqrt(r2 as u128);
        proof {
            lemma_sqrt_floor_bounds(r2 as int);
            assert(sqrt_floor(r2 as int) <= 3_000_000_000_000) by {
                if sqrt_floor(r2 as int) > 3_000_000_000_000 {
                    assert(sqrt_floor(r2 as int) * sqrt_floor(r2 as int)
                        > 3_000_000_000_000 * 3_000_000_000_000) by (nonlinear_arith)
                        requires
                            sqrt_floor(r2 as int) > 3_000_000_000_000,
                    ;
                }
            }
        }
        d as i64
    }
}

impl Default for Charge {
    /// A chargeless default particle on a default body.
    fn default() -> (r: Self)
        ensures
            r@.body.pos == (0int, 0int),
            r@.body.vel == (0int, 0int),
            r@.body.acc == (0int, 0int),
            r@.body.forces == Seq::<(int, int)>::empty(),
            r@.body.mass == SCALE as int,
            r@.body.id == 0,
            r@.charge == 0,
            charge_wf(r@),
    {
        Charge { body: PointBody::default(), charge: 0 }
    }
}

impl Charge {
    /// A charge at the origin.  The charge value is saturated into the
    /// stored band; the mass is clamped as in [`PointBody::new_from_mass`].
    pub fn new(charge: i64, mass: i64) -> (r: Self)
        ensures
            r@.body.pos == (0int, 0int),
            r@.body.vel == (0int, 0int),
            r@.body.acc == (0int, 0int),
            r@.body.forces == Seq::<(int, int)>::empty(),
            r@.body.mass == clamp_mass(mass as int),
            r@.body.id == 0,
            r@.charge == clip(charge as int),
            charge_wf(r@),
    {
        let c = Charge { body: PointBody::new_from_mass(mass), charge: clip_i64(charge as i128) };
        proof {
            lemma_clip_in_range(charge as int);
        }
        c
    }

    /// A charge at a given position; the position components are saturated
    /// into the stored band.
    pub fn new_from_position(charge: i64, mass: i64, position: Position) -> (r: Self)
        ensures
            r@.body.pos == (clip(position.0 as int), clip(position.1 as int)),
            r@.body.vel == (0int, 0int),
            r@.body.acc == (0int, 0int),
            r@.body.forces == Seq::<(int, int)>::empty(),
            r@.body.mass == clamp_mass(mass as int),
            r@.body.id == 0,
            r@.charge == clip(charge as int),
            charge_wf(r@),
    {
        let mut c = Charge::new(charge, mass);
        c.body.position = Position(clip_i64(position.0 as i128), clip_i64(position.1 as i128));
        proof {
            lemma_clip_in_range(position.0 as int);
            lemma_clip_in_range(position.1 as int);
            assert(c@.body.forces =~= Seq::<(int, int)>::empty());
        }
        c
    }

    /// The Coulomb force that `other` exerts on `self`, for the force
    /// constant `k`: magnitude `k * q_self * q_other / d^2`, directed along
    /// the line joining the bodies, away from `other` when the product of
    /// the charges is positive (like charges repel) and toward it when the
    /// product is negative.
    pub fn electric_force(&self, other: &Charge, k: i64) -> (r: Force)
        requires
            charge_wf(self@),
            charge_wf(other@),
            -LIM <= k && k <= LIM,
        ensures
            force_model(r) == spec_electric_force(self@, other@, k as int),
    {
        let ux = self.body.position.0 as i128 - other.body.position.0 as i128;
        let uy = self.body.position.1 as i128 - other.body.position.1 as i128;
        proof {
            lemma_mul_abs_bound(ux as int, ux as int, 2 * LIM as int, 2 * LIM as int);
            lemma_mul_abs_bound(uy as int, uy as int, 2 * LIM as int, 2 * LIM as int);
            assert(ux * ux >= 0) by (nonlinear_arith);
            assert(uy * uy >= 0) by (nonlinear_arith);
        }
        let r2 = ux * ux + uy * uy;
        if r2 == 0 {
            return Force(0, 0);
        }
        proof {
            lemma_mul_abs_bound(k as int, self.charge as int, LIM as int, LIM as int);
            lemma_mul_abs_bound(
                k as int * self.charge as int,
                other.charge as int,
                LIM as int * LIM as int,
                LIM as int,
            );
        }
        let p = k as i128 * self.charge as i128 * other.charge as i128;
        let mag = div_trunc(p, r2);
        let d = isqrt(r2 as u128);
        proof {
            lemma_sqrt_floor_bounds(r2 as int);
            assert(r2 as int >= 1);
            lemma_sqrt_floor_pos(r2 as int);
            assert(sqrt_floor(r2 as int) <= 3_000_000_000_000) by {
                if sqrt_floor(r2 as int) > 3_000_000_000_000 {
                    assert(sqrt_floor(r2 as int) * sqrt_floor(r2 as int)
                        > 3_000_000_000_000 * 3_000_000_000_000) by (nonlinear_arith)
                        requires
                            sqrt_floor(r2 as int) > 3_000_000_000_000,
                    ;
                }
            }
            lemma_tdiv_mul_bound(p as int, r2 as int, ux as int);
            lemma_tdiv_mul_bound(p as int, r2 as int, uy as int);
        }
        let di = d as i128;
        let fx = div_trunc(mag * ux, di);
        let fy = div_trunc(mag * uy, di);
        Force(clip_i64(fx), clip_i64(fy))
    }
}

/// Acceleration produced by a force list on a mass: the running 128-bit sum
/// of the per-force contributions, saturated into the stored band at the
/// end.
fn accel_of(forces: &Vec<Force>, mass: i64) -> (r: (i64, i64))
    requires
        1 <= mass,
        forall|i: int| 0 <= i < forces@.len() ==> pair_in_range(#[trigger] forces_model(forces@)[i]),
    ensures
        ({
            let s = accel_from_forces(forces_model(forces@), mass as int);
            r.0 as int == clip(s.0) && r.1 as int == clip(s.1)
        }),
{
    let ghost fs = forces_model(forces@);
    let mut ax: i128 = 0;
    let mut ay: i128 = 0;
    let mut t: usize = 0;
    let n = forces.len();
    while t < n
        invariant
            n == forces@.len(),
            t <= n,
            1 <= mass,
            fs == forces_model(forces@),
            forall|i: int|
                0 <= i < forces@.len() ==> pair_in_range(#[trigger] forces_model(forces@)[i]),
            (ax as int, ay as int) == accel_from_forces(fs.take(t as int), mass as int),
            -(t as int) * (1_000_000_000_000_000_000 as int) <= ax as int,
            ax as int <= (t as int) * (1_000_000_000_000_000_000 as int),
            -(t as int) * (1_000_000_000_000_000_000 as int) <= ay as int,
            ay as int <= (t as int) * (1_000_000_000_000_000_000 as int),
        decreases n - t,
    {
        let f = forces[t];
        proof {
            assert(pair_in_range(forces_model(forces@)[t as int]));
            assert(forces_model(forces@)[t as int] == force_model(forces@[t as int]));
            lemma_mul_abs_bound(f.0 as int, SCALE as int, LIM as int, SCALE as int);
            lemma_mul_abs_bound(f.1 as int, SCALE as int, LIM as int, SCALE as int);
        }
        let cx = div_trunc(f.0 as i128 * SCALE as i128, mass as i128);
        let cy = div_trunc(f.1 as i128 * SCALE as i128, mass as i128);
        proof {
            let step = 1_000_000_000_000_000_000 as int;
            assert((t as int) + 1 <= 0xFFFF_FFFF_FFFF_FFFF as int);
            lemma_mul_inequality((t as int) + 1, 0xFFFF_FFFF_FFFF_FFFF as int, step);
            lemma_mul_is_distributive_add_other_way(step, t as int, 1);
            assert(fs.take(t as int + 1).drop_last() =~= fs.take(t as int));
            assert(fs.take(t as int + 1).last() == fs[t as int]);
            assert(fs[t as int] == force_model(forces@[t as int]));
        }
        ax = ax + cx;
        ay = ay + cy;
        t = t + 1;
    }
    proof {
        assert(fs.take(n as int) =~= fs);
    }
    (clip_i64(ax), clip_i64(ay))
}

/// One component of a motion update: `base + rate * dt / SCALE`, saturated.
fn advance(base: i64, rate: i64, dt: i64) -> (r: i64)
    requires
        -LIM <= base && base <= LIM,
        -LIM <= rate && rate <= LIM,
        -LIM <= dt && dt <= LIM,
    ensures
        r as int == clip(base as int + tdiv(rate as int * dt as int, SCALE as int)),
{
    proof {
        lemma_mul_abs_bound(rate as int, dt as int, LIM as int, LIM as int);
    }
    let step = div_trunc(rate as i128 * dt as i128, SCALE as i128);
    clip_i64(base as i128 + step)
}

} // verus!
