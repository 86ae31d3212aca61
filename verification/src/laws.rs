//! Laws of the engine, proved over the step's mathematical model.
//!
//! Each proof function states one law of the simulation exactly as the
//! fixed-point arithmetic carries it: saturation and truncating division
//! are part of the statement, not glossed over.

use crate::num::{
    clip, in_range, lemma_clip_in_range, lemma_clip_odd, lemma_sqrt_floor_pos, lemma_tdiv_bounds,
    lemma_tdiv_denominator, lemma_tdiv_neg, sqrt_floor, tdiv, SCALE,
};
use crate::physics::{
    accel_from_forces, away_vector, charge_wf, dist_squared, spec_electric_force,
    spec_force_magnitude, spec_update_acceleration, spec_update_position, spec_update_velocity,
    BodyModel, ChargeModel,
};
use crate::solver::{
    lemma_spec_solve_wf, pair_forces, pair_forces_upto, spec_solve, spec_step_charge,
};
use vstd::arithmetic::mul::{
    lemma_mul_cancels_negatives, lemma_mul_is_associative, lemma_mul_is_commutative,
    lemma_mul_nonnegative, lemma_mul_strictly_positive, lemma_mul_unary_negation,
};
use vstd::prelude::*;

verus! {

/// For any two charges the two directed Coulomb forces are equal in
/// magnitude and opposite in direction, exactly: the shared magnitude is
/// computed from the same symmetric product, and truncation and saturation
/// are both odd.
pub proof fn lemma_force_symmetry(a: ChargeModel, b: ChargeModel, k: int)
    ensures
        spec_electric_force(b, a, k).0 == -spec_electric_force(a, b, k).0,
        spec_electric_force(b, a, k).1 == -spec_electric_force(a, b, k).1,
        spec_force_magnitude(b, a, k) == spec_force_magnitude(a, b, k),
{
    let u = away_vector(a, b);
    let v = away_vector(b, a);
    assert(v.0 == -u.0 && v.1 == -u.1);
    assert(v.0 * v.0 == u.0 * u.0) by (nonlinear_arith)
        requires
            v.0 == -u.0,
    ;
    assert(v.1 * v.1 == u.1 * u.1) by (nonlinear_arith)
        requires
            v.1 == -u.1,
    ;
    assert(dist_squared(b, a) == dist_squared(a, b));
    let r2 = dist_squared(a, b);
    if r2 != 0 {
        assert(u.0 * u.0 >= 0) by (nonlinear_arith);
        assert(u.1 * u.1 >= 0) by (nonlinear_arith);
        lemma_sqrt_floor_pos(r2);
        assert(k * b.charge * a.charge == k * a.charge * b.charge) by (nonlinear_arith);
        let mag = tdiv(k * a.charge * b.charge, r2);
        let d = sqrt_floor(r2);
        assert(mag * v.0 == -(mag * u.0)) by (nonlinear_arith)
            requires
                v.0 == -u.0,
        ;
        assert(mag * v.1 == -(mag * u.1)) by (nonlinear_arith)
            requires
                v.1 == -u.1,
        ;
        lemma_tdiv_neg(mag * u.0, d);
        lemma_tdiv_neg(mag * u.1, d);
        lemma_clip_odd(tdiv(mag * u.0, d));
        lemma_clip_odd(tdiv(mag * u.1, d));
    }
}

/// Sign helper: a force component built from a magnitude `mag` and a
/// direction component `u` keeps `u`'s orientation when `mag` is positive
/// and flips it when `mag` is negative (it may round to zero either way).
proof fn lemma_mul_neg_right(x: int, y: int)
    ensures
        x * (-y) == -(x * y),
{
    lemma_mul_is_commutative(x, -y);
    lemma_mul_unary_negation(y, x);
    lemma_mul_is_commutative(y, x);
}

/// Sign helper: a force component built from a magnitude `mag` and a
/// direction component `u` keeps `u`'s orientation when `mag` is positive
/// and flips it when `mag` is negative (it may round to zero either way).
proof fn lemma_aligned_component(mag: int, u: int, d: int)
    requires
        d >= 1,
    ensures
        mag >= 0 ==> clip(tdiv(mag * u, d)) * u >= 0,
        mag <= 0 ==> clip(tdiv(mag * u, d)) * u <= 0,
{
    let w = mag * u;
    lemma_tdiv_bounds(w, d);
    let q = clip(tdiv(w, d));
    if u >= 0 {
        if mag >= 0 {
            lemma_mul_nonnegative(mag, u);
            lemma_mul_nonnegative(q, u);
        }
        if mag <= 0 {
            lemma_mul_nonnegative(-mag, u);
            lemma_mul_unary_negation(mag, u);
            lemma_mul_nonnegative(-q, u);
            lemma_mul_unary_negation(q, u);
        }
    } else {
        if mag >= 0 {
            lemma_mul_nonnegative(mag, -u);
            lemma_mul_neg_right(mag, u);
            lemma_mul_nonnegative(-q, -u);
            lemma_mul_cancels_negatives(q, u);
        }
        if mag <= 0 {
            lemma_mul_nonnegative(-mag, -u);
            lemma_mul_cancels_negatives(mag, u);
            lemma_mul_nonnegative(q, -u);
            lemma_mul_neg_right(q, u);
        }
    }
}

/// Like charges repel and opposite charges attract.  With a positive force
/// constant, the force on `a` from `b` has a nonnegative component along
/// the direction away from `b` whenever the charge product is positive, and
/// a nonpositive one whenever it is negative; the signed magnitude carries
/// the same sign as the charge product.
pub proof fn lemma_sign_convention(a: ChargeModel, b: ChargeModel, k: int)
    requires
        k > 0,
    ensures
        a.charge * b.charge > 0 ==> spec_force_magnitude(a, b, k) >= 0 && spec_electric_force(
            a,
            b,
            k,
        ).0 * away_vector(a, b).0 >= 0 && spec_electric_force(a, b, k).1 * away_vector(a, b).1
            >= 0 && spec_electric_force(a, b, k).0 * away_vector(a, b).0 + spec_electric_force(
            a,
            b,
            k,
        ).1 * away_vector(a, b).1 >= 0,
        a.charge * b.charge < 0 ==> spec_force_magnitude(a, b, k) <= 0 && spec_electric_force(
            a,
            b,
            k,
        ).0 * away_vector(a, b).0 <= 0 && spec_electric_force(a, b, k).1 * away_vector(a, b).1
            <= 0 && spec_electric_force(a, b, k).0 * away_vector(a, b).0 + spec_electric_force(
            a,
            b,
            k,
        ).1 * away_vector(a, b).1 <= 0,
{
    let u = away_vector(a, b);
    let r2 = dist_squared(a, b);
    if r2 != 0 {
        assert(u.0 * u.0 >= 0) by (nonlinear_arith);
        assert(u.1 * u.1 >= 0) by (nonlinear_arith);
        lemma_sqrt_floor_pos(r2);
        let d = sqrt_floor(r2);
        let p = k * a.charge * b.charge;
        lemma_tdiv_bounds(p, r2);
        let mag = tdiv(p, r2);
        lemma_mul_is_associative(k, a.charge, b.charge);
        if a.charge * b.charge > 0 {
            lemma_mul_strictly_positive(k, a.charge * b.charge);
            assert(p > 0);
        }
        if a.charge * b.charge < 0 {
            lemma_mul_strictly_positive(k, -(a.charge * b.charge));
            lemma_mul_neg_right(k, a.charge * b.charge);
            assert(p < 0);
        }
        lemma_aligned_component(mag, u.0, d);
        lemma_aligned_component(mag, u.1, d);
    } else {
        assert(spec_electric_force(a, b, k).0 * u.0 == 0) by (nonlinear_arith)
            requires
                spec_electric_force(a, b, k).0 == 0,
        ;
        assert(spec_electric_force(a, b, k).1 * u.1 == 0) by (nonlinear_arith)
            requires
                spec_electric_force(a, b, k).1 == 0,
        ;
    }
}

/// The inverse-square law, exactly as the truncating arithmetic carries it:
/// with the charge values held fixed and the separation doubled, the signed
/// force magnitude becomes the quarter (rounded toward zero) of the
/// original.
pub proof fn lemma_inverse_square(
    a: ChargeModel,
    b: ChargeModel,
    a2: ChargeModel,
    b2: ChargeModel,
    k: int,
)
    requires
        a2.charge == a.charge,
        b2.charge == b.charge,
        dist_squared(a, b) != 0,
        away_vector(a2, b2).0 == 2 * away_vector(a, b).0,
        away_vector(a2, b2).1 == 2 * away_vector(a, b).1,
    ensures
        spec_force_magnitude(a2, b2, k) == tdiv(spec_force_magnitude(a, b, k), 4),
{
    let u = away_vector(a, b);
    let v = away_vector(a2, b2);
    let r2 = dist_squared(a, b);
    assert(u.0 * u.0 >= 0) by (nonlinear_arith);
    assert(u.1 * u.1 >= 0) by (nonlinear_arith);
    assert(r2 >= 1);
    assert(v.0 * v.0 + v.1 * v.1 == 4 * (u.0 * u.0 + u.1 * u.1)) by (nonlinear_arith)
        requires
            v.0 == 2 * u.0,
            v.1 == 2 * u.1,
    ;
    assert(dist_squared(a2, b2) == 4 * r2);
    let p = k * a.charge * b.charge;
    lemma_tdiv_denominator(p, r2, 4);
}

/// A step of an empty collection is a no-op: there is no pair to process
/// and no body to integrate.
pub proof fn lemma_empty_step_noop(cs: Seq<ChargeModel>, dt: int, k: int)
    requires
        cs.len() == 0,
    ensures
        spec_solve(cs, dt, k) == cs,
{
    assert(spec_solve(cs, dt, k) =~= cs);
}

/// A lone charge feels no force: a step recomputes its acceleration to
/// zero, leaves its velocity unchanged, and moves its position only by the
/// velocity it already had.
pub proof fn lemma_single_charge_invariance(cs: Seq<ChargeModel>, dt: int, k: int)
    requires
        cs.len() == 1,
        cs[0].body.forces.len() == 0,
        charge_wf(cs[0]),
    ensures
        spec_solve(cs, dt, k).len() == 1,
        spec_solve(cs, dt, k)[0].body.vel == cs[0].body.vel,
        spec_solve(cs, dt, k)[0].body.acc == (0int, 0int),
        spec_solve(cs, dt, k)[0].charge == cs[0].charge,
        cs[0].body.vel == (0int, 0int) ==> spec_solve(cs, dt, k)[0].body.pos == cs[0].body.pos,
{
    let c = cs[0];
    assert(pair_forces_upto(cs, 0, k, 0) =~= Seq::<(int, int)>::empty());
    assert(pair_forces_upto(cs, 0, k, 1) =~= Seq::<(int, int)>::empty());
    assert(pair_forces(cs, 0, k) =~= Seq::<(int, int)>::empty());
    let b0 = BodyModel { forces: c.body.forces + pair_forces(cs, 0, k), ..c.body };
    assert(b0.forces =~= Seq::<(int, int)>::empty());
    assert(accel_from_forces(b0.forces, b0.mass) == (0int, 0int));
    let b1 = spec_update_acceleration(b0);
    assert(b1.acc == (0int, 0int));
    assert(b1.acc.0 * dt == 0 && b1.acc.1 * dt == 0) by (nonlinear_arith)
        requires
            b1.acc.0 == 0,
            b1.acc.1 == 0,
    ;
    lemma_tdiv_bounds(0, SCALE as int);
    let b2 = spec_update_velocity(b1, dt);
    lemma_clip_in_range(c.body.vel.0);
    lemma_clip_in_range(c.body.vel.1);
    assert(b2.vel == c.body.vel);
    let b3 = spec_update_position(b2, dt);
    if c.body.vel == (0int, 0int) {
        assert(b2.vel.0 * dt == 0 && b2.vel.1 * dt == 0) by (nonlinear_arith)
            requires
                b2.vel.0 == 0,
                b2.vel.1 == 0,
        ;
        lemma_clip_in_range(c.body.pos.0);
        lemma_clip_in_range(c.body.pos.1);
        assert(b3.pos == c.body.pos);
    }
    assert(spec_solve(cs, dt, k)[0] == spec_step_charge(cs, 0, dt, k));
}

/// Total momentum of a collection: the sum of mass times velocity.
pub open spec fn momentum(cs: Seq<ChargeModel>) -> (int, int)
    decreases cs.len(),
{
    if cs.len() == 0 {
        (0, 0)
    } else {
        let rest = momentum(cs.drop_last());
        let c = cs.last();
        (rest.0 + c.body.mass * c.body.vel.0, rest.1 + c.body.mass * c.body.vel.1)
    }
}

/// A closed two-body system: exactly two well-formed charges of equal mass
/// with no externally applied pending forces.
pub open spec fn closed_two_body(cs: Seq<ChargeModel>) -> bool {
    &&& cs.len() == 2
    &&& cs[0].body.mass == cs[1].body.mass
    &&& cs[0].body.forces.len() == 0
    &&& cs[1].body.forces.len() == 0
    &&& charge_wf(cs[0])
    &&& charge_wf(cs[1])
}

/// The step's velocity update for charge `i` stays inside the stored band,
/// so no saturation disturbs it.
pub open spec fn vel_update_in_band(cs: Seq<ChargeModel>, dt: int, k: int, i: int) -> bool {
    let c = cs[i].body;
    let b1 = spec_update_acceleration(
        (BodyModel { forces: c.forces + pair_forces(cs, i, k), ..c }),
    );
    in_range(b1.vel.0 + tdiv(b1.acc.0 * dt, SCALE as int)) && in_range(
        b1.vel.1 + tdiv(b1.acc.1 * dt, SCALE as int),
    )
}

pub open spec fn vel_updates_in_band(cs: Seq<ChargeModel>, dt: int, k: int) -> bool {
    forall|i: int| 0 <= i < cs.len() ==> vel_update_in_band(cs, dt, k, i)
}

proof fn lemma_momentum_two(cs: Seq<ChargeModel>)
    requires
        cs.len() == 2,
    ensures
        momentum(cs) == (
            cs[0].body.mass * cs[0].body.vel.0 + cs[1].body.mass * cs[1].body.vel.0,
            cs[0].body.mass * cs[0].body.vel.1 + cs[1].body.mass * cs[1].body.vel.1,
        ),
{
    let d1 = cs.drop_last();
    assert(d1.len() == 1);
    assert(d1.drop_last().len() == 0);
    assert(momentum(d1.drop_last()) == (0int, 0int));
    assert(d1.last() == cs[0]);
    assert(cs.last() == cs[1]);
    assert(momentum(d1) == (
        0 + cs[0].body.mass * cs[0].body.vel.0,
        0 + cs[0].body.mass * cs[0].body.vel.1,
    ));
    assert(momentum(cs) == (
        momentum(d1).0 + cs[1].body.mass * cs[1].body.vel.0,
        momentum(d1).1 + cs[1].body.mass * cs[1].body.vel.1,
    ));
}

/// One step of a closed equal-mass two-body system conserves the total
/// momentum exactly: the pair's forces are equal and opposite, so with the
/// same mass in both denominators the rounded velocity increments cancel.
pub proof fn lemma_momentum_step(cs: Seq<ChargeModel>, dt: int, k: int)
    requires
        closed_two_body(cs),
        vel_updates_in_band(cs, dt, k),
    ensures
        momentum(spec_solve(cs, dt, k)) == momentum(cs),
        closed_two_body(spec_solve(cs, dt, k)),
{
    let m = cs[0].body.mass;
    let f = spec_electric_force(cs[0], cs[1], k);
    let g = spec_electric_force(cs[1], cs[0], k);
    lemma_force_symmetry(cs[0], cs[1], k);
    assert(g.0 == -f.0 && g.1 == -f.1);
    assert(pair_forces_upto(cs, 0, k, 0) =~= Seq::<(int, int)>::empty());
    assert(pair_forces_upto(cs, 0, k, 1) =~= Seq::<(int, int)>::empty());
    assert(pair_forces_upto(cs, 0, k, 2) =~= seq![f]);
    assert(pair_forces(cs, 0, k) =~= seq![f]);
    assert(pair_forces_upto(cs, 1, k, 0) =~= Seq::<(int, int)>::empty());
    assert(pair_forces_upto(cs, 1, k, 1) =~= seq![g]);
    assert(pair_forces_upto(cs, 1, k, 2) =~= seq![g]);
    assert(pair_forces(cs, 1, k) =~= seq![g]);
    let b0a = BodyModel { forces: cs[0].body.forces + pair_forces(cs, 0, k), ..cs[0].body };
    let b0b = BodyModel { forces: cs[1].body.forces + pair_forces(cs, 1, k), ..cs[1].body };
    assert(b0a.forces =~= seq![f]);
    assert(b0b.forces =~= seq![g]);
    assert(b0a.forces.drop_last() =~= Seq::<(int, int)>::empty());
    assert(b0b.forces.drop_last() =~= Seq::<(int, int)>::empty());
    assert(accel_from_forces(b0a.forces.drop_last(), m) == (0int, 0int));
    assert(accel_from_forces(b0b.forces.drop_last(), m) == (0int, 0int));
    assert(b0a.forces.last() == f);
    assert(b0b.forces.last() == g);
    assert(accel_from_forces(b0a.forces, m) == (
        0 + tdiv(f.0 * (SCALE as int), m),
        0 + tdiv(f.1 * (SCALE as int), m),
    ));
    assert(accel_from_forces(b0b.forces, m) == (
        0 + tdiv(g.0 * (SCALE as int), m),
        0 + tdiv(g.1 * (SCALE as int), m),
    ));
    // equal and opposite accelerations, saturation included
    assert(g.0 * (SCALE as int) == -(f.0 * (SCALE as int)));
    assert(g.1 * (SCALE as int) == -(f.1 * (SCALE as int)));
    lemma_tdiv_neg(f.0 * (SCALE as int), m);
    lemma_tdiv_neg(f.1 * (SCALE as int), m);
    lemma_clip_odd(tdiv(f.0 * (SCALE as int), m));
    lemma_clip_odd(tdiv(f.1 * (SCALE as int), m));
    let b1a = spec_update_acceleration(b0a);
    let b1b = spec_update_acceleration(b0b);
    assert(b1b.acc.0 == -b1a.acc.0 && b1b.acc.1 == -b1a.acc.1);
    // equal and opposite velocity increments
    assert(b1b.acc.0 * dt == -(b1a.acc.0 * dt) && b1b.acc.1 * dt == -(b1a.acc.1 * dt))
        by (nonlinear_arith)
        requires
            b1b.acc.0 == -b1a.acc.0,
            b1b.acc.1 == -b1a.acc.1,
    ;
    lemma_tdiv_neg(b1a.acc.0 * dt, SCALE as int);
    lemma_tdiv_neg(b1a.acc.1 * dt, SCALE as int);
    let dx = tdiv(b1a.acc.0 * dt, SCALE as int);
    let dy = tdiv(b1a.acc.1 * dt, SCALE as int);
    // the in-band hypothesis turns saturation into plain addition
    assert(vel_update_in_band(cs, dt, k, 0));
    assert(vel_update_in_band(cs, dt, k, 1));
    let b2a = spec_update_velocity(b1a, dt);
    let b2b = spec_update_velocity(b1b, dt);
    assert(b2a.vel == (cs[0].body.vel.0 + dx, cs[0].body.vel.1 + dy));
    assert(b2b.vel == (cs[1].body.vel.0 - dx, cs[1].body.vel.1 - dy));
    let res = spec_solve(cs, dt, k);
    assert(res[0] == spec_step_charge(cs, 0, dt, k));
    assert(res[1] == spec_step_charge(cs, 1, dt, k));
    assert(res[0].body.vel == b2a.vel && res[0].body.mass == m);
    assert(res[1].body.vel == b2b.vel && res[1].body.mass == m);
    lemma_momentum_two(cs);
    lemma_momentum_two(res);
    assert(m * (cs[0].body.vel.0 + dx) == m * cs[0].body.vel.0 + m * dx) by (nonlinear_arith);
    assert(m * (cs[1].body.vel.0 - dx) == m * cs[1].body.vel.0 - m * dx) by (nonlinear_arith);
    assert(m * (cs[0].body.vel.1 + dy) == m * cs[0].body.vel.1 + m * dy) by (nonlinear_arith);
    assert(m * (cs[1].body.vel.1 - dy) == m * cs[1].body.vel.1 - m * dy) by (nonlinear_arith);
    lemma_spec_solve_wf(cs, dt, k);
    assert(charge_wf(res[0]) && charge_wf(res[1]));
    assert(res[0].body.forces.len() == 0 && res[1].body.forces.len() == 0);
}

/// The collection after `n` steps.
pub open spec fn iter_solve(cs: Seq<ChargeModel>, dt: int, k: int, n: nat) -> Seq<ChargeModel>
    decreases n,
{
    if n == 0 {
        cs
    } else {
        spec_solve(iter_solve(cs, dt, k, (n - 1) as nat), dt, k)
    }
}

/// Every one of the first `n` steps keeps its velocity updates inside the
/// stored band.
pub open spec fn run_in_band(cs: Seq<ChargeModel>, dt: int, k: int, n: nat) -> bool {
    forall|i: nat| i < n ==> vel_updates_in_band(#[trigger] iter_solve(cs, dt, k, i), dt, k)
}

/// Momentum conservation: over any number of steps of a closed equal-mass
/// two-body system in which no velocity saturates, the total momentum is
/// unchanged, exactly — every applied force pair is equal and opposite.
pub proof fn lemma_momentum_conservation(cs: Seq<ChargeModel>, dt: int, k: int, n: nat)
    requires
        closed_two_body(cs),
        run_in_band(cs, dt, k, n),
    ensures
        closed_two_body(iter_solve(cs, dt, k, n)),
        momentum(iter_solve(cs, dt, k, n)) == momentum(cs),
    decreases n,
{
    if n > 0 {
        let prev = iter_solve(cs, dt, k, (n - 1) as nat);
        lemma_momentum_conservation(cs, dt, k, (n - 1) as nat);
        assert(vel_updates_in_band(prev, dt, k));
        lemma_momentum_step(prev, dt, k);
    }
}

} // verus!

