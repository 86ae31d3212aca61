//! The solver: owner of the charge collection and driver of one simulation
//! step.
//!
//! A step computes the Coulomb force for every ordered pair of distinct
//! charges from the positions held at the start of the step, applies each
//! force to the receiving body, and only then integrates every body once.
//! No body moves until all forces are in, so later pairs never see stale
//! positions.

use crate::num::{in_range, lemma_clip_in_range, K_DEFAULT, LIM};
use crate::physics::{
    body_wf, charge_wf, force_model, forces_model, pair_in_range, spec_electric_force,
    spec_update_acceleration, spec_update_motion, spec_update_position, spec_update_velocity,
    BodyModel, Charge, ChargeModel, Force, PointBody,
};
use vstd::prelude::*;

verus! {

/// The mathematical image of a [`Solver`].
#[verifier::ext_equal]
pub ghost struct SolverModel {
    pub charges: Seq<ChargeModel>,
    pub k: int,
}

pub open spec fn charges_model(s: Seq<Charge>) -> Seq<ChargeModel> {
    s.map_values(|c: Charge| c@)
}

/// The charge collection, in insertion order, and the force constant used
/// for this scene.
pub struct Solver {
    pub charge_list: Vec<Charge>,
    pub k: i64,
}

impl View for Solver {
    type V = SolverModel;

    open spec fn view(&self) -> SolverModel {
        SolverModel { charges: charges_model(self.charge_list@), k: self.k as int }
    }
}

pub open spec fn solver_wf(s: SolverModel) -> bool {
    in_range(s.k) && forall|i: int| 0 <= i < s.charges.len() ==> charge_wf(#[trigger] s.charges[i])
}

/// The forces exerted on charge `i` by the charges with index below `j`
/// (skipping `i` itself), in index order.
pub open spec fn pair_forces_upto(cs: Seq<ChargeModel>, i: int, k: int, j: int) -> Seq<(int, int)>
    decreases j,
{
    if j <= 0 {
        Seq::empty()
    } else if j - 1 == i {
        pair_forces_upto(cs, i, k, j - 1)
    } else {
        pair_forces_upto(cs, i, k, j - 1).push(spec_electric_force(cs[i], cs[j - 1], k))
    }
}

/// All the forces one step applies to charge `i`: one from every other
/// charge in the collection, in index order.
pub open spec fn pair_forces(cs: Seq<ChargeModel>, i: int, k: int) -> Seq<(int, int)> {
    pair_forces_upto(cs, i, k, cs.len() as int)
}

/// Charge `i` after one step: the pairwise forces join its pending list and
/// the body is integrated once over `dt`.
pub open spec fn spec_step_charge(cs: Seq<ChargeModel>, i: int, dt: int, k: int) -> ChargeModel {
    let c = cs[i];
    ChargeModel {
        body: spec_update_motion(
            (BodyModel { forces: c.body.forces + pair_forces(cs, i, k), ..c.body }),
            dt,
        ),
        charge: c.charge,
    }
}

/// One full step of the collection, every pairwise force taken from the
/// positions held at the start of the step.
pub open spec fn spec_solve(cs: Seq<ChargeModel>, dt: int, k: int) -> Seq<ChargeModel> {
    Seq::new(cs.len(), |i: int| spec_step_charge(cs, i, dt, k))
}

/// Every force a step produces is saturated into the stored band.
proof fn lemma_pair_forces_in_range(cs: Seq<ChargeModel>, i: int, k: int, j: int)
    ensures
        forall|t: int|
            0 <= t < pair_forces_upto(cs, i, k, j).len() ==> pair_in_range(
                #[trigger] pair_forces_upto(cs, i, k, j)[t],
            ),
    decreases j,
{
    if j > 0 {
        lemma_pair_forces_in_range(cs, i, k, j - 1);
        if j - 1 != i {
            let f = spec_electric_force(cs[i], cs[j - 1], k);
            lemma_clip_in_range(f.0);
            lemma_clip_in_range(f.1);
            assert(pair_in_range(f)) by {
                let a = cs[i];
                let b = cs[j - 1];
                if crate::physics::dist_squared(a, b) == 0 {
                } else {
                    let u = crate::physics::away_vector(a, b);
                    let r2 = crate::physics::dist_squared(a, b);
                    let mag = crate::num::tdiv(k * a.charge * b.charge, r2);
                    let d = crate::num::sqrt_floor(r2);
                    lemma_clip_in_range(crate::num::tdiv(mag * u.0, d));
                    lemma_clip_in_range(crate::num::tdiv(mag * u.1, d));
                }
            }
        }
        assert forall|t: int| 0 <= t < pair_forces_upto(cs, i, k, j).len() implies pair_in_range(
            #[trigger] pair_forces_upto(cs, i, k, j)[t],
        ) by {
            if t < pair_forces_upto(cs, i, k, j - 1).len() {
                assert(pair_forces_upto(cs, i, k, j)[t] == pair_forces_upto(cs, i, k, j - 1)[t]);
                assert(pair_in_range(pair_forces_upto(cs, i, k, j - 1)[t]));
            } else {
                assert(j - 1 != i);
                assert(pair_forces_upto(cs, i, k, j)[t] == spec_electric_force(
                    cs[i],
                    cs[j - 1],
                    k,
                ));
            }
        }
    }
}

/// A step leaves every charge well-formed: the integrator saturates all
/// scalars back into the stored band and empties the pending forces.
pub proof fn lemma_spec_solve_wf(cs: Seq<ChargeModel>, dt: int, k: int)
    requires
        forall|i: int| 0 <= i < cs.len() ==> charge_wf(#[trigger] cs[i]),
    ensures
        spec_solve(cs, dt, k).len() == cs.len(),
        forall|i: int|
            0 <= i < cs.len() ==> charge_wf(#[trigger] spec_solve(cs, dt, k)[i]),
{
    assert forall|i: int| 0 <= i < cs.len() implies charge_wf(
        #[trigger] spec_solve(cs, dt, k)[i],
    ) by {
        let c = cs[i];
        let b0 = BodyModel { forces: c.body.forces + pair_forces(cs, i, k), ..c.body };
        let b1 = spec_update_acceleration(b0);
        let b2 = spec_update_velocity(b1, dt);
        let b3 = spec_update_position(b2, dt);
        lemma_clip_in_range(crate::physics::accel_from_forces(b0.forces, b0.mass).0);
        lemma_clip_in_range(crate::physics::accel_from_forces(b0.forces, b0.mass).1);
        lemma_clip_in_range(b1.vel.0 + crate::num::tdiv(b1.acc.0 * dt, crate::num::SCALE as int));
        lemma_clip_in_range(b1.vel.1 + crate::num::tdiv(b1.acc.1 * dt, crate::num::SCALE as int));
        lemma_clip_in_range(b2.pos.0 + crate::num::tdiv(b2.vel.0 * dt, crate::num::SCALE as int));
        lemma_clip_in_range(b2.pos.1 + crate::num::tdiv(b2.vel.1 * dt, crate::num::SCALE as int));
        assert(body_wf(spec_step_charge(cs, i, dt, k).body));
    }
}

/// One step, built functionally: the stepped collection is assembled from
/// the old one, which stays untouched until every force has been taken from
/// the old positions.
fn step_all(charges: &Vec<Charge>, dt: i64, k: i64) -> (stepped: Vec<Charge>)
    requires
        forall|i: int|
            0 <= i < charges@.len() ==> charge_wf(#[trigger] charges_model(charges@)[i]),
        -LIM <= dt && dt <= LIM,
        -LIM <= k && k <= LIM,
    ensures
        charges_model(stepped@) == spec_solve(charges_model(charges@), dt as int, k as int),
{
    let ghost cs = charges_model(charges@);
    let n = charges.len();
    let mut stepped: Vec<Charge> = Vec::new();
    let mut i: usize = 0;
    proof {
        assert(charges_model(stepped@) =~= spec_solve(cs, dt as int, k as int).take(0));
    }
    while i < n
        invariant
            n == charges@.len(),
            i <= n,
            cs == charges_model(charges@),
            forall|t: int|
                0 <= t < charges@.len() ==> charge_wf(#[trigger] charges_model(charges@)[t]),
            -LIM <= dt && dt <= LIM,
            -LIM <= k && k <= LIM,
            charges_model(stepped@) == spec_solve(cs, dt as int, k as int).take(i as int),
        decreases n - i,
    {
        proof {
            assert(charge_wf(charges_model(charges@)[i as int]));
            assert(cs[i as int] == charges@[i as int]@);
        }
        // gather the forces on charge i, starting from its pending list
        let mut nf: Vec<Force> = Vec::new();
        let m = charges[i].body.force_list.len();
        let mut t: usize = 0;
        while t < m
            invariant
                i < n,
                n == charges@.len(),
                m == charges@[i as int].body.force_list@.len(),
                t <= m,
                nf@ == charges@[i as int].body.force_list@.take(t as int),
            decreases m - t,
        {
            let f = charges[i].body.force_list[t];
            nf.push(f);
            proof {
                assert(nf@ =~= charges@[i as int].body.force_list@.take(t as int + 1));
            }
            t = t + 1;
        }
        proof {
            assert(charges@[i as int].body.force_list@.take(m as int) =~= charges@[i as
                int].body.force_list@);
            assert(forces_model(nf@) =~= cs[i as int].body.forces + pair_forces_upto(
                cs,
                i as int,
                k as int,
                0,
            ));
        }
        // one force from every other charge, from the old positions
        let mut j: usize = 0;
        while j < n
            invariant
                i < n,
                n == charges@.len(),
                cs == charges_model(charges@),
                forall|t2: int|
                    0 <= t2 < charges@.len() ==> charge_wf(#[trigger] charges_model(charges@)[t2]),
                -LIM <= k && k <= LIM,
                j <= n,
                forces_model(nf@) == cs[i as int].body.forces + pair_forces_upto(
                    cs,
                    i as int,
                    k as int,
                    j as int,
                ),
            decreases n - j,
        {
            if j != i {
                proof {
                    assert(charge_wf(charges_model(charges@)[i as int]));
                    assert(charge_wf(charges_model(charges@)[j as int]));
                    assert(cs[i as int] == charges@[i as int]@);
                    assert(cs[j as int] == charges@[j as int]@);
                }
                let f = charges[i].electric_force(&charges[j], k);
                let ghost before = forces_model(nf@);
                nf.push(f);
                proof {
                    assert(forces_model(nf@) =~= before.push(force_model(f)));
                    assert(forces_model(nf@) =~= cs[i as int].body.forces + pair_forces_upto(
                        cs,
                        i as int,
                        k as int,
                        j as int + 1,
                    ));
                }
            }
            j = j + 1;
        }
        // integrate a fresh copy of the charge
        let mass = charges[i].body.mass;
        let position = charges[i].body.position;
        let velocity = charges[i].body.velocity;
        let acceleration = charges[i].body.acceleration;
        let id = charges[i].body.id;
        let charge_value = charges[i].charge;
        let mut nb = PointBody { mass, position, velocity, acceleration, force_list: nf, id };
        proof {
            let b0 = BodyModel {
                forces: cs[i as int].body.forces + pair_forces(cs, i as int, k as int),
                ..cs[i as int].body
            };
            assert(nb@ =~= b0);
            lemma_pair_forces_in_range(cs, i as int, k as int, n as int);
            assert forall|t3: int| 0 <= t3 < nb@.forces.len() implies pair_in_range(
                #[trigger] nb@.forces[t3],
            ) by {
                if t3 < cs[i as int].body.forces.len() {
                    assert(pair_in_range(cs[i as int].body.forces[t3]));
                } else {
                    assert(nb@.forces[t3] == pair_forces(cs, i as int, k as int)[t3 - cs[i as
                        int].body.forces.len()]);
                }
            }
            assert(body_wf(nb@));
        }
        nb.update_motion(dt);
        let nc = Charge { body: nb, charge: charge_value };
        proof {
            assert(nc@ =~= spec_step_charge(cs, i as int, dt as int, k as int));
        }
        let ghost stepped_before = charges_model(stepped@);
        stepped.push(nc);
        proof {
            assert(charges_model(stepped@) =~= stepped_before.push(nc@));
            assert(spec_solve(cs, dt as int, k as int).take(i as int + 1) =~= spec_solve(
                cs,
                dt as int,
                k as int,
            ).take(i as int).push(spec_step_charge(cs, i as int, dt as int, k as int)));
            assert(charges_model(stepped@) =~= spec_solve(cs, dt as int, k as int).take(
                i as int + 1,
            ));
        }
        i = i + 1;
    }
    proof {
        assert(spec_solve(cs, dt as int, k as int).take(n as int) =~= spec_solve(
            cs,
            dt as int,
            k as int,
        ));
    }
    stepped
}

impl Solver {
    /// An empty scene with the default force constant.
    pub fn new() -> (r: Solver)
        ensures
            r@.charges == Seq::<ChargeModel>::empty(),
            r@.k == K_DEFAULT as int,
            solver_wf(r@),
    {
        let s = Solver { charge_list: Vec::new(), k: K_DEFAULT };
        proof {
            assert(s@.charges =~= Seq::<ChargeModel>::empty());
        }
        s
    }

    /// Append a charge; insertion order is kept.
    pub fn add_charge(&mut self, charge: Charge)
        requires
            charge_wf(charge@),
        ensures
            final(self)@.charges == old(self)@.charges.push(charge@),
            final(self)@.k == old(self)@.k,
            solver_wf(old(self)@) ==> solver_wf(final(self)@),
    {
        self.charge_list.push(charge);
        proof {
            assert(self@.charges =~= old(self)@.charges.push(charge@));
            if solver_wf(old(self)@) {
                assert forall|i: int| 0 <= i < self@.charges.len() implies charge_wf(
                    #[trigger] self@.charges[i],
                ) by {
                    if i < old(self)@.charges.len() {
                        assert(charge_wf(old(self)@.charges[i]));
                    }
                }
            }
        }
    }

    /// Drop every charge; the force constant is kept.
    pub fn clear(&mut self)
        ensures
            final(self)@.charges == Seq::<ChargeModel>::empty(),
            final(self)@.k == old(self)@.k,
            solver_wf(old(self)@) ==> solver_wf(final(self)@),
    {
        self.charge_list = Vec::new();
        proof {
            assert(self@.charges =~= Seq::<ChargeModel>::empty());
        }
    }

    /// One simulation step over the elapsed time `dt`: all pairwise forces
    /// are applied from the start-of-step positions, then every body is
    /// integrated exactly once.  For a fixed collection and `dt` the result
    /// is a pure function of the current state.
    pub fn solve(&mut self, dt: i64)
        requires
            solver_wf(old(self)@),
            -LIM <= dt && dt <= LIM,
        ensures
            final(self)@.charges == spec_solve(old(self)@.charges, dt as int, old(self)@.k),
            final(self)@.k == old(self)@.k,
            solver_wf(final(self)@),
    {
        proof {
            assert(solver_wf(self@));
        }
        let stepped = step_all(&self.charge_list, dt, self.k);
        self.charge_list = stepped;
        proof {
            lemma_spec_solve_wf(old(self)@.charges, dt as int, old(self)@.k);
        }
    }
}

} // verus!
