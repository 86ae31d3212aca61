//! Whole-solver scenarios with exact expected values.

use electrostatics::num::K_DEFAULT;
use electrostatics::physics::{Acceleration, Charge, Position, Velocity};
use electrostatics::solver::Solver;

#[test]
fn solver_new_is_empty_with_default_constant() {
    let s = Solver::new();
    assert_eq!(s.charge_list.len(), 0);
    assert_eq!(s.k, K_DEFAULT);
}

#[test]
fn add_charge_keeps_insertion_order_and_clear_empties() {
    let mut s = Solver::new();
    s.add_charge(Charge::new(1, 1_000_000));
    s.add_charge(Charge::new(2, 1_000_000));
    s.add_charge(Charge::new(3, 1_000_000));
    assert_eq!(s.charge_list.len(), 3);
    assert_eq!(s.charge_list[0].charge, 1);
    assert_eq!(s.charge_list[1].charge, 2);
    assert_eq!(s.charge_list[2].charge, 3);
    s.clear();
    assert_eq!(s.charge_list.len(), 0);
}

#[test]
fn step_on_empty_collection_is_a_noop() {
    let mut s = Solver::new();
    s.solve(1_000_000);
    assert_eq!(s.charge_list.len(), 0);
}

#[test]
fn single_charge_feels_no_force() {
    let mut s = Solver::new();
    let mut c = Charge::new(5_000_000, 1_000_000);
    c.body.velocity = Velocity(3_000_000, -2_000_000);
    s.add_charge(c);
    s.solve(1_000_000);
    let b = &s.charge_list[0].body;
    assert_eq!(b.velocity, Velocity(3_000_000, -2_000_000));
    assert_eq!(b.acceleration, Acceleration(0, 0));
    // it coasts: position moved by exactly velocity * dt
    assert_eq!(b.position, Position(3_000_000, -2_000_000));
}

#[test]
fn single_charge_at_rest_does_not_move() {
    let mut s = Solver::new();
    s.add_charge(Charge::new_from_position(5_000_000, 1_000_000, Position(7, -9)));
    s.solve(1_000_000);
    let b = &s.charge_list[0].body;
    assert_eq!(b.position, Position(7, -9));
    assert_eq!(b.velocity, Velocity(0, 0));
}

#[test]
fn two_unit_charges_repel_along_the_axis() {
    // two +1 charges of mass 1 at (0,0) and (10,0), k = 1, dt = 1:
    // the force magnitude is 0.01 on each, the left one is pushed to
    // negative x, the right one to positive x
    let mut s = Solver::new();
    s.k = 1_000_000;
    s.add_charge(Charge::new_from_position(1_000_000, 1_000_000, Position(0, 0)));
    s.add_charge(Charge::new_from_position(1_000_000, 1_000_000, Position(10_000_000, 0)));
    s.solve(1_000_000);
    let left = &s.charge_list[0].body;
    let right = &s.charge_list[1].body;
    assert_eq!(left.acceleration, Acceleration(-10_000, 0));
    assert_eq!(left.velocity, Velocity(-10_000, 0));
    assert_eq!(left.position, Position(-10_000, 0));
    assert_eq!(right.acceleration, Acceleration(10_000, 0));
    assert_eq!(right.velocity, Velocity(10_000, 0));
    assert_eq!(right.position, Position(10_010_000, 0));
}

#[test]
fn light_charge_curves_toward_a_heavy_anchor() {
    // a +1 anchor of mass 1e8 at the origin and a -0.005 charge of mass 1
    // passing above it: the light charge is pulled toward the anchor
    // (velocity bends to negative y) while the anchor stays put
    let mut s = Solver::new();
    s.k = 1_000_000_000_000;
    let anchor = Charge::new_from_position(1_000_000, 100_000_000_000_000, Position(0, 0));
    let mut light = Charge::new_from_position(-5_000, 1_000_000, Position(0, 100_000_000));
    light.body.velocity = Velocity(-500_000_000, 0);
    s.add_charge(anchor);
    s.add_charge(light);
    s.solve(100_000);
    {
        let a = &s.charge_list[0].body;
        let l = &s.charge_list[1].body;
        assert_eq!(a.velocity, Velocity(0, 0));
        assert_eq!(a.position, Position(0, 0));
        assert_eq!(l.velocity, Velocity(-500_000_000, -50_000));
        assert_eq!(l.position, Position(-50_000_000, 99_995_000));
    }
    // over further steps the pull keeps bending the velocity downward
    let mut prev_vy = s.charge_list[1].body.velocity.1;
    for _ in 0..5 {
        s.solve(100_000);
        let vy = s.charge_list[1].body.velocity.1;
        assert!(vy <= prev_vy);
        assert!(vy < 0);
        prev_vy = vy;
    }
    // the anchor has barely moved: its huge mass swallows the pull
    assert_eq!(s.charge_list[0].body.velocity, Velocity(0, 0));
}

#[test]
fn momentum_is_conserved_for_equal_masses() {
    let mut s = Solver::new();
    s.k = 1_000_000;
    let mut a = Charge::new_from_position(1_000_000, 1_000_000, Position(0, 0));
    a.body.velocity = Velocity(2_000_000, -1_000_000);
    let mut b = Charge::new_from_position(-1_000_000, 1_000_000, Position(7_000_000, 3_000_000));
    b.body.velocity = Velocity(0, 500_000);
    s.add_charge(a);
    s.add_charge(b);
    let momentum = |s: &Solver| -> (i128, i128) {
        let mut px: i128 = 0;
        let mut py: i128 = 0;
        for c in &s.charge_list {
            px += c.body.mass as i128 * c.body.velocity.0 as i128;
            py += c.body.mass as i128 * c.body.velocity.1 as i128;
        }
        (px, py)
    };
    let before = momentum(&s);
    for _ in 0..5 {
        s.solve(100_000);
        assert_eq!(momentum(&s), before);
    }
}

#[test]
fn pair_forces_are_equal_and_opposite() {
    let a = Charge::new_from_position(700_000, 1_000_000, Position(1_000_000, 2_000_000));
    let b = Charge::new_from_position(-300_000, 1_000_000, Position(5_000_000, -3_000_000));
    let k = 9_000_000;
    let fab = a.electric_force(&b, k);
    let fba = b.electric_force(&a, k);
    assert_eq!(fab.0, -fba.0);
    assert_eq!(fab.1, -fba.1);
    assert!(fab.0 != 0 || fab.1 != 0);
}

#[test]
fn like_charges_repel_and_opposite_charges_attract() {
    let a = Charge::new_from_position(1_000_000, 1_000_000, Position(0, 0));
    let b = Charge::new_from_position(1_000_000, 1_000_000, Position(5_000_000, 0));
    // b lies at positive x of a, so repulsion pushes a to negative x
    assert!(a.electric_force(&b, 1_000_000).0 < 0);
    assert!(b.electric_force(&a, 1_000_000).0 > 0);
    let c = Charge::new_from_position(-1_000_000, 1_000_000, Position(0, 0));
    // opposite signs: c at the origin is pulled toward b, and b toward c
    assert!(c.electric_force(&b, 1_000_000).0 > 0);
    assert!(b.electric_force(&c, 1_000_000).0 < 0);
}

#[test]
fn doubling_the_distance_quarters_the_force() {
    let q = 1_000_000;
    let m = 1_000_000;
    let k = 1_000_000;
    let near_a = Charge::new_from_position(q, m, Position(0, 0));
    let near_b = Charge::new_from_position(q, m, Position(10_000_000, 0));
    let far_a = Charge::new_from_position(q, m, Position(0, 0));
    let far_b = Charge::new_from_position(q, m, Position(20_000_000, 0));
    let near = near_a.electric_force(&near_b, k);
    let far = far_a.electric_force(&far_b, k);
    assert_eq!(near.0, -10_000);
    assert_eq!(far.0, -2_500);
    assert_eq!(far.0, near.0 / 4);
    assert_eq!(far.1, 0);
}

#[test]
fn solve_is_deterministic() {
    let build = || {
        let mut s = Solver::new();
        s.k = 3_000_000;
        let mut a = Charge::new_from_position(400_000, 2_000_000, Position(-1_000_000, 250_000));
        a.body.velocity = Velocity(10_000, -20_000);
        s.add_charge(a);
        s.add_charge(Charge::new_from_position(-800_000, 5_000_000, Position(2_500_000, 0)));
        s.add_charge(Charge::new_from_position(600_000, 1_000_000, Position(0, -4_000_000)));
        s
    };
    let mut s1 = build();
    let mut s2 = build();
    for _ in 0..3 {
        s1.solve(50_000);
        s2.solve(50_000);
    }
    for i in 0..3 {
        assert_eq!(s1.charge_list[i].body.position, s2.charge_list[i].body.position);
        assert_eq!(s1.charge_list[i].body.velocity, s2.charge_list[i].body.velocity);
    }
}
