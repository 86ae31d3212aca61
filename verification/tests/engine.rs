//! Unit tests for bodies, charges, and the force law, on exact tick values.

use electrostatics::num::{LIM, MASS_MAX, SCALE};
use electrostatics::physics::{Acceleration, Charge, Force, PointBody, Position, Velocity};

#[test]
fn default_body_is_at_rest_with_unit_mass() {
    let b = PointBody::default();
    assert_eq!(b.mass, SCALE);
    assert_eq!(b.position, Position(0, 0));
    assert_eq!(b.velocity, Velocity(0, 0));
    assert_eq!(b.acceleration, Acceleration(0, 0));
    assert_eq!(b.force_list.len(), 0);
    assert_eq!(b.id, 0);
}

#[test]
fn new_from_mass_clamps_bad_masses() {
    assert_eq!(PointBody::new_from_mass(0).mass, 1);
    assert_eq!(PointBody::new_from_mass(-5_000_000).mass, 1);
    assert_eq!(PointBody::new_from_mass(i64::MAX).mass, MASS_MAX);
    assert_eq!(PointBody::new_from_mass(3_000_000).mass, 3_000_000);
}

#[test]
fn charge_constructor_clamps_charge_and_mass() {
    let c = Charge::new(i64::MAX, 0);
    assert_eq!(c.charge, LIM);
    assert_eq!(c.body.mass, 1);
    let d = Charge::new(-7, 2_000_000);
    assert_eq!(d.charge, -7);
    assert_eq!(d.body.mass, 2_000_000);
    assert_eq!(d.body.position, Position(0, 0));
}

#[test]
fn charge_from_position_clamps_coordinates() {
    let c = Charge::new_from_position(1, 1, Position(i64::MAX, -3));
    assert_eq!(c.body.position, Position(LIM, -3));
    assert_eq!(c.body.mass, 1);
    assert_eq!(c.charge, 1);
}

#[test]
fn apply_force_appends_in_order_and_saturates() {
    let mut b = PointBody::default();
    b.apply_force(Force(i64::MAX, i64::MIN));
    b.apply_force(Force(5, -9));
    assert_eq!(b.force_list.len(), 2);
    assert_eq!(b.force_list[0], Force(LIM, -LIM));
    assert_eq!(b.force_list[1], Force(5, -9));
}

#[test]
fn acceleration_clear_zeroes_both_components() {
    let mut a = Acceleration(5, -7);
    a.clear();
    assert_eq!(a, Acceleration(0, 0));
}

#[test]
fn distance_on_a_three_four_five_triangle() {
    let a = PointBody::default();
    let mut b = PointBody::default();
    b.position = Position(3_000_000, 4_000_000);
    assert_eq!(a.distance(&b), 5_000_000);
    assert_eq!(b.distance(&a), 5_000_000);
}

#[test]
fn distance_rounds_down() {
    let a = PointBody::default();
    let mut b = PointBody::default();
    b.position = Position(1, 1);
    assert_eq!(a.distance(&b), 1);
}

#[test]
fn update_motion_integrates_exactly_and_clears_forces() {
    let mut b = PointBody::new_from_mass(2_000_000);
    b.apply_force(Force(4_000_000, 0));
    b.apply_force(Force(2_000_000, 0));
    b.update_motion(500_000);
    // acceleration: 4/2 + 2/2 = 3 units; velocity: 3 * 0.5 = 1.5 units;
    // position: 1.5 * 0.5 = 0.75 units.
    assert_eq!(b.acceleration, Acceleration(3_000_000, 0));
    assert_eq!(b.velocity, Velocity(1_500_000, 0));
    assert_eq!(b.position, Position(750_000, 0));
    assert_eq!(b.force_list.len(), 0);
}

#[test]
fn acceleration_is_replaced_not_accumulated() {
    let mut b = PointBody::new_from_mass(1_000_000);
    b.apply_force(Force(1_000_000, 0));
    b.update_motion(1_000_000);
    assert_eq!(b.acceleration, Acceleration(1_000_000, 0));
    // a second step without forces recomputes a zero acceleration and
    // coasts on the velocity already gained
    b.update_motion(1_000_000);
    assert_eq!(b.acceleration, Acceleration(0, 0));
    assert_eq!(b.velocity, Velocity(1_000_000, 0));
    assert_eq!(b.position, Position(2_000_000, 0));
}

#[test]
fn coincident_charges_exert_no_force() {
    let a = Charge::new(1_000_000, 1_000_000);
    let b = Charge::new(-2_000_000, 1_000_000);
    assert_eq!(a.electric_force(&b, 1_000_000), Force(0, 0));
}

#[test]
fn electric_force_has_the_coulomb_magnitude() {
    // charges of one unit each, ten units apart, with k = 1:
    // magnitude 1 / 100 = 0.01 units, along the x axis
    let left = Charge::new_from_position(1_000_000, 1_000_000, Position(0, 0));
    let right = Charge::new_from_position(1_000_000, 1_000_000, Position(10_000_000, 0));
    assert_eq!(left.electric_force(&right, 1_000_000), Force(-10_000, 0));
    assert_eq!(right.electric_force(&left, 1_000_000), Force(10_000, 0));
}
