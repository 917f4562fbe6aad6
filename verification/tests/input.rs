use cheeseball::fixed::Vec3;
use cheeseball::input::{input_force, input_user, Directions, SPEED};

fn keys(left: bool, right: bool, up: bool, down: bool) -> Directions {
    Directions { left, right, up, down }
}

#[test]
fn speed_is_one_unit_of_force() {
    assert_eq!(SPEED, 1_000_000);
}

#[test]
fn left_alone_pushes_along_negative_x() {
    assert_eq!(input_force(keys(true, false, false, false)), Some(Vec3::new(-SPEED, 0, 0)));
}

#[test]
fn right_alone_pushes_along_positive_x() {
    assert_eq!(input_force(keys(false, true, false, false)), Some(Vec3::new(SPEED, 0, 0)));
}

#[test]
fn left_wins_over_right() {
    assert_eq!(input_force(keys(true, true, false, false)), Some(Vec3::new(-SPEED, 0, 0)));
}

#[test]
fn up_alone_pushes_along_negative_z() {
    assert_eq!(input_force(keys(false, false, true, false)), Some(Vec3::new(0, 0, -SPEED)));
}

#[test]
fn down_alone_pushes_along_positive_z() {
    assert_eq!(input_force(keys(false, false, false, true)), Some(Vec3::new(0, 0, SPEED)));
}

#[test]
fn up_wins_over_down() {
    assert_eq!(input_force(keys(false, false, true, true)), Some(Vec3::new(0, 0, -SPEED)));
}

#[test]
fn both_axes_at_once() {
    assert_eq!(input_force(keys(false, true, false, true)), Some(Vec3::new(SPEED, 0, SPEED)));
    assert_eq!(input_force(keys(true, true, true, true)), Some(Vec3::new(-SPEED, 0, -SPEED)));
}

#[test]
fn no_key_asks_for_no_force() {
    assert_eq!(input_force(keys(false, false, false, false)), None);
}

#[test]
fn held_key_overwrites_every_force() {
    let mut forces = vec![Vec3::new(5, 6, 7), Vec3::new(0, 0, 0), Vec3::new(-1, -1, -1)];
    input_user(keys(true, false, false, false), &mut forces);
    assert_eq!(forces, vec![Vec3::new(-SPEED, 0, 0); 3]);
}

#[test]
fn released_keys_leave_the_last_force() {
    let mut forces = vec![Vec3::new(0, 0, 0)];
    input_user(keys(true, false, false, false), &mut forces);
    assert_eq!(forces, vec![Vec3::new(-SPEED, 0, 0)]);
    input_user(keys(false, false, false, false), &mut forces);
    assert_eq!(forces, vec![Vec3::new(-SPEED, 0, 0)]);
}

#[test]
fn released_keys_leave_any_force() {
    let mut forces = vec![Vec3::new(5, 6, 7), Vec3::new(-1, 0, 3)];
    input_user(keys(false, false, false, false), &mut forces);
    assert_eq!(forces, vec![Vec3::new(5, 6, 7), Vec3::new(-1, 0, 3)]);
}

#[test]
fn no_steered_body_is_fine() {
    let mut forces: Vec<Vec3> = Vec::new();
    input_user(keys(false, true, false, false), &mut forces);
    assert!(forces.is_empty());
}
