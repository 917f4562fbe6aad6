//! From the four direction keys to the force on the ball.
use vstd::prelude::*;
use crate::fixed::{Vec3, UNIT};

verus! {

/// Size of the force that a held key applies along its axis.
pub const SPEED: i64 = UNIT;

/// Which of the four direction keys are held in this frame.
#[derive(Clone, Copy, Debug, PartialEq, Eq, Structural)]
pub struct Directions {
    pub left: bool,
    pub right: bool,
    pub up: bool,
    pub down: bool,
}

/// The force along one axis: the key of the negative direction wins over
/// the key of the positive one.
pub open spec fn axis(negative: bool, positive: bool) -> i64 {
    if negative {
        (-SPEED) as i64
    } else if positive {
        SPEED
    } else {
        0
    }
}

/// The horizontal force that the held keys ask for.
pub open spec fn force_of(keys: Directions) -> Vec3 {
    Vec3 { x: axis(keys.left, keys.right), y: 0, z: axis(keys.up, keys.down) }
}

/// No key asks for a force.
pub open spec fn idle(keys: Directions) -> bool {
    force_of(keys).x == 0 && force_of(keys).z == 0
}

/// The force to write onto the ball, or `None` where no key asks for one
/// and the force of the last frame is to stay.
pub fn input_force(keys: Directions) -> (force: Option<Vec3>)
    ensures
        force == if idle(keys) {
            None
        } else {
            Some(force_of(keys))
        },
{
    let x: i64 = if keys.left {
        -SPEED
    } else if keys.right {
        SPEED
    } else {
        0
    };
    let z: i64 = if keys.up {
        -SPEED
    } else if keys.down {
        SPEED
    } else {
        0
    };
    if x != 0 || z != 0 {
        Some(Vec3 { x, y: 0, z })
    } else {
        None
    }
}

/// Writes the force that the keys ask for onto every steered body. With
/// no such force every body keeps the force it has.
pub fn input_user(keys: Directions, forces: &mut Vec<Vec3>)
    ensures
        final(forces)@.len() == old(forces)@.len(),
        idle(keys) ==> final(forces)@ == old(forces)@,
        !idle(keys) ==> forall|i: int|
            0 <= i < final(forces)@.len() ==> #[trigger] final(forces)@[i] == force_of(keys),
{
    match input_force(keys) {
        Some(force) => {
            let mut i: usize = 0;
            while i < forces.len()
                invariant
                    0 <= i <= forces@.len(),
                    forces@.len() == old(forces)@.len(),
                    force == force_of(keys),
                    forall|j: int| 0 <= j < i ==> #[trigger] forces@[j] == force,
                decreases forces@.len() - i,
            {
                forces[i] = force;
                i = i + 1;
            }
        },
        None => {},
    }
}

} // verus!
