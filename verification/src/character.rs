//! Characters: moving obstacles that agents avoid.

use vstd::prelude::*;
use crate::math::Vec3;

verus! {

/// The id of a character of an archipelago.
#[derive(Clone, Copy, PartialEq, Eq, Structural, Debug, Hash)]
pub struct CharacterId(pub u64);

/// A moving obstacle. Agents avoid characters; characters go where they are
/// put.
#[derive(Clone, Copy, PartialEq, Eq, Structural, Debug)]
pub struct Character {
    /// Where the character is.
    pub position: Vec3,
    /// How the character moves.
    pub velocity: Vec3,
    /// The radius of the character.
    pub radius: u32,
}

/// The velocity that an agent or a character moves with, as whoever moves it
/// reports it.
#[derive(Clone, Copy, PartialEq, Eq, Structural, Debug)]
pub struct Velocity {
    /// The velocity.
    pub velocity: Vec3,
}

impl Velocity {
    /// No movement.
    pub fn zero() -> (r: Velocity)
        ensures
            r.velocity == (Vec3 { x: 0, y: 0, z: 0 }),
    {
        Velocity { velocity: Vec3::zero() }
    }
}

impl Character {
    /// A character at rest at the origin, with the given radius.
    pub fn with_radius(radius: u32) -> (r: Character)
        ensures
            r == (Character {
                position: Vec3 { x: 0, y: 0, z: 0 },
                velocity: Vec3 { x: 0, y: 0, z: 0 },
                radius,
            }),
    {
        Character { position: Vec3::zero(), velocity: Vec3::zero(), radius }
    }
}

} // verus!
