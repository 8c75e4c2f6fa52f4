//! Coordinate systems: how the coordinates of whoever uses the library map to
//! the coordinates used inside, where `y` is up.

use vstd::prelude::*;
use crate::math::Vec3;

verus! {

/// A point or a displacement in the plane.
#[derive(Clone, Copy, PartialEq, Eq, Structural, Debug, Hash)]
pub struct Vec2 {
    pub x: i32,
    pub y: i32,
}

/// A coordinate system: a kind of coordinate, and how to bring it inside and
/// back out.
pub trait CoordinateSystem {
    /// The coordinate of whoever uses the library.
    type Coordinate;

    /// What `c` is inside.
    spec fn inside(c: Self::Coordinate) -> Vec3;

    /// What `v` is outside.
    spec fn outside(v: Vec3) -> Self::Coordinate;

    /// Brings a coordinate inside.
    fn to_internal(c: &Self::Coordinate) -> (v: Vec3)
        ensures
            v == Self::inside(*c),
    ;

    /// Brings a coordinate back out.
    fn from_internal(v: &Vec3) -> (c: Self::Coordinate)
        ensures
            c == Self::outside(*v),
    ;
}

/// Coordinates in the plane: `x` stays, `y` is the depth `z` inside, and the
/// height is zero.
pub struct TwoD;

/// Coordinates in space with `y` up, as inside.
pub struct ThreeD;

impl CoordinateSystem for TwoD {
    type Coordinate = Vec2;

    open spec fn inside(c: Vec2) -> Vec3 {
        Vec3 { x: c.x, y: 0, z: c.y }
    }

    open spec fn outside(v: Vec3) -> Vec2 {
        Vec2 { x: v.x, y: v.z }
    }

    fn to_internal(c: &Vec2) -> (v: Vec3) {
        Vec3 { x: c.x, y: 0, z: c.y }
    }

    fn from_internal(v: &Vec3) -> (c: Vec2) {
        Vec2 { x: v.x, y: v.z }
    }
}

impl CoordinateSystem for ThreeD {
    type Coordinate = Vec3;

    open spec fn inside(c: Vec3) -> Vec3 {
        c
    }

    open spec fn outside(v: Vec3) -> Vec3 {
        v
    }

    fn to_internal(c: &Vec3) -> (v: Vec3) {
        *c
    }

    fn from_internal(v: &Vec3) -> (c: Vec3) {
        *v
    }
}

/// A coordinate in the plane that is brought inside and back out is the
/// coordinate it was; one in space stays as it is both ways.
pub proof fn lemma_round_trip(c: Vec2, v: Vec3)
    ensures
        TwoD::outside(TwoD::inside(c)) == c,
        ThreeD::outside(ThreeD::inside(v)) == v,
        ThreeD::inside(ThreeD::outside(v)) == v,
        TwoD::inside(TwoD::outside(v)) == (Vec3 { y: 0, ..v }),
{
}

} // verus!
