//! Axis-aligned boxes and rigid transforms on the ground plane.

use vstd::prelude::*;
use crate::math::{dist_sq, div_round, div_rounded, mul_wide, sat32, saturate, Vec3};

verus! {

/// The fixed-point value that stands for 1 in a [`Rotation`].
pub const ROTATION_ONE: i32 = 0x4000_0000;

/// An axis-aligned box, possibly empty.
#[derive(Clone, Copy, PartialEq, Eq, Structural, Debug)]
pub enum BoundingBox {
    /// The box that holds no point.
    Empty,
    /// The box of the points between `min` and `max`, both included.
    Box { min: Vec3, max: Vec3 },
}

/// The lesser of two integers.
pub open spec fn min_int(a: int, b: int) -> int {
    if a <= b {
        a
    } else {
        b
    }
}

/// The greater of two integers.
pub open spec fn max_int(a: int, b: int) -> int {
    if a >= b {
        a
    } else {
        b
    }
}

/// The componentwise minimum of two points.
pub open spec fn min_point(a: Vec3, b: Vec3) -> Vec3 {
    Vec3 {
        x: min_int(a.x as int, b.x as int) as i32,
        y: min_int(a.y as int, b.y as int) as i32,
        z: min_int(a.z as int, b.z as int) as i32,
    }
}

/// The componentwise maximum of two points.
pub open spec fn max_point(a: Vec3, b: Vec3) -> Vec3 {
    Vec3 {
        x: max_int(a.x as int, b.x as int) as i32,
        y: max_int(a.y as int, b.y as int) as i32,
        z: max_int(a.z as int, b.z as int) as i32,
    }
}

/// `a` is at most `b` in every component.
pub open spec fn point_le(a: Vec3, b: Vec3) -> bool {
    a.x <= b.x && a.y <= b.y && a.z <= b.z
}

fn min_i32(a: i32, b: i32) -> (r: i32)
    ensures
        r == min_int(a as int, b as int),
{
    if a <= b {
        a
    } else {
        b
    }
}

fn max_i32(a: i32, b: i32) -> (r: i32)
    ensures
        r == max_int(a as int, b as int),
{
    if a >= b {
        a
    } else {
        b
    }
}

fn lower(a: Vec3, b: Vec3) -> (r: Vec3)
    ensures
        r == min_point(a, b),
{
    Vec3 { x: min_i32(a.x, b.x), y: min_i32(a.y, b.y), z: min_i32(a.z, b.z) }
}

fn upper(a: Vec3, b: Vec3) -> (r: Vec3)
    ensures
        r == max_point(a, b),
{
    Vec3 { x: max_i32(a.x, b.x), y: max_i32(a.y, b.y), z: max_i32(a.z, b.z) }
}

impl BoundingBox {
    /// A box is well formed if it is empty or its `min` is at most its `max`
    /// in every component.
    pub open spec fn wf(self) -> bool {
        match self {
            BoundingBox::Empty => true,
            BoundingBox::Box { min, max } => point_le(min, max),
        }
    }

    /// Whether `p` lies in the box.
    pub open spec fn contains(self, p: Vec3) -> bool {
        match self {
            BoundingBox::Empty => false,
            BoundingBox::Box { min, max } => point_le(min, p) && point_le(p, max),
        }
    }

    /// The smallest box that holds this box and `p`.
    pub open spec fn expanded_to_point(self, p: Vec3) -> BoundingBox {
        match self {
            BoundingBox::Empty => BoundingBox::Box { min: p, max: p },
            BoundingBox::Box { min, max } => BoundingBox::Box {
                min: min_point(min, p),
                max: max_point(max, p),
            },
        }
    }

    /// The smallest box that holds this box and `other`.
    pub open spec fn expanded_to_bounds(self, other: BoundingBox) -> BoundingBox {
        match (self, other) {
            (BoundingBox::Empty, _) => other,
            (_, BoundingBox::Empty) => self,
            (BoundingBox::Box { min, max }, BoundingBox::Box { min: other_min, max: other_max }) => {
                BoundingBox::Box {
                    min: min_point(min, other_min),
                    max: max_point(max, other_max),
                }
            },
        }
    }

    /// The box grown by `size` on every side, each coordinate saturating. The
    /// empty box stays empty.
    pub open spec fn expanded_by_size(self, size: u32) -> BoundingBox {
        match self {
            BoundingBox::Empty => BoundingBox::Empty,
            BoundingBox::Box { min, max } => BoundingBox::Box {
                min: Vec3 {
                    x: sat32(min.x - size) as i32,
                    y: sat32(min.y - size) as i32,
                    z: sat32(min.z - size) as i32,
                },
                max: Vec3 {
                    x: sat32(max.x + size) as i32,
                    y: sat32(max.y + size) as i32,
                    z: sat32(max.z + size) as i32,
                },
            },
        }
    }

    /// Whether the two boxes share a point.
    pub open spec fn intersects(self, other: BoundingBox) -> bool {
        match (self, other) {
            (BoundingBox::Box { min, max }, BoundingBox::Box { min: other_min, max: other_max }) => {
                point_le(min, other_max) && point_le(other_min, max)
            },
            _ => false,
        }
    }

    /// The box from `min` to `max`, or `None` where `min` exceeds `max` in
    /// some component.
    pub fn new_box(min: Vec3, max: Vec3) -> (r: Option<BoundingBox>)
        ensures
            r.is_some() <==> point_le(min, max),
            r.is_some() ==> r.unwrap() == (BoundingBox::Box { min, max }),
    {
        if min.x <= max.x && min.y <= max.y && min.z <= max.z {
            Some(BoundingBox::Box { min, max })
        } else {
            None
        }
    }

    /// The box that holds `p` alone.
    pub fn point(p: Vec3) -> (r: BoundingBox)
        ensures
            r == (BoundingBox::Box { min: p, max: p }),
            r.wf(),
    {
        BoundingBox::Box { min: p, max: p }
    }

    /// Whether the box holds no point.
    pub fn is_empty(&self) -> (r: bool)
        ensures
            r == (*self == BoundingBox::Empty),
    {
        match self {
            BoundingBox::Empty => true,
            BoundingBox::Box { .. } => false,
        }
    }

    /// Whether the box is empty or its least corner exceeds its greatest in
    /// no component.
    pub fn is_valid(&self) -> (r: bool)
        ensures
            r == self.wf(),
    {
        match self {
            BoundingBox::Empty => true,
            BoundingBox::Box { min, max } => min.x <= max.x && min.y <= max.y && min.z <= max.z,
        }
    }

    /// Whether `p` is in the box, its faces included.
    pub fn contains_point(&self, p: Vec3) -> (r: bool)
        ensures
            r == self.contains(p),
    {
        match self {
            BoundingBox::Empty => false,
            BoundingBox::Box { min, max } => {
                min.x <= p.x && min.y <= p.y && min.z <= p.z && p.x <= max.x && p.y <= max.y
                    && p.z <= max.z
            },
        }
    }

    /// The smallest box that holds this box and `p`.
    pub fn expand_to_point(&self, p: Vec3) -> (r: BoundingBox)
        ensures
            r == self.expanded_to_point(p),
            self.wf() ==> r.wf(),
    {
        match self {
            BoundingBox::Empty => BoundingBox::Box { min: p, max: p },
            BoundingBox::Box { min, max } => BoundingBox::Box {
                min: lower(*min, p),
                max: upper(*max, p),
            },
        }
    }

    /// The smallest box that holds this box and `other`.
    pub fn expand_to_bounds(&self, other: &BoundingBox) -> (r: BoundingBox)
        ensures
            r == self.expanded_to_bounds(*other),
            self.wf() && other.wf() ==> r.wf(),
    {
        match (self, other) {
            (BoundingBox::Empty, _) => *other,
            (_, BoundingBox::Empty) => *self,
            (BoundingBox::Box { min, max }, BoundingBox::Box { min: other_min, max: other_max }) => {
                BoundingBox::Box { min: lower(*min, *other_min), max: upper(*max, *other_max) }
            },
        }
    }

    /// The box grown by `size` on every side, each coordinate saturating.
    pub fn expand_by_size(&self, size: u32) -> (r: BoundingBox)
        ensures
            r == self.expanded_by_size(size),
            self.wf() ==> r.wf(),
    {
        match self {
            BoundingBox::Empty => BoundingBox::Empty,
            BoundingBox::Box { min, max } => BoundingBox::Box {
                min: Vec3 {
                    x: saturate(min.x as i128 - size as i128),
                    y: saturate(min.y as i128 - size as i128),
                    z: saturate(min.z as i128 - size as i128),
                },
                max: Vec3 {
                    x: saturate(max.x as i128 + size as i128),
                    y: saturate(max.y as i128 + size as i128),
                    z: saturate(max.z as i128 + size as i128),
                },
            },
        }
    }

    /// Whether the two boxes share a point.
    pub fn intersects_bounds(&self, other: &BoundingBox) -> (r: bool)
        ensures
            r == self.intersects(*other),
    {
        match (self, other) {
            (BoundingBox::Box { min, max }, BoundingBox::Box { min: other_min, max: other_max }) => {
                min.x <= other_max.x && min.y <= other_max.y && min.z <= other_max.z
                    && other_min.x <= max.x && other_min.y <= max.y && other_min.z <= max.z
            },
            _ => false,
        }
    }

    /// The bounds of this box after `transform`: the ground rectangle that
    /// holds the images of the four ground corners, with the height range
    /// carried along.
    pub open spec fn transformed(self, transform: Transform) -> BoundingBox {
        match self {
            BoundingBox::Empty => BoundingBox::Empty,
            BoundingBox::Box { min, max } => {
                let near = transform.apply_spec(min);
                let far = transform.apply_spec(Vec3 { x: max.x, y: min.y, z: max.z });
                let far_left = transform.apply_spec(Vec3 { x: min.x, y: min.y, z: max.z });
                let near_right = transform.apply_spec(Vec3 { x: max.x, y: min.y, z: min.z });
                let top = transform.apply_spec(Vec3 { x: min.x, y: max.y, z: min.z });
                BoundingBox::Box {
                    min: Vec3 { y: near.y, ..min_point(min_point(near, far), min_point(far_left, near_right)) },
                    max: Vec3 { y: top.y, ..max_point(max_point(near, far), max_point(far_left, near_right)) },
                }
            },
        }
    }

    /// The bounds of this box after `transform`.
    pub fn transform(&self, transform: &Transform) -> (r: BoundingBox)
        ensures
            r == self.transformed(*transform),
            self.wf() ==> r.wf(),
    {
        match self {
            BoundingBox::Empty => BoundingBox::Empty,
            BoundingBox::Box { min, max } => {
                let near = transform.apply(*min);
                let far = transform.apply(Vec3 { x: max.x, y: min.y, z: max.z });
                let far_left = transform.apply(Vec3 { x: min.x, y: min.y, z: max.z });
                let near_right = transform.apply(Vec3 { x: max.x, y: min.y, z: min.z });
                let top = transform.apply(Vec3 { x: min.x, y: max.y, z: min.z });
                let lo = lower(lower(near, far), lower(far_left, near_right));
                let hi = upper(upper(near, far), upper(far_left, near_right));
                BoundingBox::Box {
                    min: Vec3 { x: lo.x, y: near.y, z: lo.z },
                    max: Vec3 { x: hi.x, y: top.y, z: hi.z },
                }
            },
        }
    }
}

/// Expanding a box to a point yields a box that holds the point and all the
/// box held before.
pub proof fn lemma_expand_to_point_contains(b: BoundingBox, p: Vec3, q: Vec3)
    ensures
        b.expanded_to_point(p).contains(p),
        b.contains(q) ==> b.expanded_to_point(p).contains(q),
{
}

/// A rotation about the `y` axis, given by the cosine and the sine of its
/// angle in units of `1 / ROTATION_ONE`.
#[derive(Clone, Copy, PartialEq, Eq, Structural, Debug)]
pub struct Rotation {
    pub cos: i32,
    pub sin: i32,
}

/// A rigid placement on the ground: a rotation about the `y` axis followed by
/// a translation.
#[derive(Clone, Copy, PartialEq, Eq, Structural, Debug)]
pub struct Transform {
    pub translation: Vec3,
    pub rotation: Rotation,
}

impl Rotation {
    /// The rotation that turns nothing.
    pub open spec fn identity_spec() -> Rotation {
        Rotation { cos: ROTATION_ONE, sin: 0 }
    }

    /// The rotation by no angle.
    #[verifier::when_used_as_spec(identity_spec)]
    pub fn identity() -> (r: Rotation)
        ensures
            r == Rotation::identity_spec(),
    {
        Rotation { cos: ROTATION_ONE, sin: 0 }
    }

    /// The rotation by `turns` quarter turns, which maps the lattice onto
    /// itself.
    pub fn quarter_turns(turns: u8) -> (r: Rotation)
        ensures
            r.is_exact(),
            turns % 4 == 0 ==> r == Rotation::identity_spec(),
            turns % 4 == 1 ==> r == (Rotation { cos: 0, sin: ROTATION_ONE }),
            turns % 4 == 2 ==> r.cos == -ROTATION_ONE && r.sin == 0,
            turns % 4 == 3 ==> r.cos == 0 && r.sin == -ROTATION_ONE,
    {
        let t: u8 = turns % 4;
        if t == 0 {
            Rotation { cos: ROTATION_ONE, sin: 0 }
        } else if t == 1 {
            Rotation { cos: 0, sin: ROTATION_ONE }
        } else if t == 2 {
            Rotation { cos: -ROTATION_ONE, sin: 0 }
        } else {
            Rotation { cos: 0, sin: -ROTATION_ONE }
        }
    }

    /// A rotation is exact if it is a whole number of quarter turns: only
    /// those keep every lattice point on the lattice without rounding.
    pub open spec fn is_exact(self) -> bool {
        ||| (self.cos == ROTATION_ONE && self.sin == 0)
        ||| (self.cos == 0 && self.sin == ROTATION_ONE)
        ||| (self.cos == -ROTATION_ONE && self.sin == 0)
        ||| (self.cos == 0 && self.sin == -ROTATION_ONE)
    }

    /// The `x` coordinate of the point `(x, z)` after the rotation, rounded.
    pub open spec fn rotated_x(self, x: int, z: int) -> int {
        div_round(self.cos * x + self.sin * z, ROTATION_ONE as int)
    }

    /// The `z` coordinate of the point `(x, z)` after the rotation, rounded.
    pub open spec fn rotated_z(self, x: int, z: int) -> int {
        div_round(self.cos * z - self.sin * x, ROTATION_ONE as int)
    }

    /// The `x` coordinate of the point `(x, z)` after the opposite rotation.
    pub open spec fn unrotated_x(self, x: int, z: int) -> int {
        div_round(self.cos * x - self.sin * z, ROTATION_ONE as int)
    }

    /// The `z` coordinate of the point `(x, z)` after the opposite rotation.
    pub open spec fn unrotated_z(self, x: int, z: int) -> int {
        div_round(self.cos * z + self.sin * x, ROTATION_ONE as int)
    }

    /// Computes `div_round(a * x + b * z, ROTATION_ONE)`.
    fn combine(a: i64, x: i64, b: i64, z: i64) -> (r: i128)
        requires
            -0x8000_0000 <= a <= 0x8000_0000,
            -0x8000_0000 <= b <= 0x8000_0000,
            -0x2_0000_0000 <= x <= 0x2_0000_0000,
            -0x2_0000_0000 <= z <= 0x2_0000_0000,
        ensures
            r == div_round(a * x + b * z, ROTATION_ONE as int),
            -0x8_0000_0000_0000_0000 <= r <= 0x8_0000_0000_0000_0000,
    {
        assert(-(0x8000_0000 * 0x2_0000_0000) <= a * x <= 0x8000_0000 * 0x2_0000_0000)
            by (nonlinear_arith)
            requires
                -0x8000_0000 <= a <= 0x8000_0000,
                -0x2_0000_0000 <= x <= 0x2_0000_0000,
        ;
        assert(-(0x8000_0000 * 0x2_0000_0000) <= b * z <= 0x8000_0000 * 0x2_0000_0000)
            by (nonlinear_arith)
            requires
                -0x8000_0000 <= b <= 0x8000_0000,
                -0x2_0000_0000 <= z <= 0x2_0000_0000,
        ;
        let n: i128 = mul_wide(a, x) + mul_wide(b, z);
        div_rounded(n, ROTATION_ONE as i128)
    }
}

impl Transform {
    /// The transform that moves nothing.
    pub open spec fn identity_spec() -> Transform {
        Transform { translation: Vec3 { x: 0, y: 0, z: 0 }, rotation: Rotation::identity_spec() }
    }

    /// The placement that moves nothing.
    #[verifier::when_used_as_spec(identity_spec)]
    pub fn identity() -> (r: Transform)
        ensures
            r == Transform::identity_spec(),
    {
        Transform { translation: Vec3 { x: 0, y: 0, z: 0 }, rotation: Rotation::identity() }
    }

    /// The image of `p`: `p` rotated about the `y` axis, then translated.
    /// Each coordinate is rounded to the lattice and saturates.
    pub open spec fn apply_spec(self, p: Vec3) -> Vec3 {
        Vec3 {
            x: sat32(self.rotation.rotated_x(p.x as int, p.z as int) + self.translation.x) as i32,
            y: sat32(p.y + self.translation.y) as i32,
            z: sat32(self.rotation.rotated_z(p.x as int, p.z as int) + self.translation.z) as i32,
        }
    }

    /// The point whose image is `p`, up to rounding: the translation is taken
    /// back, then the rotation is undone.
    pub open spec fn inverse_apply_spec(self, p: Vec3) -> Vec3 {
        let dx = p.x - self.translation.x;
        let dz = p.z - self.translation.z;
        Vec3 {
            x: sat32(self.rotation.unrotated_x(dx, dz)) as i32,
            y: sat32(p.y - self.translation.y) as i32,
            z: sat32(self.rotation.unrotated_z(dx, dz)) as i32,
        }
    }

    /// The image of `p`: `p` rotated about the `y` axis, then moved.
    #[verifier::when_used_as_spec(apply_spec)]
    pub fn apply(self, p: Vec3) -> (r: Vec3)
        ensures
            r == self.apply_spec(p),
    {
        let c: i64 = self.rotation.cos as i64;
        let s: i64 = self.rotation.sin as i64;
        let rx: i128 = Rotation::combine(c, p.x as i64, s, p.z as i64);
        assert(c * p.z - s * p.x == c * p.z + (-s) * p.x) by (nonlinear_arith);
        let rz: i128 = Rotation::combine(c, p.z as i64, -s, p.x as i64);
        Vec3 {
            x: saturate(rx + self.translation.x as i128),
            y: saturate(p.y as i128 + self.translation.y as i128),
            z: saturate(rz + self.translation.z as i128),
        }
    }

    /// The point that `p` is the image of, as far as rounding allows: `p`
    /// moved back, then rotated back.
    #[verifier::when_used_as_spec(inverse_apply_spec)]
    pub fn inverse_apply(self, p: Vec3) -> (r: Vec3)
        ensures
            r == self.inverse_apply_spec(p),
    {
        let c: i64 = self.rotation.cos as i64;
        let s: i64 = self.rotation.sin as i64;
        let dx: i64 = p.x as i64 - self.translation.x as i64;
        let dz: i64 = p.z as i64 - self.translation.z as i64;
        assert(c * dx - s * dz == c * dx + (-s) * dz) by (nonlinear_arith);
        let rx: i128 = Rotation::combine(c, dx, -s, dz);
        let rz: i128 = Rotation::combine(c, dz, s, dx);
        Vec3 {
            x: saturate(rx),
            y: saturate(p.y as i128 - self.translation.y as i128),
            z: saturate(rz),
        }
    }
}

/// Whether `transform` moves `p` without turning it and without a
/// coordinate that saturates.
pub open spec fn moved_plainly(transform: Transform, p: Vec3) -> bool {
    &&& transform.rotation == Rotation::identity_spec()
    &&& i32::MIN <= p.x + transform.translation.x <= i32::MAX
    &&& i32::MIN <= p.y + transform.translation.y <= i32::MAX
    &&& i32::MIN <= p.z + transform.translation.z <= i32::MAX
}

/// A transform that does not turn moves a point by its translation, as long
/// as no coordinate saturates; two such points stay as far apart as they
/// were.
pub proof fn lemma_moved_plainly(transform: Transform, p: Vec3, q: Vec3)
    requires
        moved_plainly(transform, p),
    ensures
        transform.apply_spec(p).x == p.x + transform.translation.x,
        transform.apply_spec(p).y == p.y + transform.translation.y,
        transform.apply_spec(p).z == p.z + transform.translation.z,
        moved_plainly(transform, q) ==> dist_sq(transform.apply_spec(p), transform.apply_spec(q))
            == dist_sq(p, q),
{
    let one = ROTATION_ONE as int;
    lemma_unturned(p.x as int);
    lemma_unturned(p.z as int);
    assert(one * p.x + 0 * p.z == one * p.x) by (nonlinear_arith);
    assert(one * p.z - 0 * p.x == one * p.z) by (nonlinear_arith);
    if moved_plainly(transform, q) {
        lemma_unturned(q.x as int);
        lemma_unturned(q.z as int);
        assert(one * q.x + 0 * q.z == one * q.x) by (nonlinear_arith);
        assert(one * q.z - 0 * q.x == one * q.z) by (nonlinear_arith);
    }
}

/// One times a number, divided by one, is the number.
proof fn lemma_unturned(x: int)
    ensures
        div_round(ROTATION_ONE * x, ROTATION_ONE as int) == x,
{
    let one = ROTATION_ONE as int;
    assert(2 * (one * x) + one == x * (2 * one) + one) by (nonlinear_arith);
    vstd::arithmetic::div_mod::lemma_fundamental_div_mod_converse(
        2 * (one * x) + one,
        2 * one,
        x,
        one,
    );
}

} // verus!
