//! Where do two boundary edges of different islands meet? The geometry of
//! boundary links.

use vstd::prelude::*;
use crate::math::{
    area2, dist_ceil, div_round, div_rounded, isqrt, lemma_dist_sq_bound, mul_scaled, mul_wide,
    sat32, saturate, sqrt_floor, triangle_area_2, Vec3,
};
use crate::nav_mesh::{midpoint, midpoint_of};

verus! {

/// How far apart two boundary edges may be and still be linked.
#[derive(Clone, Copy, PartialEq, Eq, Structural, Debug)]
pub struct LinkTolerance {
    /// The greatest distance on the ground between an end of one edge and the
    /// line of the other.
    pub horizontal: u32,
    /// The greatest difference in height between an end of one edge and the
    /// line of the other.
    pub vertical: u32,
}

/// The tolerance of an archipelago that was given none.
pub const DEFAULT_LINK_TOLERANCE: u32 = 10;

/// How far `q` is along the edge from `a0` to `a1` on the ground, as a
/// multiple of the edge's length: 0 at `a0`, and `flat_length_sq` at `a1`.
pub open spec fn along(a0: Vec3, a1: Vec3, q: Vec3) -> int {
    (a1.x - a0.x) * (q.x - a0.x) + (a1.z - a0.z) * (q.z - a0.z)
}

/// The squared length of the edge from `a0` to `a1` on the ground.
pub open spec fn flat_length_sq(a0: Vec3, a1: Vec3) -> int {
    (a1.x - a0.x) * (a1.x - a0.x) + (a1.z - a0.z) * (a1.z - a0.z)
}

/// The point of the line through `a0` and `a1` that is `t` along the edge,
/// rounded to the lattice. The edge must have a length on the ground.
pub open spec fn point_along(a0: Vec3, a1: Vec3, t: int) -> Vec3 {
    let length_sq = flat_length_sq(a0, a1);
    Vec3 {
        x: sat32(a0.x + div_round((a1.x - a0.x) * t, length_sq)) as i32,
        y: sat32(a0.y + div_round((a1.y - a0.y) * t, length_sq)) as i32,
        z: sat32(a0.z + div_round((a1.z - a0.z) * t, length_sq)) as i32,
    }
}

/// Whether `q` is near the line through `a0` and `a1`: on the ground no
/// farther than the horizontal tolerance, with the length of the edge rounded
/// down, and in height no farther than the vertical tolerance from the point
/// of the line beside it.
pub open spec fn near_line(a0: Vec3, a1: Vec3, q: Vec3, tolerance: LinkTolerance) -> bool {
    let length_sq = flat_length_sq(a0, a1);
    let reach = tolerance.horizontal * sqrt_floor(length_sq);
    let beside = a0.y + div_round((a1.y - a0.y) * along(a0, a1, q), length_sq);
    &&& -reach <= area2(a0, a1, q) <= reach
    &&& -tolerance.vertical <= q.y - beside <= tolerance.vertical
}

/// The stretch of the edge from `a0` to `a1` that the edge from `b0` to `b1`
/// runs along in the opposite direction, if the second edge is near the line
/// of the first and the stretch has a length. Boundary edges run
/// counterclockwise, so where two islands meet their edges run in opposite
/// directions.
pub open spec fn edge_link(a0: Vec3, a1: Vec3, b0: Vec3, b1: Vec3, tolerance: LinkTolerance) -> Option<
    (Vec3, Vec3),
> {
    let length_sq = flat_length_sq(a0, a1);
    let enters = along(a0, a1, b1);
    let leaves = along(a0, a1, b0);
    let from = if enters < 0 {
        0
    } else {
        enters
    };
    let to = if leaves > length_sq {
        length_sq
    } else {
        leaves
    };
    if length_sq > 0 && near_line(a0, a1, b0, tolerance) && near_line(a0, a1, b1, tolerance) && from
        < to {
        Some((point_along(a0, a1, from), point_along(a0, a1, to)))
    } else {
        None
    }
}

/// The cost of a link: the distance from the center of the node left to the
/// middle of the portal, and on to the center of the node entered, each
/// rounded up.
pub open spec fn link_cost(from: Vec3, portal: (Vec3, Vec3), to: Vec3) -> int {
    let middle = midpoint(portal.0, portal.1);
    dist_ceil(from, middle) + dist_ceil(middle, to)
}

proof fn lemma_flat_bounds(a0: Vec3, a1: Vec3, q: Vec3)
    ensures
        0 <= flat_length_sq(a0, a1) <= 0x2_0000_0000_0000_0000,
        -0x2_0000_0000_0000_0000 <= along(a0, a1, q) <= 0x2_0000_0000_0000_0000,
{
    let dx = a1.x - a0.x;
    let dz = a1.z - a0.z;
    let qx = q.x - a0.x;
    let qz = q.z - a0.z;
    assert(0 <= dx * dx <= 0x1_0000_0000_0000_0000) by (nonlinear_arith)
        requires
            -0x1_0000_0000 <= dx <= 0x1_0000_0000,
    ;
    assert(0 <= dz * dz <= 0x1_0000_0000_0000_0000) by (nonlinear_arith)
        requires
            -0x1_0000_0000 <= dz <= 0x1_0000_0000,
    ;
    assert(-0x1_0000_0000_0000_0000 <= dx * qx <= 0x1_0000_0000_0000_0000) by (nonlinear_arith)
        requires
            -0x1_0000_0000 <= dx <= 0x1_0000_0000,
            -0x1_0000_0000 <= qx <= 0x1_0000_0000,
    ;
    assert(-0x1_0000_0000_0000_0000 <= dz * qz <= 0x1_0000_0000_0000_0000) by (nonlinear_arith)
        requires
            -0x1_0000_0000 <= dz <= 0x1_0000_0000,
            -0x1_0000_0000 <= qz <= 0x1_0000_0000,
    ;
}

fn flat_length_squared(a0: Vec3, a1: Vec3) -> (r: i128)
    ensures
        r == flat_length_sq(a0, a1),
        0 <= r <= 0x2_0000_0000_0000_0000,
{
    proof {
        lemma_flat_bounds(a0, a1, a0);
    }
    let dx: i64 = a1.x as i64 - a0.x as i64;
    let dz: i64 = a1.z as i64 - a0.z as i64;
    mul_wide(dx, dx) + mul_wide(dz, dz)
}

fn measure_along(a0: Vec3, a1: Vec3, q: Vec3) -> (r: i128)
    ensures
        r == along(a0, a1, q),
        -0x2_0000_0000_0000_0000 <= r <= 0x2_0000_0000_0000_0000,
{
    proof {
        lemma_flat_bounds(a0, a1, q);
    }
    let dx: i64 = a1.x as i64 - a0.x as i64;
    let dz: i64 = a1.z as i64 - a0.z as i64;
    let qx: i64 = q.x as i64 - a0.x as i64;
    let qz: i64 = q.z as i64 - a0.z as i64;
    mul_wide(dx, qx) + mul_wide(dz, qz)
}

fn offset_along(delta: i64, t: i128, length_sq: i128) -> (r: i128)
    requires
        -0x1_0000_0000 <= delta <= 0x1_0000_0000,
        -0x2_0000_0000_0000_0000 <= t <= 0x2_0000_0000_0000_0000,
        0 < length_sq <= 0x2_0000_0000_0000_0000,
    ensures
        r == div_round(delta * t, length_sq as int),
        -0x1_0000_0000_0000_0000_0000_0000_0000 <= r <= 0x1_0000_0000_0000_0000_0000_0000_0000,
{
    assert(delta * t == t * delta) by (nonlinear_arith);
    div_rounded(mul_scaled(t, delta), length_sq)
}

fn locate_along(a0: Vec3, a1: Vec3, t: i128, length_sq: i128) -> (r: Vec3)
    requires
        length_sq == flat_length_sq(a0, a1),
        length_sq > 0,
        -0x2_0000_0000_0000_0000 <= t <= 0x2_0000_0000_0000_0000,
    ensures
        r == point_along(a0, a1, t as int),
{
    proof {
        lemma_flat_bounds(a0, a1, a0);
    }
    let dx: i64 = a1.x as i64 - a0.x as i64;
    let dy: i64 = a1.y as i64 - a0.y as i64;
    let dz: i64 = a1.z as i64 - a0.z as i64;
    Vec3 {
        x: saturate(a0.x as i128 + offset_along(dx, t, length_sq)),
        y: saturate(a0.y as i128 + offset_along(dy, t, length_sq)),
        z: saturate(a0.z as i128 + offset_along(dz, t, length_sq)),
    }
}

fn is_near_line(a0: Vec3, a1: Vec3, q: Vec3, tolerance: LinkTolerance, length_sq: i128) -> (r: bool)
    requires
        length_sq == flat_length_sq(a0, a1),
        length_sq > 0,
    ensures
        r == near_line(a0, a1, q, tolerance),
{
    proof {
        lemma_flat_bounds(a0, a1, q);
    }
    let root: u64 = isqrt(length_sq as u128);
    proof {
        if root > 0x2_0000_0000 {
            assert(root * root > 0x2_0000_0000_0000_0000) by (nonlinear_arith)
                requires
                    root > 0x2_0000_0000,
            ;
        }
        assert(0 <= tolerance.horizontal * root <= 0xffff_ffff * 0x2_0000_0000)
            by (nonlinear_arith)
            requires
                0 <= tolerance.horizontal <= 0xffff_ffff,
                0 <= root <= 0x2_0000_0000,
        ;
    }
    let reach: i128 = (tolerance.horizontal as i128) * (root as i128);
    let across: i128 = triangle_area_2(a0, a1, q);
    if across < -reach || across > reach {
        return false;
    }
    let dy: i64 = a1.y as i64 - a0.y as i64;
    let beside: i128 = a0.y as i128 + offset_along(dy, measure_along(a0, a1, q), length_sq);
    let apart: i128 = q.y as i128 - beside;
    -(tolerance.vertical as i128) <= apart && apart <= tolerance.vertical as i128
}

/// The stretch of the edge from `a0` to `a1` that the edge from `b0` to `b1`
/// runs along in the opposite direction, if there is one.
pub fn link_edges(a0: Vec3, a1: Vec3, b0: Vec3, b1: Vec3, tolerance: LinkTolerance) -> (r: Option<
    (Vec3, Vec3),
>)
    ensures
        r == edge_link(a0, a1, b0, b1, tolerance),
{
    let length_sq: i128 = flat_length_squared(a0, a1);
    if length_sq <= 0 {
        return None;
    }
    if !is_near_line(a0, a1, b0, tolerance, length_sq) {
        return None;
    }
    if !is_near_line(a0, a1, b1, tolerance, length_sq) {
        return None;
    }
    let enters: i128 = measure_along(a0, a1, b1);
    let leaves: i128 = measure_along(a0, a1, b0);
    let from: i128 = if enters < 0 {
        0
    } else {
        enters
    };
    let to: i128 = if leaves > length_sq {
        length_sq
    } else {
        leaves
    };
    if from < to {
        Some((locate_along(a0, a1, from, length_sq), locate_along(a0, a1, to, length_sq)))
    } else {
        None
    }
}

/// The cost of a link from a node with center `from` across `portal` to a
/// node with center `to`.
pub fn cost_of_link(from: Vec3, portal: (Vec3, Vec3), to: Vec3) -> (r: u64)
    ensures
        r == link_cost(from, portal, to),
{
    let middle = midpoint_of(portal.0, portal.1);
    from.distance_ceil(middle) + middle.distance_ceil(to)
}

} // verus!
