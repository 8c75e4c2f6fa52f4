//! Paths through an archipelago, and the straight path along one.

use vstd::prelude::*;
use crate::island::IslandId;
use crate::math::{area2, triangle_area_2, Vec3};
use crate::nav_data::{
    island_of, node_in, world_edge, BoundaryLinkId, NavigationData, NodeRef,
};
use crate::nav_mesh::{is_position, MeshEdgeRef};

verus! {

/// A stretch of a path within one island.
#[derive(Clone, Debug)]
pub struct IslandSegment {
    /// The island.
    pub island_id: IslandId,
    /// The polygons that the path passes through, in order.
    pub corridor: Vec<usize>,
    /// For each polygon of the corridor but the last, the edge through which
    /// the path leaves it for the next.
    pub portal_edge_index: Vec<usize>,
}

/// The step of a path from one island to the next.
#[derive(Clone, Copy, PartialEq, Eq, Structural, Debug)]
pub struct BoundaryLinkSegment {
    /// The node that the step leaves: the last of the island segment before.
    pub starting_node: NodeRef,
    /// The link that the step takes.
    pub boundary_link: BoundaryLinkId,
}

/// A path: island segments, with a boundary link from each to the next.
#[derive(Clone, Debug)]
pub struct Path {
    /// The stretches of the path within islands.
    pub island_segments: Vec<IslandSegment>,
    /// The steps between the island segments: one less than there are island
    /// segments.
    pub boundary_link_segments: Vec<BoundaryLinkSegment>,
}

/// A place on a path: a polygon of the corridor of an island segment. It
/// also names the portal through which the path leaves that polygon, be it
/// an edge of the polygon or, at the end of an island segment, a boundary
/// link.
#[derive(Clone, Copy, PartialEq, Eq, Structural, Debug)]
pub struct PathIndex {
    /// The index of the island segment.
    pub segment_index: usize,
    /// The index in the corridor of the segment.
    pub portal_index: usize,
}

impl PathIndex {
    /// The place of polygon `corridor_index` of island segment
    /// `segment_index`.
    pub fn from_corridor_index(segment_index: usize, corridor_index: usize) -> (r: PathIndex)
        ensures
            r == (PathIndex { segment_index, portal_index: corridor_index }),
    {
        PathIndex { segment_index, portal_index: corridor_index }
    }
}

/// The node at place `c` of the corridor of `segment`.
pub open spec fn segment_node(segment: IslandSegment, c: int) -> NodeRef {
    NodeRef { island_id: segment.island_id, polygon_index: segment.corridor[c] }
}

/// The nodes of the corridor of `segment`, in order.
pub open spec fn segment_nodes(segment: IslandSegment) -> Seq<NodeRef> {
    Seq::new(segment.corridor.len() as nat, |c: int| segment_node(segment, c))
}

/// The nodes of the corridors of `segments`, in order.
pub open spec fn nodes_of(segments: Seq<IslandSegment>) -> Seq<NodeRef>
    decreases segments.len(),
{
    if segments.len() == 0 {
        Seq::empty()
    } else {
        nodes_of(segments.drop_last()) + segment_nodes(segments.last())
    }
}

/// `segment` is a way through its island: its polygons are polygons of the
/// island's mesh, and each edge leads from its polygon to the next.
pub open(crate) spec fn segment_ok(nav: &NavigationData, segment: IslandSegment) -> bool {
    let mesh = island_of(nav.islands, segment.island_id).mesh();
    &&& segment.corridor.len() >= 1
    &&& segment.portal_edge_index.len() == segment.corridor.len() - 1
    &&& forall|c: int|
        0 <= c < segment.corridor.len() ==> node_in(nav.islands, #[trigger] segment_node(segment, c))
    &&& forall|c: int|
        0 <= c < segment.portal_edge_index.len() ==> {
            &&& is_position(
                mesh.polys(),
                segment.corridor[c] as int,
                (#[trigger] segment.portal_edge_index[c]) as int,
            )
            &&& mesh.link(segment.corridor[c] as int, segment.portal_edge_index[c] as int) is Some
            &&& mesh.link(
                segment.corridor[c] as int,
                segment.portal_edge_index[c] as int,
            )->0.polygon_index == segment.corridor[c + 1]
        }
}

/// `step` takes a link of the archipelago from the last node of `before` to
/// the first node of `after`.
pub open(crate) spec fn step_ok(
    nav: &NavigationData,
    step: BoundaryLinkSegment,
    before: IslandSegment,
    after: IslandSegment,
) -> bool {
    &&& nav.has_link(step.boundary_link)
    &&& step.starting_node == segment_node(before, before.corridor.len() - 1)
    &&& nav.link(step.boundary_link).source_node == step.starting_node
    &&& nav.link(step.boundary_link).destination_node == segment_node(after, 0)
}

impl Path {
    /// The corridor of island segment `s`.
    pub open spec fn corridor(&self, s: int) -> Seq<usize> {
        self.island_segments[s].corridor@
    }

    /// The edges of island segment `s`.
    pub open spec fn edges(&self, s: int) -> Seq<usize> {
        self.island_segments[s].portal_edge_index@
    }

    /// The node at place `(s, c)`.
    pub open spec fn node_at(&self, s: int, c: int) -> NodeRef {
        segment_node(self.island_segments[s], c)
    }

    /// Whether `index` is a place on the path.
    pub open spec fn has_index(&self, index: PathIndex) -> bool {
        index.segment_index < self.island_segments.len() && index.portal_index
            < self.island_segments[index.segment_index as int].corridor.len()
    }

    /// The place after `index`, if `index` is a place on the path and not
    /// its last.
    pub open spec fn next_index(&self, index: PathIndex) -> Option<PathIndex> {
        if !self.has_index(index) {
            None
        } else if index.portal_index + 1
            < self.island_segments[index.segment_index as int].corridor.len() {
            Some(
                PathIndex {
                    segment_index: index.segment_index,
                    portal_index: (index.portal_index + 1) as usize,
                },
            )
        } else if index.segment_index + 1 < self.island_segments.len() {
            Some(PathIndex { segment_index: (index.segment_index + 1) as usize, portal_index: 0 })
        } else {
            None
        }
    }

    /// Island segment `s` is a way through its island: its polygons are
    /// polygons of the island's mesh, and each edge leads from its polygon
    /// to the next.
    pub open(crate) spec fn segment_valid(&self, nav: &NavigationData, s: int) -> bool {
        segment_ok(nav, self.island_segments[s])
    }

    /// The step after island segment `s` takes a link of the archipelago
    /// from the last node of that segment to the first of the next.
    pub open(crate) spec fn step_valid(&self, nav: &NavigationData, s: int) -> bool {
        step_ok(
            nav,
            self.boundary_link_segments[s],
            self.island_segments[s],
            self.island_segments[s + 1],
        )
    }

    /// The nodes that the path passes through, in order.
    pub open spec fn nodes(&self) -> Seq<NodeRef> {
        nodes_of(self.island_segments@)
    }

    /// The path is a way through the archipelago as it is.
    pub open(crate) spec fn valid_in(&self, nav: &NavigationData) -> bool {
        &&& self.island_segments.len() >= 1
        &&& self.boundary_link_segments.len() == self.island_segments.len() - 1
        &&& forall|s: int|
            0 <= s < self.island_segments.len() ==> #[trigger] self.segment_valid(nav, s)
        &&& forall|s: int|
            0 <= s < self.boundary_link_segments.len() ==> #[trigger] self.step_valid(nav, s)
    }

    /// The two ends of the portal at `index`, in the world: the left end,
    /// then the right end, as the path passes between them. At the end of an
    /// island segment the portal is that of the boundary link, else it is
    /// the edge to the next polygon.
    pub open(crate) spec fn portal(&self, nav: &NavigationData, index: PathIndex) -> (Vec3, Vec3) {
        let s = index.segment_index as int;
        let c = index.portal_index as int;
        if c == self.edges(s).len() {
            nav.link(self.boundary_link_segments[s].boundary_link).portal
        } else {
            world_edge(nav.islands, self.node_at(s, c), self.edges(s)[c] as int)
        }
    }

    /// The last place on the path.
    pub fn last_index(&self) -> (r: PathIndex)
        requires
            self.island_segments.len() >= 1,
            self.corridor(self.island_segments.len() - 1).len() >= 1,
        ensures
            r.segment_index == self.island_segments.len() - 1,
            r.portal_index == self.corridor(self.island_segments.len() - 1).len() - 1,
            self.has_index(r),
            self.next_index(r) is None,
    {
        let s: usize = self.island_segments.len() - 1;
        PathIndex { segment_index: s, portal_index: self.island_segments[s].corridor.len() - 1 }
    }

    /// The place after `index`, if `index` is a place on the path and not
    /// its last.
    pub fn next(&self, index: PathIndex) -> (r: Option<PathIndex>)
        ensures
            r == self.next_index(index),
    {
        if index.segment_index >= self.island_segments.len() {
            return None;
        }
        let length: usize = self.island_segments[index.segment_index].corridor.len();
        if index.portal_index >= length {
            None
        } else if index.portal_index + 1 < length {
            Some(
                PathIndex {
                    segment_index: index.segment_index,
                    portal_index: index.portal_index + 1,
                },
            )
        } else if index.segment_index + 1 < self.island_segments.len() {
            Some(PathIndex { segment_index: index.segment_index + 1, portal_index: 0 })
        } else {
            None
        }
    }

    /// The two ends of the portal at `index`, in the world.
    pub fn get_portal_endpoints(&self, index: PathIndex, nav_data: &NavigationData) -> (r: (
        Vec3,
        Vec3,
    ))
        requires
            nav_data.wf(),
            self.valid_in(nav_data),
            self.has_index(index),
            self.next_index(index) is Some,
        ensures
            r == self.portal(nav_data, index),
    {
        let s: usize = index.segment_index;
        let c: usize = index.portal_index;
        let segment = &self.island_segments[s];
        assert(self.segment_valid(nav_data, s as int));
        if c == segment.portal_edge_index.len() {
            assert(self.step_valid(nav_data, s as int));
            let step = &self.boundary_link_segments[s];
            match nav_data.boundary_links.get(step.boundary_link.0) {
                Some(link) => link.portal,
                None => (Vec3::zero(), Vec3::zero()),
            }
        } else {
            assert(node_in(nav_data.islands, self.node_at(s as int, c as int)));
            match nav_data.islands.get(segment.island_id.0) {
                Some(slot) => match &slot.island.nav_data {
                    Some(data) => {
                        let ends = data.nav_mesh.get_edge_points(
                            MeshEdgeRef {
                                polygon_index: segment.corridor[c],
                                edge_index: segment.portal_edge_index[c],
                            },
                        );
                        (data.transform.apply(ends.0), data.transform.apply(ends.1))
                    },
                    None => (Vec3::zero(), Vec3::zero()),
                },
                None => (Vec3::zero(), Vec3::zero()),
            }
        }
    }
}

/// The funnel of the straight-path search: the point it opens from, and the
/// two places and points that bound it.
pub struct Funnel {
    /// The point that the funnel opens from.
    pub apex: Vec3,
    /// The place of the left bound.
    pub left_index: PathIndex,
    /// The left bound.
    pub left: Vec3,
    /// The place of the right bound.
    pub right_index: PathIndex,
    /// The right bound.
    pub right: Vec3,
}

/// What passing a portal does to a funnel.
pub enum FunnelStep {
    /// The straight path turns a corner: at this place, at this point.
    Corner(PathIndex, Vec3),
    /// The straight path goes on, within this funnel.
    Continue(Funnel),
}

/// Passes the portal at place `index`, with the ends `left` and `right`.
/// First the right end: where it is not outside the right bound it becomes
/// the right bound, unless it is beyond the left bound, in which case the
/// left bound is a corner. Then the left end likewise.
pub open spec fn funnel_step(funnel: Funnel, index: PathIndex, left: Vec3, right: Vec3) -> FunnelStep {
    if area2(funnel.apex, funnel.right, right) <= 0 && area2(funnel.apex, funnel.left, right) < 0 {
        FunnelStep::Corner(funnel.left_index, funnel.left)
    } else {
        let narrowed = if area2(funnel.apex, funnel.right, right) <= 0 {
            Funnel { right_index: index, right: right, ..funnel }
        } else {
            funnel
        };
        if area2(narrowed.apex, narrowed.left, left) >= 0 {
            if area2(narrowed.apex, narrowed.right, left) <= 0 {
                FunnelStep::Continue(Funnel { left_index: index, left: left, ..narrowed })
            } else {
                FunnelStep::Corner(narrowed.right_index, narrowed.right)
            }
        } else {
            FunnelStep::Continue(narrowed)
        }
    }
}

fn pass_portal(funnel: Funnel, index: PathIndex, left: Vec3, right: Vec3) -> (r: FunnelStep)
    ensures
        r == funnel_step(funnel, index, left, right),
{
    let mut narrowed = funnel;
    if triangle_area_2(narrowed.apex, narrowed.right, right) <= 0 {
        if triangle_area_2(narrowed.apex, narrowed.left, right) >= 0 {
            narrowed.right_index = index;
            narrowed.right = right;
        } else {
            return FunnelStep::Corner(narrowed.left_index, narrowed.left);
        }
    }
    if triangle_area_2(narrowed.apex, narrowed.left, left) >= 0 {
        if triangle_area_2(narrowed.apex, narrowed.right, left) <= 0 {
            narrowed.left_index = index;
            narrowed.left = left;
        } else {
            return FunnelStep::Corner(narrowed.right_index, narrowed.right);
        }
    }
    FunnelStep::Continue(narrowed)
}

impl Path {
    /// Where the straight path from the apex of `funnel` turns next, having
    /// passed the portals up to the one at `at`: the place and the point of
    /// the first corner, or `end_index` and `end_point` where the way is
    /// straight to the end. The portal at `end_index` counts as the point
    /// `end_point`; the search also ends at the last place of the path.
    pub open(crate) spec fn straight_from(
        &self,
        nav: &NavigationData,
        funnel: Funnel,
        at: PathIndex,
        end_index: PathIndex,
        end_point: Vec3,
    ) -> (PathIndex, Vec3)
        decreases
            self.island_segments.len() - at.segment_index,
            self.island_segments[at.segment_index as int].corridor.len() - at.portal_index,
    {
        match self.next_index(at) {
            None => (end_index, end_point),
            Some(index) => {
                if at == end_index {
                    (end_index, end_point)
                } else if index != end_index && self.next_index(index) is None {
                    (end_index, end_point)
                } else {
                    let ends = if index == end_index {
                        (end_point, end_point)
                    } else {
                        self.portal(nav, index)
                    };
                    match funnel_step(funnel, index, ends.0, ends.1) {
                        FunnelStep::Corner(place, point) => (place, point),
                        FunnelStep::Continue(narrowed) => self.straight_from(
                            nav,
                            narrowed,
                            index,
                            end_index,
                            end_point,
                        ),
                    }
                }
            },
        }
    }

    /// Where the straight path from `start_point` at `start_index` to
    /// `end_point` at `end_index` turns first: the place and the point of
    /// the first corner, or `end_index` and `end_point` where the way is
    /// straight.
    pub open(crate) spec fn next_straight_point(
        &self,
        nav: &NavigationData,
        start_index: PathIndex,
        start_point: Vec3,
        end_index: PathIndex,
        end_point: Vec3,
    ) -> (PathIndex, Vec3) {
        if start_index == end_index || self.next_index(start_index) is None {
            (end_index, end_point)
        } else {
            let ends = self.portal(nav, start_index);
            self.straight_from(
                nav,
                Funnel {
                    apex: start_point,
                    left_index: start_index,
                    left: ends.0,
                    right_index: start_index,
                    right: ends.1,
                },
                start_index,
                end_index,
                end_point,
            )
        }
    }

    /// Where the straight path from `start_point` at `start_index` to
    /// `end_point` at `end_index` turns first.
    pub fn find_next_point_in_straight_path(
        &self,
        nav_data: &NavigationData,
        start_index: PathIndex,
        start_point: Vec3,
        end_index: PathIndex,
        end_point: Vec3,
    ) -> (r: (PathIndex, Vec3))
        requires
            nav_data.wf(),
            self.valid_in(nav_data),
        ensures
            r == self.next_straight_point(nav_data, start_index, start_point, end_index, end_point),
    {
        if start_index == end_index {
            return (end_index, end_point);
        }
        if self.next(start_index).is_none() {
            return (end_index, end_point);
        }
        let ends = self.get_portal_endpoints(start_index, nav_data);
        let mut funnel = Funnel {
            apex: start_point,
            left_index: start_index,
            left: ends.0,
            right_index: start_index,
            right: ends.1,
        };
        let mut at = start_index;
        loop
            invariant
                nav_data.wf(),
                self.valid_in(nav_data),
                self.straight_from(nav_data, funnel, at, end_index, end_point)
                    == self.next_straight_point(
                    nav_data,
                    start_index,
                    start_point,
                    end_index,
                    end_point,
                ),
            decreases
                self.island_segments.len() - at.segment_index,
                self.island_segments[at.segment_index as int].corridor.len() - at.portal_index,
        {
            let index = match self.next(at) {
                Some(index) => index,
                None => {
                    return (end_index, end_point);
                },
            };
            if at == end_index {
                return (end_index, end_point);
            }
            let ends = if index == end_index {
                (end_point, end_point)
            } else {
                if self.next(index).is_none() {
                    return (end_index, end_point);
                }
                self.get_portal_endpoints(index, nav_data)
            };
            match pass_portal(funnel, index, ends.0, ends.1) {
                FunnelStep::Corner(place, point) => {
                    return (place, point);
                },
                FunnelStep::Continue(narrowed) => {
                    funnel = narrowed;
                    at = index;
                },
            }
        }
    }
}

/// Whether `p` lies ahead of `apex` on the way to `end`, on the ground:
/// less than a quarter turn off the direction from `apex` to `end`.
pub open spec fn ahead(apex: Vec3, end: Vec3, p: Vec3) -> bool {
    (end.x - apex.x) * (p.x - apex.x) + (end.z - apex.z) * (p.z - apex.z) > 0
}

/// Whether the straight line from `apex` to `end` passes between `left` and
/// `right`, both of which lie ahead.
pub open spec fn portal_spans(apex: Vec3, end: Vec3, left: Vec3, right: Vec3) -> bool {
    &&& ahead(apex, end, left)
    &&& ahead(apex, end, right)
    &&& area2(apex, end, left) <= 0
    &&& area2(apex, end, right) >= 0
}

/// Turning from `a` to `b` about `apex` is the opposite of turning from `b`
/// to `a`.
pub proof fn lemma_area2_swap(apex: Vec3, a: Vec3, b: Vec3)
    ensures
        area2(apex, a, b) == -area2(apex, b, a),
        area2(apex, a, a) == 0,
{
    assert(area2(apex, a, b) == -area2(apex, b, a)) by (nonlinear_arith)
        requires
            area2(apex, a, b) == (a.x - apex.x) * (b.z - apex.z) - (a.z - apex.z) * (b.x - apex.x),
            area2(apex, b, a) == (b.x - apex.x) * (a.z - apex.z) - (b.z - apex.z) * (a.x - apex.x),
    ;
    assert(area2(apex, a, a) == 0) by (nonlinear_arith)
        requires
            area2(apex, a, a) == (a.x - apex.x) * (a.z - apex.z) - (a.z - apex.z) * (a.x - apex.x),
    ;
}

/// The product of four numbers in the orders that the proof below meets.
proof fn lemma_four(w: int, x: int, y: int, z: int)
    ensures
        (w * x) * (y * z) == (y * x) * (w * z),
        (w * x) * (y * z) == (x * z) * (w * y),
        (w * x) * (y * z) == (x * z) * (y * w),
        (w * x) * (y * z) == (w * y) * (x * z),
{
    assert((w * x) * (y * z) == (y * x) * (w * z)) by (nonlinear_arith);
    assert((w * x) * (y * z) == (x * z) * (w * y)) by (nonlinear_arith);
    assert((w * x) * (y * z) == (x * z) * (y * w)) by (nonlinear_arith);
    assert((w * x) * (y * z) == (w * y) * (x * z)) by (nonlinear_arith);
}

/// Of two points ahead, one to the one side of the line from `apex` to
/// `end` and one to the other, the second is to that same side of the first.
pub proof fn lemma_sides(apex: Vec3, end: Vec3, u: Vec3, v: Vec3)
    requires
        ahead(apex, end, u),
        ahead(apex, end, v),
        area2(apex, end, u) <= 0,
        area2(apex, end, v) >= 0,
    ensures
        area2(apex, u, v) >= 0,
        area2(apex, v, u) <= 0,
{
    let dx = end.x - apex.x;
    let dz = end.z - apex.z;
    let ax = u.x - apex.x;
    let az = u.z - apex.z;
    let bx = v.x - apex.x;
    let bz = v.z - apex.z;
    let cross = ax * bz - az * bx;
    let dd = dx * dx + dz * dz;
    let dot_a = dx * ax + dz * az;
    let dot_b = dx * bx + dz * bz;
    let cross_a = dx * az - dz * ax;
    let cross_b = dx * bz - dz * bx;
    let a = dx * ax;
    let b = dz * az;
    let c = dx * bz;
    let d = dz * bx;
    let e = dx * az;
    let f = dz * ax;
    let g = dx * bx;
    let h = dz * bz;
    let p = ax * bz;
    let q = az * bx;
    let xx = dx * dx;
    let zz = dz * dz;
    assert((a + b) * (c - d) == a * c - a * d + b * c - b * d) by (nonlinear_arith);
    assert((e - f) * (g + h) == e * g + e * h - f * g - f * h) by (nonlinear_arith);
    assert((p - q) * (xx + zz) == p * xx - q * xx + p * zz - q * zz) by (nonlinear_arith);
    lemma_four(dx, ax, dz, bx);
    assert(a * d == f * g);
    lemma_four(dz, az, dx, bz);
    assert(b * c == e * h);
    lemma_four(dx, ax, dx, bz);
    lemma_four(ax, bz, dx, dx);
    assert(a * c == p * xx);
    lemma_four(dz, az, dz, bx);
    lemma_four(az, bx, dz, dz);
    assert(b * d == q * zz);
    lemma_four(dx, az, dx, bx);
    lemma_four(az, bx, dx, dx);
    assert(e * g == q * xx);
    lemma_four(dz, ax, dz, bz);
    lemma_four(ax, bz, dz, dz);
    assert(f * h == p * zz);
    assert(cross * dd == dot_a * cross_b - cross_a * dot_b);
    assert(dot_a * cross_b >= 0) by (nonlinear_arith)
        requires
            dot_a > 0,
            cross_b >= 0,
    ;
    assert(cross_a * dot_b <= 0) by (nonlinear_arith)
        requires
            cross_a <= 0,
            dot_b > 0,
    ;
    assert(dd >= 0) by (nonlinear_arith)
        requires
            dd == dx * dx + dz * dz,
    ;
    assert(cross >= 0) by (nonlinear_arith)
        requires
            cross * dd >= 0,
            dd >= 0,
            dd == dx * dx + dz * dz,
            dot_a == dx * ax + dz * az,
            dot_a > 0,
    ;
    lemma_area2_swap(apex, u, v);
}

/// Of three points ahead, where the second is not to the left of the first
/// and the third not to the left of the second, the third is not to the left
/// of the first.
pub proof fn lemma_turns(apex: Vec3, toward: Vec3, u: Vec3, v: Vec3, w: Vec3)
    requires
        ahead(apex, toward, u),
        ahead(apex, toward, v),
        ahead(apex, toward, w),
        area2(apex, u, v) >= 0,
        area2(apex, v, w) >= 0,
    ensures
        area2(apex, u, w) >= 0,
{
    let dx = toward.x - apex.x;
    let dz = toward.z - apex.z;
    let ux = u.x - apex.x;
    let uz = u.z - apex.z;
    let vx = v.x - apex.x;
    let vz = v.z - apex.z;
    let wx = w.x - apex.x;
    let wz = w.z - apex.z;
    let dot_u = dx * ux + dz * uz;
    let dot_v = dx * vx + dz * vz;
    let dot_w = dx * wx + dz * wz;
    let uv = ux * vz - uz * vx;
    let vw = vx * wz - vz * wx;
    let uw = ux * wz - uz * wx;
    let a1 = dx * vx;
    let a2 = dz * vz;
    let b1 = ux * wz;
    let b2 = uz * wx;
    let c1 = dx * wx;
    let c2 = dz * wz;
    let e1 = ux * vz;
    let e2 = uz * vx;
    let f1 = dx * ux;
    let f2 = dz * uz;
    let g1 = vx * wz;
    let g2 = vz * wx;
    assert((a1 + a2) * (b1 - b2) == a1 * b1 - a1 * b2 + a2 * b1 - a2 * b2) by (nonlinear_arith);
    assert((c1 + c2) * (e1 - e2) == c1 * e1 - c1 * e2 + c2 * e1 - c2 * e2) by (nonlinear_arith);
    assert((f1 + f2) * (g1 - g2) == f1 * g1 - f1 * g2 + f2 * g1 - f2 * g2) by (nonlinear_arith);
    assert((dx * wx) * (ux * vz) == (dx * ux) * (vz * wx)) by (nonlinear_arith);
    assert((dz * wz) * (uz * vx) == (dz * uz) * (vx * wz)) by (nonlinear_arith);
    assert((dx * vx) * (ux * wz) == (dx * ux) * (vx * wz)) by (nonlinear_arith);
    assert((dx * vx) * (uz * wx) == (dx * wx) * (uz * vx)) by (nonlinear_arith);
    assert((dz * vz) * (ux * wz) == (dz * wz) * (ux * vz)) by (nonlinear_arith);
    assert((dz * vz) * (uz * wx) == (dz * uz) * (vz * wx)) by (nonlinear_arith);
    assert(dot_v * uw == dot_w * uv + dot_u * vw);
    assert(dot_w * uv >= 0) by (nonlinear_arith)
        requires
            dot_w > 0,
            uv >= 0,
    ;
    assert(dot_u * vw >= 0) by (nonlinear_arith)
        requires
            dot_u > 0,
            vw >= 0,
    ;
    assert(uw >= 0) by (nonlinear_arith)
        requires
            dot_v * uw >= 0,
            dot_v > 0,
    ;
}

/// Passing a portal that the straight line to the end passes through leaves
/// a funnel that the line passes through.
proof fn lemma_step_goes_on(funnel: Funnel, index: PathIndex, end: Vec3, left: Vec3, right: Vec3)
    requires
        ahead(funnel.apex, end, end),
        portal_spans(funnel.apex, end, funnel.left, funnel.right),
        portal_spans(funnel.apex, end, left, right) || (left == end && right == end),
    ensures
        funnel_step(funnel, index, left, right) is Continue,
        portal_spans(
            funnel.apex,
            end,
            funnel_step(funnel, index, left, right)->Continue_0.left,
            funnel_step(funnel, index, left, right)->Continue_0.right,
        ) || (funnel_step(funnel, index, left, right)->Continue_0.left == end && funnel_step(
            funnel,
            index,
            left,
            right,
        )->Continue_0.right == end),
        funnel_step(funnel, index, left, right)->Continue_0.apex == funnel.apex,
        left == end && right == end ==> funnel_step(funnel, index, left, right)->Continue_0.left
            == end && funnel_step(funnel, index, left, right)->Continue_0.right == end,
{
    let apex = funnel.apex;
    lemma_area2_swap(apex, end, end);
    lemma_area2_swap(apex, end, left);
    lemma_area2_swap(apex, end, right);
    lemma_area2_swap(apex, end, funnel.left);
    lemma_area2_swap(apex, end, funnel.right);
    lemma_area2_swap(apex, funnel.left, end);
    lemma_area2_swap(apex, funnel.right, end);
    if left == end && right == end {
    } else {
        lemma_sides(apex, end, funnel.left, right);
        lemma_sides(apex, end, left, funnel.right);
        lemma_sides(apex, end, left, right);
    }
}

impl Path {
    /// Whether the straight line from `apex` to `end_point` passes through
    /// every portal after the place `at` and before the place `end_index`.
    pub open(crate) spec fn straight_between(
        &self,
        nav: &NavigationData,
        apex: Vec3,
        at: PathIndex,
        end_index: PathIndex,
        end_point: Vec3,
    ) -> bool
        decreases
            self.island_segments.len() - at.segment_index,
            self.island_segments[at.segment_index as int].corridor.len() - at.portal_index,
    {
        match self.next_index(at) {
            None => true,
            Some(index) => {
                ||| at == end_index
                ||| index == end_index
                ||| self.next_index(index) is None
                ||| {
                    &&& portal_spans(
                        apex,
                        end_point,
                        self.portal(nav, index).0,
                        self.portal(nav, index).1,
                    )
                    &&& self.straight_between(nav, apex, index, end_index, end_point)
                }
            },
        }
    }

    proof fn lemma_straight_from(
        &self,
        nav: &NavigationData,
        funnel: Funnel,
        at: PathIndex,
        end_index: PathIndex,
        end_point: Vec3,
    )
        requires
            ahead(funnel.apex, end_point, end_point),
            portal_spans(funnel.apex, end_point, funnel.left, funnel.right) || at == end_index,
            self.straight_between(nav, funnel.apex, at, end_index, end_point),
        ensures
            self.straight_from(nav, funnel, at, end_index, end_point) == (end_index, end_point),
        decreases
            self.island_segments.len() - at.segment_index,
            self.island_segments[at.segment_index as int].corridor.len() - at.portal_index,
    {
        match self.next_index(at) {
            None => {},
            Some(index) => {
                if at == end_index {
                } else if index != end_index && self.next_index(index) is None {
                } else {
                    let ends = if index == end_index {
                        (end_point, end_point)
                    } else {
                        self.portal(nav, index)
                    };
                    lemma_step_goes_on(funnel, index, end_point, ends.0, ends.1);
                    let narrowed = funnel_step(funnel, index, ends.0, ends.1)->Continue_0;
                    if index == end_index {
                        assert(self.straight_between(
                            nav,
                            narrowed.apex,
                            index,
                            end_index,
                            end_point,
                        ));
                    }
                    self.lemma_straight_from(nav, narrowed, index, end_index, end_point);
                }
            },
        }
    }
}

/// Whether the straight line from `apex` to `point` passes between `left`
/// and `right` or through one of them: `left` is not to its right, and
/// `right` not to its left.
pub open spec fn passes(apex: Vec3, point: Vec3, left: Vec3, right: Vec3) -> bool {
    area2(apex, left, point) >= 0 && area2(apex, point, right) >= 0
}

/// Whether `left` and `right` lie ahead of `apex`, in the half of the ground
/// that is on the side of `toward`, with `left` not to the right of `right`.
pub open spec fn in_sight(apex: Vec3, toward: Vec3, left: Vec3, right: Vec3) -> bool {
    &&& ahead(apex, toward, left)
    &&& ahead(apex, toward, right)
    &&& area2(apex, left, right) >= 0
}

/// Passing a portal whose ends lie ahead, with a funnel whose bounds lie
/// ahead, the left not to the right of the right: a funnel that goes on is
/// of that kind too, no wider than before, and has the ends of the portal
/// on or outside its bounds; and a corner is a bound of the funnel, or the
/// right end of the portal, which then lies within the funnel.
proof fn lemma_step_narrows(funnel: Funnel, index: PathIndex, left: Vec3, right: Vec3, toward: Vec3)
    requires
        in_sight(funnel.apex, toward, funnel.left, funnel.right),
        ahead(funnel.apex, toward, left),
        ahead(funnel.apex, toward, right),
    ensures
        match funnel_step(funnel, index, left, right) {
            FunnelStep::Continue(narrowed) => {
                &&& narrowed.apex == funnel.apex
                &&& in_sight(funnel.apex, toward, narrowed.left, narrowed.right)
                &&& area2(funnel.apex, funnel.left, narrowed.left) >= 0
                &&& area2(funnel.apex, narrowed.right, funnel.right) >= 0
                &&& area2(funnel.apex, left, narrowed.left) >= 0
                &&& area2(funnel.apex, narrowed.right, right) >= 0
                &&& (narrowed.left_index == funnel.left_index || narrowed.left_index == index)
                &&& (narrowed.right_index == funnel.right_index || narrowed.right_index == index)
            },
            FunnelStep::Corner(place, point) => {
                ||| (place == funnel.left_index && point == funnel.left)
                ||| (place == funnel.right_index && point == funnel.right)
                ||| (place == index && point == right && area2(funnel.apex, funnel.left, right)
                    >= 0 && area2(funnel.apex, right, funnel.right) >= 0)
            },
        },
{
    let apex = funnel.apex;
    lemma_area2_swap(apex, funnel.right, right);
    lemma_area2_swap(apex, funnel.left, right);
    lemma_area2_swap(apex, funnel.left, left);
    lemma_area2_swap(apex, funnel.right, left);
    lemma_area2_swap(apex, right, left);
    lemma_area2_swap(apex, left, left);
    lemma_area2_swap(apex, right, right);
    lemma_area2_swap(apex, funnel.left, funnel.left);
    lemma_area2_swap(apex, funnel.right, funnel.right);
}

/// Whether the place `a` comes before the place `b`.
pub open spec fn place_before(a: PathIndex, b: PathIndex) -> bool {
    a.segment_index < b.segment_index || (a.segment_index == b.segment_index && a.portal_index
        < b.portal_index)
}

impl Path {
    /// The place `k` places after `from`, if the path has as many.
    pub open spec fn place_after(&self, from: PathIndex, k: nat) -> Option<PathIndex>
        decreases k,
    {
        if k == 0 {
            Some(from)
        } else {
            match self.place_after(from, (k - 1) as nat) {
                Some(place) => self.next_index(place),
                None => None,
            }
        }
    }

    /// The ends of the portal `k` places after `from`.
    pub open(crate) spec fn portal_after(&self, nav: &NavigationData, from: PathIndex, k: nat) -> (
        Vec3,
        Vec3,
    ) {
        self.portal(nav, self.place_after(from, k)->0)
    }

    /// What the search for the straight path reads `k` places after `from`,
    /// where the end is `m` places after it: the ends of the portal there,
    /// or at the end the end point.
    pub open(crate) spec fn seen_after(
        &self,
        nav: &NavigationData,
        from: PathIndex,
        end_point: Vec3,
        m: nat,
        k: nat,
    ) -> (Vec3, Vec3) {
        if k == m {
            (end_point, end_point)
        } else {
            self.portal_after(nav, from, k)
        }
    }

    /// The places after a place come one after the other: an earlier one
    /// there is, and it comes before a later one.
    proof fn lemma_places_rise(&self, from: PathIndex, i: nat, k: nat)
        requires
            i < k,
            self.place_after(from, k) is Some,
        ensures
            self.place_after(from, i) is Some,
            place_before(self.place_after(from, i)->0, self.place_after(from, k)->0),
        decreases k,
    {
        if i < k - 1 {
            self.lemma_places_rise(from, i, (k - 1) as nat);
        }
    }

    /// The straight path from the apex of a funnel passes through what the
    /// search has read so far, and through what it reads before it turns.
    proof fn lemma_passes_from(
        &self,
        nav: &NavigationData,
        funnel: Funnel,
        at: PathIndex,
        end_index: PathIndex,
        end_point: Vec3,
        start: PathIndex,
        toward: Vec3,
        j: nat,
        m: nat,
        nl: nat,
        nr: nat,
    )
        requires
            j <= m,
            nl <= j,
            nr <= j,
            self.place_after(start, j) == Some(at),
            self.place_after(start, m) == Some(end_index),
            self.place_after(start, nl) == Some(funnel.left_index),
            self.place_after(start, nr) == Some(funnel.right_index),
            ahead(funnel.apex, toward, end_point),
            forall|k: nat|
                k < m ==> in_sight(
                    funnel.apex,
                    toward,
                    (#[trigger] self.portal_after(nav, start, k)).0,
                    self.portal_after(nav, start, k).1,
                ),
            in_sight(funnel.apex, toward, funnel.left, funnel.right),
            forall|k: nat|
                k <= j ==> area2(
                    funnel.apex,
                    (#[trigger] self.seen_after(nav, start, end_point, m, k)).0,
                    funnel.left,
                ) >= 0 && area2(
                    funnel.apex,
                    funnel.right,
                    self.seen_after(nav, start, end_point, m, k).1,
                ) >= 0,
        ensures
            exists|n: nat|
                n <= m && #[trigger] self.place_after(start, n) == Some(
                    self.straight_from(nav, funnel, at, end_index, end_point).0,
                ) && forall|k: nat|
                    k < n ==> passes(
                        funnel.apex,
                        self.straight_from(nav, funnel, at, end_index, end_point).1,
                        (#[trigger] self.portal_after(nav, start, k)).0,
                        self.portal_after(nav, start, k).1,
                    ),
        decreases m - j,
    {
        let apex = funnel.apex;
        let found = self.straight_from(nav, funnel, at, end_index, end_point);
        if j < m {
            self.lemma_places_rise(start, j, m);
        }
        if j == m {
            assert(found == (end_index, end_point));
            let seen = self.seen_after(nav, start, end_point, m, m);
            assert(seen == (end_point, end_point));
            assert(area2(apex, end_point, funnel.left) >= 0 && area2(
                apex,
                funnel.right,
                end_point,
            ) >= 0);
            lemma_turns(apex, toward, funnel.left, funnel.right, end_point);
            lemma_turns(apex, toward, end_point, funnel.left, funnel.right);
            assert forall|k: nat| k < m implies passes(
                apex,
                end_point,
                (#[trigger] self.portal_after(nav, start, k)).0,
                self.portal_after(nav, start, k).1,
            ) by {
                let ends = self.portal_after(nav, start, k);
                assert(self.seen_after(nav, start, end_point, m, k) == ends);
                lemma_turns(apex, toward, ends.0, funnel.left, end_point);
                lemma_turns(apex, toward, end_point, funnel.right, ends.1);
            }
            assert(self.place_after(start, m) == Some(found.0));
        } else {
            assert(at != end_index);
            assert(self.place_after(start, j + 1) == self.next_index(at));
            if j + 1 < m {
                self.lemma_places_rise(start, j + 1, m);
            }
            let index = self.next_index(at)->0;
            assert(self.next_index(at) == Some(index));
            if j + 1 < m {
                assert(index != end_index);
                assert(self.place_after(start, j + 2) == self.next_index(index));
                if j + 2 < m {
                    self.lemma_places_rise(start, j + 2, m);
                }
                assert(self.next_index(index) is Some);
            } else {
                assert(index == end_index);
            }
            let ends = if index == end_index {
                (end_point, end_point)
            } else {
                self.portal(nav, index)
            };
            assert(ends == self.seen_after(nav, start, end_point, m, j + 1));
            if j + 1 < m {
                assert(ends == self.portal_after(nav, start, j + 1));
            }
            lemma_step_narrows(funnel, index, ends.0, ends.1, toward);
            match funnel_step(funnel, index, ends.0, ends.1) {
                FunnelStep::Corner(place, point) => {
                    assert(found == (place, point));
                    let n = if place == funnel.left_index && point == funnel.left {
                        nl
                    } else if place == funnel.right_index && point == funnel.right {
                        nr
                    } else {
                        j + 1
                    };
                    assert(self.place_after(start, n) == Some(place));
                    assert forall|k: nat| k < n implies passes(
                        apex,
                        point,
                        (#[trigger] self.portal_after(nav, start, k)).0,
                        self.portal_after(nav, start, k).1,
                    ) by {
                        let seen = self.portal_after(nav, start, k);
                        assert(self.seen_after(nav, start, end_point, m, k) == seen);
                        if place == funnel.left_index && point == funnel.left {
                            lemma_turns(apex, toward, funnel.left, funnel.right, seen.1);
                        } else if place == funnel.right_index && point == funnel.right {
                            lemma_turns(apex, toward, seen.0, funnel.left, funnel.right);
                        } else {
                            lemma_turns(apex, toward, seen.0, funnel.left, point);
                            lemma_turns(apex, toward, point, funnel.right, seen.1);
                        }
                    }
                },
                FunnelStep::Continue(narrowed) => {
                    let left_count = if narrowed.left_index == funnel.left_index {
                        nl
                    } else {
                        j + 1
                    };
                    let right_count = if narrowed.right_index == funnel.right_index {
                        nr
                    } else {
                        j + 1
                    };
                    assert forall|k: nat| k <= j + 1 implies area2(
                        apex,
                        (#[trigger] self.seen_after(nav, start, end_point, m, k)).0,
                        narrowed.left,
                    ) >= 0 && area2(
                        apex,
                        narrowed.right,
                        self.seen_after(nav, start, end_point, m, k).1,
                    ) >= 0 by {
                        let seen = self.seen_after(nav, start, end_point, m, k);
                        if k <= j {
                            assert(seen == self.portal_after(nav, start, k));
                            lemma_turns(apex, toward, seen.0, funnel.left, narrowed.left);
                            lemma_turns(apex, toward, narrowed.right, funnel.right, seen.1);
                        }
                    }
                    self.lemma_passes_from(
                        nav,
                        narrowed,
                        index,
                        end_index,
                        end_point,
                        start,
                        toward,
                        j + 1,
                        m,
                        left_count,
                        right_count,
                    );
                },
            }
        }
    }
}

/// The straight path passes through the portals on its way: where the end
/// is at or after the start on the path, and every portal from the start up
/// to the end lies ahead of the start point, its left end not to the right
/// of its right end as seen from there, and where the end point lies ahead
/// too, the straight line from the start point to the first corner passes
/// between the ends of every portal from the start up to the corner, or
/// through one of them.
pub proof fn lemma_straight_passes(
    path: Path,
    nav: NavigationData,
    start_index: PathIndex,
    start_point: Vec3,
    end_index: PathIndex,
    end_point: Vec3,
    toward: Vec3,
    m: nat,
)
    requires
        path.place_after(start_index, m) == Some(end_index),
        ahead(start_point, toward, end_point),
        forall|k: nat|
            k < m ==> in_sight(
                start_point,
                toward,
                (#[trigger] path.portal_after(&nav, start_index, k)).0,
                path.portal_after(&nav, start_index, k).1,
            ),
    ensures
        exists|n: nat|
            n <= m && #[trigger] path.place_after(start_index, n) == Some(
                path.next_straight_point(&nav, start_index, start_point, end_index, end_point).0,
            ) && forall|k: nat|
                k < n ==> passes(
                    start_point,
                    path.next_straight_point(
                        &nav,
                        start_index,
                        start_point,
                        end_index,
                        end_point,
                    ).1,
                    (#[trigger] path.portal_after(&nav, start_index, k)).0,
                    path.portal_after(&nav, start_index, k).1,
                ),
{
    let found = path.next_straight_point(&nav, start_index, start_point, end_index, end_point);
    if m == 0 {
        assert(found == (end_index, end_point));
        assert(path.place_after(start_index, 0) == Some(found.0));
    } else {
        path.lemma_places_rise(start_index, 0, m);
        assert(start_index != end_index);
        assert(path.place_after(start_index, 1) == path.next_index(start_index));
        if 1 < m {
            path.lemma_places_rise(start_index, 1, m);
        }
        assert(path.next_index(start_index) is Some);
        let ends = path.portal(&nav, start_index);
        assert(ends == path.portal_after(&nav, start_index, 0));
        let funnel = Funnel {
            apex: start_point,
            left_index: start_index,
            left: ends.0,
            right_index: start_index,
            right: ends.1,
        };
        lemma_area2_swap(start_point, ends.0, ends.0);
        lemma_area2_swap(start_point, ends.1, ends.1);
        assert forall|k: nat| k <= 0 implies area2(
            start_point,
            (#[trigger] path.seen_after(&nav, start_index, end_point, m, k)).0,
            funnel.left,
        ) >= 0 && area2(
            start_point,
            funnel.right,
            path.seen_after(&nav, start_index, end_point, m, k).1,
        ) >= 0 by {
            assert(path.seen_after(&nav, start_index, end_point, m, 0) == ends);
        }
        path.lemma_passes_from(
            &nav,
            funnel,
            start_index,
            end_index,
            end_point,
            start_index,
            toward,
            0,
            m,
            0,
            0,
        );
    }
}

/// Along a straight corridor the straight path goes directly to the end:
/// where the end lies ahead of the start, and the straight line from the
/// start to the end passes through the portal at the start and through
/// every portal up to the end, the first corner is the end.
pub proof fn lemma_straight_corridor(
    path: Path,
    nav: NavigationData,
    start_index: PathIndex,
    start_point: Vec3,
    end_index: PathIndex,
    end_point: Vec3,
)
    requires
        ahead(start_point, end_point, end_point),
        start_index != end_index && path.next_index(start_index) is Some ==> portal_spans(
            start_point,
            end_point,
            path.portal(&nav, start_index).0,
            path.portal(&nav, start_index).1,
        ) && path.straight_between(&nav, start_point, start_index, end_index, end_point),
    ensures
        path.next_straight_point(&nav, start_index, start_point, end_index, end_point) == (
            end_index,
            end_point,
        ),
{
    if start_index != end_index && path.next_index(start_index) is Some {
        let ends = path.portal(&nav, start_index);
        path.lemma_straight_from(
            &nav,
            Funnel {
                apex: start_point,
                left_index: start_index,
                left: ends.0,
                right_index: start_index,
                right: ends.1,
            },
            start_index,
            end_index,
            end_point,
        );
    }
}

impl Path {
    /// Whether island segment `s` is a way through its island as it is.
    fn is_segment_valid(&self, nav_data: &NavigationData, s: usize) -> (r: bool)
        requires
            nav_data.wf(),
            s < self.island_segments.len(),
        ensures
            r == self.segment_valid(nav_data, s as int),
    {
        let segment = &self.island_segments[s];
        let length: usize = segment.corridor.len();
        if length < 1 || segment.portal_edge_index.len() != length - 1 {
            return false;
        }
        let data = match nav_data.islands.get(segment.island_id.0) {
            Some(slot) => match &slot.island.nav_data {
                Some(data) => data,
                None => {
                    assert(!node_in(nav_data.islands, segment_node(*segment, 0)));
                    return false;
                },
            },
            None => {
                assert(!node_in(nav_data.islands, segment_node(*segment, 0)));
                return false;
            },
        };
        let mesh = &data.nav_mesh;
        let count: usize = mesh.polygon_count();
        let mut c: usize = 0;
        while c < length
            invariant
                c <= length,
                length == segment.corridor.len(),
                count == mesh.polys().len(),
                s < self.island_segments.len(),
                *segment == self.island_segments[s as int],
                nav_data.islands.contains(segment.island_id.0),
                island_of(nav_data.islands, segment.island_id).nav_data == Some(*data),
                mesh == &data.nav_mesh,
                forall|b: int| 0 <= b < c ==> node_in(nav_data.islands, #[trigger] segment_node(*segment, b)),
            decreases length - c,
        {
            if segment.corridor[c] >= count {
                assert(!node_in(nav_data.islands, segment_node(*segment, c as int)));
                return false;
            }
            c = c + 1;
        }
        let mut c: usize = 0;
        while c + 1 < length
            invariant
                c < length,
                length == segment.corridor.len(),
                segment.portal_edge_index.len() == length - 1,
                count == mesh.polys().len(),
                s < self.island_segments.len(),
                *segment == self.island_segments[s as int],
                nav_data.islands.contains(segment.island_id.0),
                island_of(nav_data.islands, segment.island_id).nav_data == Some(*data),
                mesh == &data.nav_mesh,
                forall|b: int|
                    0 <= b < length ==> node_in(nav_data.islands, #[trigger] segment_node(*segment, b)),
                forall|b: int|
                    0 <= b < c ==> {
                        &&& is_position(
                            mesh.polys(),
                            segment.corridor[b] as int,
                            (#[trigger] segment.portal_edge_index[b]) as int,
                        )
                        &&& mesh.link(
                            segment.corridor[b] as int,
                            segment.portal_edge_index[b] as int,
                        ) is Some
                        &&& mesh.link(
                            segment.corridor[b] as int,
                            segment.portal_edge_index[b] as int,
                        )->0.polygon_index == segment.corridor[b + 1]
                    },
            decreases length - c,
        {
            let polygon: usize = segment.corridor[c];
            let edge: usize = segment.portal_edge_index[c];
            assert(node_in(nav_data.islands, segment_node(*segment, c as int)));
            if edge >= mesh.polygon_len(polygon) {
                return false;
            }
            match mesh.get_connectivity(polygon, edge) {
                Some(way) => {
                    if way.polygon_index != segment.corridor[c + 1] {
                        return false;
                    }
                },
                None => {
                    return false;
                },
            }
            c = c + 1;
        }
        true
    }

    /// Whether the step after island segment `s` takes a link of the
    /// archipelago from the last node of that segment to the first of the
    /// next.
    fn is_step_valid(&self, nav_data: &NavigationData, s: usize) -> (r: bool)
        requires
            nav_data.wf(),
            s < self.boundary_link_segments.len(),
            s + 1 < self.island_segments.len(),
            self.island_segments[s as int].corridor.len() >= 1,
            self.island_segments[s + 1].corridor.len() >= 1,
        ensures
            r == self.step_valid(nav_data, s as int),
    {
        let step = &self.boundary_link_segments[s];
        let before = &self.island_segments[s];
        let after = &self.island_segments[s + 1];
        let last = NodeRef {
            island_id: before.island_id,
            polygon_index: before.corridor[before.corridor.len() - 1],
        };
        let first = NodeRef { island_id: after.island_id, polygon_index: after.corridor[0] };
        match nav_data.boundary_links.get(step.boundary_link.0) {
            Some(link) => {
                step.starting_node == last && link.source_node == last && link.destination_node
                    == first
            },
            None => false,
        }
    }

    /// Whether the path is a way through the archipelago as it is: every
    /// island, polygon, connection and link that it names is there.
    pub fn is_valid(&self, nav_data: &NavigationData) -> (r: bool)
        requires
            nav_data.wf(),
        ensures
            r == self.valid_in(nav_data),
    {
        let total: usize = self.island_segments.len();
        if total < 1 || self.boundary_link_segments.len() != total - 1 {
            return false;
        }
        let mut s: usize = 0;
        while s < total
            invariant
                nav_data.wf(),
                s <= total,
                total == self.island_segments.len(),
                forall|t: int| 0 <= t < s ==> #[trigger] self.segment_valid(nav_data, t),
            decreases total - s,
        {
            if !self.is_segment_valid(nav_data, s) {
                return false;
            }
            s = s + 1;
        }
        let mut s: usize = 0;
        while s + 1 < total
            invariant
                nav_data.wf(),
                s < total,
                total == self.island_segments.len(),
                self.boundary_link_segments.len() == total - 1,
                forall|t: int| 0 <= t < total ==> #[trigger] self.segment_valid(nav_data, t),
                forall|t: int| 0 <= t < s ==> #[trigger] self.step_valid(nav_data, t),
            decreases total - s,
        {
            assert(self.segment_valid(nav_data, s as int));
            assert(self.segment_valid(nav_data, s as int + 1));
            if !self.is_step_valid(nav_data, s) {
                return false;
            }
            s = s + 1;
        }
        true
    }

    /// The first place on the path at or after `from` whose node is `node`,
    /// if there is one. The search ends at an island segment without
    /// polygons.
    pub open spec fn index_of_node(&self, node: NodeRef, from: PathIndex) -> Option<PathIndex>
        decreases
            self.island_segments.len() - from.segment_index,
            self.island_segments[from.segment_index as int].corridor.len() - from.portal_index,
    {
        if !self.has_index(from) {
            None
        } else if self.node_at(from.segment_index as int, from.portal_index as int) == node {
            Some(from)
        } else {
            match self.next_index(from) {
                Some(index) => {
                    if self.island_segments[index.segment_index as int].corridor.len() == 0 {
                        None
                    } else {
                        self.index_of_node(node, index)
                    }
                },
                None => None,
            }
        }
    }

    /// A place that the search for a node gives is a place of the path,
    /// and holds that node.
    pub proof fn lemma_index_of_node(&self, node: NodeRef, from: PathIndex)
        ensures
            self.index_of_node(node, from) is Some ==> self.has_index(
                self.index_of_node(node, from)->0,
            ) && self.node_at(
                self.index_of_node(node, from)->0.segment_index as int,
                self.index_of_node(node, from)->0.portal_index as int,
            ) == node,
        decreases
            self.island_segments.len() - from.segment_index,
            self.island_segments[from.segment_index as int].corridor.len() - from.portal_index,
    {
        if self.has_index(from) && self.node_at(
            from.segment_index as int,
            from.portal_index as int,
        ) != node {
            match self.next_index(from) {
                Some(index) => {
                    if self.island_segments[index.segment_index as int].corridor.len() != 0 {
                        self.lemma_index_of_node(node, index);
                    }
                },
                None => {},
            }
        }
    }

    /// The number of places on the first `n` island segments, or
    /// `usize::MAX` if there are more.
    pub open spec fn places_before(&self, n: int) -> usize
        decreases n,
    {
        if n <= 0 {
            0
        } else {
            let sum = self.places_before(n - 1) + self.island_segments[n - 1].corridor.len();
            if sum > usize::MAX {
                usize::MAX
            } else {
                sum as usize
            }
        }
    }

    /// The number of places on the path, or `usize::MAX` if there are more.
    pub open spec fn places(&self) -> usize {
        self.places_before(self.island_segments.len() as int)
    }

    /// The number of places on the path, or `usize::MAX` if there are more.
    pub fn count_places(&self) -> (r: usize)
        ensures
            r == self.places(),
    {
        let mut sum: usize = 0;
        let mut s: usize = 0;
        while s < self.island_segments.len()
            invariant
                s <= self.island_segments.len(),
                sum == self.places_before(s as int),
            decreases self.island_segments.len() - s,
        {
            let length: usize = self.island_segments[s].corridor.len();
            sum = if length > usize::MAX - sum {
                usize::MAX
            } else {
                sum + length
            };
            s = s + 1;
        }
        sum
    }

    /// The first place on the path at or after `from` whose node is `node`,
    /// if there is one.
    pub fn find_index_of_node(&self, node: NodeRef, from: PathIndex) -> (r: Option<PathIndex>)
        ensures
            r == self.index_of_node(node, from),
            match r {
                Some(index) => self.has_index(index) && self.node_at(
                    index.segment_index as int,
                    index.portal_index as int,
                ) == node,
                None => true,
            },
    {
        let mut at = from;
        if at.segment_index >= self.island_segments.len() {
            return None;
        }
        if at.portal_index >= self.island_segments[at.segment_index].corridor.len() {
            return None;
        }
        loop
            invariant
                self.has_index(at),
                self.index_of_node(node, at) == self.index_of_node(node, from),
            decreases
                self.island_segments.len() - at.segment_index,
                self.island_segments[at.segment_index as int].corridor.len() - at.portal_index,
        {
            let segment = &self.island_segments[at.segment_index];
            if segment.island_id == node.island_id && segment.corridor[at.portal_index]
                == node.polygon_index {
                return Some(at);
            }
            match self.next(at) {
                Some(index) => {
                    if self.island_segments[index.segment_index].corridor.len() == 0 {
                        return None;
                    }
                    at = index;
                },
                None => {
                    return None;
                },
            }
        }
    }
}

/// `point` is the end of the straight path, or an end of the portal at
/// `index`.
pub open(crate) spec fn on_portal(
    path: &Path,
    nav: &NavigationData,
    index: PathIndex,
    point: Vec3,
    end_point: Vec3,
) -> bool {
    point == end_point || (path.has_index(index) && (point == path.portal(nav, index).0 || point
        == path.portal(nav, index).1))
}

impl Path {
    proof fn lemma_corner_from(
        &self,
        nav: &NavigationData,
        funnel: Funnel,
        at: PathIndex,
        end_index: PathIndex,
        end_point: Vec3,
    )
        requires
            self.valid_in(nav),
            on_portal(self, nav, funnel.left_index, funnel.left, end_point),
            on_portal(self, nav, funnel.right_index, funnel.right, end_point),
        ensures
            on_portal(
                self,
                nav,
                self.straight_from(nav, funnel, at, end_index, end_point).0,
                self.straight_from(nav, funnel, at, end_index, end_point).1,
                end_point,
            ),
        decreases
            self.island_segments.len() - at.segment_index,
            self.island_segments[at.segment_index as int].corridor.len() - at.portal_index,
    {
        match self.next_index(at) {
            None => {},
            Some(index) => {
                if at == end_index {
                } else if index != end_index && self.next_index(index) is None {
                } else {
                    assert(self.segment_valid(nav, index.segment_index as int));
                    let ends = if index == end_index {
                        (end_point, end_point)
                    } else {
                        self.portal(nav, index)
                    };
                    match funnel_step(funnel, index, ends.0, ends.1) {
                        FunnelStep::Corner(place, point) => {},
                        FunnelStep::Continue(narrowed) => {
                            self.lemma_corner_from(nav, narrowed, index, end_index, end_point);
                        },
                    }
                }
            },
        }
    }
}

/// The point at which the straight path turns first is the end of the
/// straight path, or an end of a portal of the path: of the one at the place
/// that is returned with it.
pub proof fn lemma_corner_on_portal(
    path: Path,
    nav: NavigationData,
    start_index: PathIndex,
    start_point: Vec3,
    end_index: PathIndex,
    end_point: Vec3,
)
    requires
        path.valid_in(&nav),
    ensures
        on_portal(
            &path,
            &nav,
            path.next_straight_point(&nav, start_index, start_point, end_index, end_point).0,
            path.next_straight_point(&nav, start_index, start_point, end_index, end_point).1,
            end_point,
        ),
{
    if start_index == end_index || path.next_index(start_index) is None {
    } else {
        let ends = path.portal(&nav, start_index);
        path.lemma_corner_from(
            &nav,
            Funnel {
                apex: start_point,
                left_index: start_index,
                left: ends.0,
                right_index: start_index,
                right: ends.1,
            },
            start_index,
            end_index,
            end_point,
        );
    }
}

/// `rest` is what is left of `path` from the place `at` on: the island
/// segment of `at` from that place on, and the segments and steps after it.
pub open spec fn is_rest_of(rest: &Path, path: &Path, at: PathIndex) -> bool {
    let s = at.segment_index as int;
    let c = at.portal_index as int;
    &&& path.has_index(at)
    &&& rest.island_segments.len() == path.island_segments.len() - s
    &&& rest.boundary_link_segments@ == path.boundary_link_segments@.skip(s)
    &&& rest.island_segments[0].island_id == path.island_segments[s].island_id
    &&& rest.island_segments[0].corridor@ == path.island_segments[s].corridor@.skip(c)
    &&& rest.island_segments[0].portal_edge_index@ == path.island_segments[s].portal_edge_index@.skip(c)
    &&& forall|j: int|
        1 <= j < rest.island_segments.len() ==> {
            &&& (#[trigger] rest.island_segments[j]).island_id == path.island_segments[s
                + j].island_id
            &&& rest.island_segments[j].corridor@ == path.island_segments[s + j].corridor@
            &&& rest.island_segments[j].portal_edge_index@ == path.island_segments[s
                + j].portal_edge_index@
        }
}

/// What is left of a way through the archipelago is a way through the
/// archipelago: it begins with the node at the place it is left from, and
/// ends with the node that the whole path ends with.
pub(crate) proof fn lemma_rest_valid(rest: &Path, path: &Path, at: PathIndex, nav: &NavigationData)
    requires
        path.valid_in(nav),
        is_rest_of(rest, path, at),
    ensures
        rest.valid_in(nav),
        rest.node_at(0, 0) == path.node_at(at.segment_index as int, at.portal_index as int),
        rest.node_at(
            rest.island_segments.len() - 1,
            rest.island_segments[rest.island_segments.len() - 1].corridor.len() - 1,
        ) == path.node_at(
            path.island_segments.len() - 1,
            path.island_segments[path.island_segments.len() - 1].corridor.len() - 1,
        ),
{
    let s = at.segment_index as int;
    let c = at.portal_index as int;
    assert forall|j: int| 0 <= j < rest.island_segments.len() implies #[trigger] rest.segment_valid(
        nav,
        j,
    ) by {
        let whole = path.island_segments[s + j];
        let part = rest.island_segments[j];
        assert(path.segment_valid(nav, s + j));
        let mesh = island_of(nav.islands, whole.island_id).mesh();
        let shift = if j == 0 {
            c
        } else {
            0
        };
        assert(part.corridor@ =~= whole.corridor@.skip(shift));
        assert(part.portal_edge_index@ =~= whole.portal_edge_index@.skip(shift));
        assert forall|k: int| 0 <= k < part.corridor.len() implies node_in(
            nav.islands,
            #[trigger] segment_node(part, k),
        ) by {
            assert(segment_node(part, k) == segment_node(whole, k + shift));
        }
        assert forall|k: int| 0 <= k < part.portal_edge_index.len() implies {
            &&& is_position(
                mesh.polys(),
                part.corridor[k] as int,
                (#[trigger] part.portal_edge_index[k]) as int,
            )
            &&& mesh.link(part.corridor[k] as int, part.portal_edge_index[k] as int) is Some
            &&& mesh.link(
                part.corridor[k] as int,
                part.portal_edge_index[k] as int,
            )->0.polygon_index == part.corridor[k + 1]
        } by {
            assert(part.portal_edge_index[k] == whole.portal_edge_index[k + shift]);
            assert(part.corridor[k] == whole.corridor[k + shift]);
            assert(part.corridor[k + 1] == whole.corridor[k + shift + 1]);
        }
    }
    assert forall|j: int|
        0 <= j < rest.boundary_link_segments.len() implies #[trigger] rest.step_valid(nav, j) by {
        assert(path.step_valid(nav, s + j));
        assert(path.segment_valid(nav, s + j));
        assert(path.segment_valid(nav, s + j + 1));
        assert(rest.boundary_link_segments[j] == path.boundary_link_segments[s + j]);
        let before = rest.island_segments[j];
        let after = rest.island_segments[j + 1];
        assert(segment_node(after, 0) == segment_node(path.island_segments[s + j + 1], 0));
        let shift = if j == 0 {
            c
        } else {
            0
        };
        assert(before.corridor@ =~= path.island_segments[s + j].corridor@.skip(shift));
        assert(segment_node(before, before.corridor.len() - 1) == segment_node(
            path.island_segments[s + j],
            path.island_segments[s + j].corridor.len() - 1,
        ));
    }
    let last = rest.island_segments.len() - 1;
    assert(path.segment_valid(nav, s + last));
    let shift = if last == 0 {
        c
    } else {
        0
    };
    assert(rest.island_segments[last].corridor@ =~= path.island_segments[s + last].corridor@.skip(
        shift,
    ));
}

/// The elements of `list` from place `from` on.
fn copy_from(list: &Vec<usize>, from: usize) -> (r: Vec<usize>)
    requires
        from <= list.len(),
    ensures
        r@ == list@.skip(from as int),
{
    let mut copy: Vec<usize> = Vec::new();
    let mut k: usize = from;
    while k < list.len()
        invariant
            from <= k <= list.len(),
            copy@ == list@.subrange(from as int, k as int),
        decreases list.len() - k,
    {
        copy.push(list[k]);
        proof {
            assert(copy@ =~= list@.subrange(from as int, k as int + 1));
        }
        k = k + 1;
    }
    proof {
        assert(copy@ =~= list@.skip(from as int));
    }
    copy
}

impl Path {
    /// What is left of the path from the place `at` on.
    pub fn rest_from(&self, at: PathIndex) -> (rest: Path)
        requires
            self.has_index(at),
            self.boundary_link_segments.len() == self.island_segments.len() - 1,
            at.portal_index <= self.island_segments[at.segment_index as int].portal_edge_index.len(),
        ensures
            is_rest_of(&rest, self, at),
    {
        let s: usize = at.segment_index;
        let mut segments: Vec<IslandSegment> = Vec::new();
        let first = &self.island_segments[s];
        segments.push(
            IslandSegment {
                island_id: first.island_id,
                corridor: copy_from(&first.corridor, at.portal_index),
                portal_edge_index: copy_from(&first.portal_edge_index, at.portal_index),
            },
        );
        let mut j: usize = s + 1;
        while j < self.island_segments.len()
            invariant
                s < j <= self.island_segments.len(),
                segments.len() == j - s,
                segments[0].island_id == self.island_segments[s as int].island_id,
                segments[0].corridor@ == self.island_segments[s as int].corridor@.skip(
                    at.portal_index as int,
                ),
                segments[0].portal_edge_index@ == self.island_segments[s as int].portal_edge_index@.skip(
                    at.portal_index as int,
                ),
                forall|k: int|
                    1 <= k < segments.len() ==> {
                        &&& (#[trigger] segments[k]).island_id == self.island_segments[s
                            + k].island_id
                        &&& segments[k].corridor@ == self.island_segments[s + k].corridor@
                        &&& segments[k].portal_edge_index@ == self.island_segments[s
                            + k].portal_edge_index@
                    },
            decreases self.island_segments.len() - j,
        {
            let segment = &self.island_segments[j];
            let ghost before = segments@;
            segments.push(
                IslandSegment {
                    island_id: segment.island_id,
                    corridor: copy_from(&segment.corridor, 0),
                    portal_edge_index: copy_from(&segment.portal_edge_index, 0),
                },
            );
            proof {
                assert(segment.corridor@.skip(0) =~= segment.corridor@);
                assert(segment.portal_edge_index@.skip(0) =~= segment.portal_edge_index@);
                assert forall|k: int| 1 <= k < segments.len() implies {
                    &&& (#[trigger] segments[k]).island_id == self.island_segments[s
                        + k].island_id
                    &&& segments[k].corridor@ == self.island_segments[s + k].corridor@
                    &&& segments[k].portal_edge_index@ == self.island_segments[s
                        + k].portal_edge_index@
                } by {
                    if k < before.len() {
                        assert(segments@[k] == before[k]);
                    }
                }
                assert(segments@[0] == before[0]);
            }
            j = j + 1;
        }
        let mut steps: Vec<BoundaryLinkSegment> = Vec::new();
        let mut k: usize = s;
        while k < self.boundary_link_segments.len()
            invariant
                s <= k <= self.boundary_link_segments.len(),
                steps@ == self.boundary_link_segments@.subrange(s as int, k as int),
            decreases self.boundary_link_segments.len() - k,
        {
            steps.push(self.boundary_link_segments[k]);
            proof {
                assert(steps@ =~= self.boundary_link_segments@.subrange(s as int, k as int + 1));
            }
            k = k + 1;
        }
        proof {
            assert(steps@ =~= self.boundary_link_segments@.skip(s as int));
        }
        Path { island_segments: segments, boundary_link_segments: steps }
    }
}

} // verus!
