//! Finding paths through an archipelago.

use vstd::prelude::*;
use crate::astar::{
    consistent, lemma_walk_prefix, lemma_walk_stays, reaches_goal, walk_actions, walk_cost,
    walk_end, walk_ok, walk_states, AStarProblem, PathStats,
};
use crate::math::{
    dist_ceil, dist_sq, lemma_detour, lemma_dist_bound, lemma_dist_symmetric,
    lemma_sqrt_floor_unique, lemma_triangle,
};
use crate::linking::link_cost;
use crate::nav_data::link_made_by;
use crate::nav_mesh::{midpoint, shares_edge};
use crate::regions::{
    chain_joins, edge_leads, island_agrees, link_leads, region_of, regions_agree, regions_tight,
    steps_to, touches,
};
use crate::path::{
    nodes_of, segment_node, segment_nodes, segment_ok, step_ok, BoundaryLinkSegment,
    IslandSegment, Path,
};
use crate::island::{Island, IslandId, IslandNavigationData};
use crate::math::{dist, Vec3};
use crate::nav_data::{
    all_sound, island_of, link_sound, node_in, world_center, BoundaryLinkId, IslandSlot,
    NavigationData, NodeRef, DEFAULT_COST,
};
use crate::nav_mesh::{is_position, link_ok};
use crate::overrides::CostOverrides;
use crate::slots::{lemma_place, Arena};

verus! {

/// A step of a path.
#[derive(Clone, Copy, PartialEq, Eq, Structural, Debug)]
pub enum PathStep {
    /// Through the edge with this index of the current polygon, to the
    /// polygon on its other side.
    NodeConnection(usize),
    /// By the boundary link with this id, from the current node.
    BoundaryLink(BoundaryLinkId),
}

/// The number of polygons of the island at place `k`.
pub open(crate) spec fn polygons_at(islands: Arena<IslandSlot>, k: int) -> nat {
    if islands.values()[k].island.has_nav_data() {
        islands.values()[k].island.mesh().polys().len()
    } else {
        0
    }
}

/// `offsets` holds, for each island in order, the number of polygons of the
/// islands before it, and at its end the number of all polygons.
pub open(crate) spec fn offsets_ok(islands: Arena<IslandSlot>, offsets: Seq<usize>) -> bool {
    &&& offsets.len() == islands.values().len() + 1
    &&& offsets[0] == 0
    &&& forall|k: int|
        0 <= k < islands.values().len() ==> (#[trigger] offsets[k + 1]) == offsets[k]
            + polygons_at(islands, k)
}

/// The cost of a unit of distance on `polygon` of `island`: that of the node
/// type that the island gives to the polygon's type index, as `overrides`
/// has it or else the archipelago; the default cost for a polygon without
/// type index or node type.
pub open(crate) spec fn polygon_cost(
    nav: &NavigationData,
    overrides: &CostOverrides,
    island: Island,
    polygon: int,
) -> u32 {
    match island.mesh().type_index(polygon) {
        Some(type_index) => {
            if island.node_types().contains_key(type_index) {
                let node_type = island.node_types()[type_index];
                if overrides.has(node_type) {
                    overrides.cost(node_type)
                } else {
                    nav.node_type_cost(node_type)
                }
            } else {
                DEFAULT_COST
            }
        },
        None => DEFAULT_COST,
    }
}

/// `v` brought into the range of `u64`.
pub open spec fn sat64(v: int) -> u64 {
    if v > u64::MAX {
        u64::MAX
    } else if v < 0 {
        0
    } else {
        v as u64
    }
}

/// The cost of crossing edge `i` of `node`: the distance from the center to
/// the edge at the cost of the polygon left, plus the distance from the edge
/// to the next center at the cost of the polygon entered.
pub open(crate) spec fn crossing_cost(
    nav: &NavigationData,
    overrides: &CostOverrides,
    node: NodeRef,
    i: int,
) -> u64 {
    let island = island_of(nav.islands, node.island_id);
    let way = island.mesh().link(node.polygon_index as int, i)->0;
    sat64(
        way.travel_distances.0 * polygon_cost(nav, overrides, island, node.polygon_index as int)
            + way.travel_distances.1 * polygon_cost(
            nav,
            overrides,
            island,
            way.polygon_index as int,
        ),
    )
}

/// The ways on from `node` through the first `n` edges of its polygon.
pub open(crate) spec fn mesh_ways(
    nav: &NavigationData,
    overrides: &CostOverrides,
    node: NodeRef,
    n: int,
) -> Seq<(u64, PathStep, NodeRef)>
    decreases n,
{
    if n <= 0 {
        Seq::empty()
    } else {
        let before = mesh_ways(nav, overrides, node, n - 1);
        let mesh = island_of(nav.islands, node.island_id).mesh();
        match mesh.link(node.polygon_index as int, n - 1) {
            Some(way) => before.push(
                (
                    crossing_cost(nav, overrides, node, n - 1),
                    PathStep::NodeConnection((n - 1) as usize),
                    NodeRef { island_id: node.island_id, polygon_index: way.polygon_index },
                ),
            ),
            None => before,
        }
    }
}

/// The ways on from `node` by the first `n` links of the archipelago. A link
/// costs its length at the default cost, whatever the node types.
pub open(crate) spec fn link_ways(nav: &NavigationData, node: NodeRef, n: int) -> Seq<
    (u64, PathStep, NodeRef),
>
    decreases n,
{
    if n <= 0 {
        Seq::empty()
    } else {
        let before = link_ways(nav, node, n - 1);
        let link = nav.boundary_links.values()[n - 1];
        if link.source_node == node {
            before.push(
                (
                    sat64(link.cost * DEFAULT_COST),
                    PathStep::BoundaryLink(BoundaryLinkId(nav.boundary_links.ids()[n - 1])),
                    link.destination_node,
                ),
            )
        } else {
            before
        }
    }
}

/// The ways on from `node`: through the edges of its polygon that lead to
/// another polygon, in order, then by the links that leave it, in the order
/// in which they were made.
pub open(crate) spec fn ways_from(
    nav: &NavigationData,
    overrides: &CostOverrides,
    node: NodeRef,
) -> Seq<(u64, PathStep, NodeRef)> {
    mesh_ways(
        nav,
        overrides,
        node,
        island_of(nav.islands, node.island_id).mesh().polys()[node.polygon_index as int].len() as int,
    ) + link_ways(nav, node, nav.boundary_links.values().len() as int)
}

/// What a way on from `node` is: a crossing of an edge of the polygon to
/// the polygon on the other side, or a link that leaves the node, to the
/// node it leads to.
pub open(crate) spec fn way_ok(nav: &NavigationData, node: NodeRef, way: (u64, PathStep, NodeRef)) -> bool {
    let mesh = island_of(nav.islands, node.island_id).mesh();
    &&& node_in(nav.islands, way.2)
    &&& match way.1 {
        PathStep::NodeConnection(i) => {
            &&& is_position(mesh.polys(), node.polygon_index as int, i as int)
            &&& mesh.link(node.polygon_index as int, i as int) is Some
            &&& way.2 == (NodeRef {
                island_id: node.island_id,
                polygon_index: mesh.link(node.polygon_index as int, i as int)->0.polygon_index,
            })
        },
        PathStep::BoundaryLink(id) => {
            &&& nav.has_link(id)
            &&& nav.link(id).source_node == node
            &&& way.2 == nav.link(id).destination_node
        },
    }
}

/// Every way through an edge is a crossing to a polygon of the mesh.
pub(crate) proof fn lemma_mesh_ways(
    nav: &NavigationData,
    overrides: &CostOverrides,
    node: NodeRef,
    n: int,
)
    requires
        nav.wf(),
        nav.has_node(node),
        0 <= n <= island_of(nav.islands, node.island_id).mesh().polys()[node.polygon_index as int].len(),
    ensures
        mesh_ways(nav, overrides, node, n).len() <= n,
        forall|k: int|
            0 <= k < mesh_ways(nav, overrides, node, n).len() ==> way_ok(
                nav,
                node,
                #[trigger] mesh_ways(nav, overrides, node, n)[k],
            ),
    decreases n,
{
    if n > 0 {
        lemma_mesh_ways(nav, overrides, node, n - 1);
        let island = island_of(nav.islands, node.island_id);
        let mesh = island.mesh();
        let place = nav.islands.place(node.island_id.0);
        assert(0 <= place < nav.islands.ids().len());
        assert(nav.islands.values()[place].island.wf());
        let p = node.polygon_index as int;
        assert(is_position(mesh.polys(), p, n - 1));
        assert(link_ok(mesh.points(), mesh.polys(), mesh.link(p, n - 1), p, n - 1));
        assert(mesh.polygons[p].vertices.len() == mesh.polys()[p].len());
    }
}

/// Every way by a link is a link of the archipelago that leaves the node.
pub(crate) proof fn lemma_link_ways(nav: &NavigationData, node: NodeRef, n: int)
    requires
        nav.wf(),
        !nav.is_dirty(),
        0 <= n <= nav.boundary_links.values().len(),
    ensures
        link_ways(nav, node, n).len() <= n,
        forall|k: int|
            0 <= k < link_ways(nav, node, n).len() ==> way_ok(
                nav,
                node,
                #[trigger] link_ways(nav, node, n)[k],
            ),
    decreases n,
{
    if n > 0 {
        lemma_link_ways(nav, node, n - 1);
        lemma_place(nav.boundary_links.ids(), n - 1);
        reveal(all_sound);
        assert(link_sound(nav.islands, nav.link_tolerance, nav.boundary_links.values()[n - 1]));
    }
}

/// Every way on from a node is a crossing or a link, to a node of the
/// archipelago.
pub(crate) proof fn lemma_ways_from(nav: &NavigationData, overrides: &CostOverrides, node: NodeRef)
    requires
        nav.wf(),
        !nav.is_dirty(),
        nav.has_node(node),
    ensures
        forall|k: int|
            0 <= k < ways_from(nav, overrides, node).len() ==> way_ok(
                nav,
                node,
                #[trigger] ways_from(nav, overrides, node)[k],
            ),
{
    let mesh = island_of(nav.islands, node.island_id).mesh();
    let n = mesh.polys()[node.polygon_index as int].len() as int;
    let m = nav.boundary_links.values().len() as int;
    lemma_mesh_ways(nav, overrides, node, n);
    lemma_link_ways(nav, node, m);
    let first = mesh_ways(nav, overrides, node, n);
    let second = link_ways(nav, node, m);
    assert forall|k: int| 0 <= k < ways_from(nav, overrides, node).len() implies way_ok(
        nav,
        node,
        #[trigger] ways_from(nav, overrides, node)[k],
    ) by {
        if k < first.len() {
            assert(ways_from(nav, overrides, node)[k] == first[k]);
        } else {
            assert(ways_from(nav, overrides, node)[k] == second[k - first.len()]);
        }
    }
}

/// The number of polygons of the first `n` islands.
pub open(crate) spec fn polygons_before(islands: Arena<IslandSlot>, n: int) -> nat
    decreases n,
{
    if n <= 0 {
        0
    } else {
        polygons_before(islands, n - 1) + polygons_at(islands, n - 1)
    }
}

/// The number of polygons of all islands.
pub open(crate) spec fn polygon_total(nav: &NavigationData) -> nat {
    polygons_before(nav.islands, nav.islands.values().len() as int)
}

proof fn lemma_polygons_before_grow(islands: Arena<IslandSlot>, j: int, k: int)
    requires
        0 <= j <= k,
    ensures
        polygons_before(islands, j) <= polygons_before(islands, k),
    decreases k - j,
{
    if j < k {
        lemma_polygons_before_grow(islands, j, k - 1);
    }
}

/// The search for a path in an archipelago, from one node to another.
pub struct ArchipelagoPathProblem<'a> {
    /// The navigation data to search.
    pub(crate) nav_data: &'a NavigationData,
    /// The node that the path starts in.
    pub(crate) start_node: NodeRef,
    /// The node that the path ends in.
    pub(crate) end_node: NodeRef,
    /// The center of the end node, in the world.
    pub(crate) end_point: Vec3,
    /// The costs that the agent has of its own.
    pub(crate) overrides: &'a CostOverrides,
    /// For each island in order, the number of polygons of the islands
    /// before it; at the end, the number of all polygons.
    pub(crate) offsets: Vec<usize>,
}

/// The offsets grow with the islands.
proof fn lemma_offsets_grow(islands: Arena<IslandSlot>, offsets: Seq<usize>, j: int, k: int)
    requires
        offsets_ok(islands, offsets),
        0 <= j <= k <= islands.values().len(),
    ensures
        offsets[j] <= offsets[k],
    decreases k - j,
{
    if j < k {
        lemma_offsets_grow(islands, offsets, j, k - 1);
        assert(offsets[(k - 1) + 1] == offsets[k - 1] + polygons_at(islands, k - 1));
    }
}

impl<'a> ArchipelagoPathProblem<'a> {
    /// The navigation data is up to date, the path starts and ends in nodes
    /// of it, and the costs of the agent are positive.
    pub open(crate) spec fn wf(&self) -> bool {
        &&& self.nav_data.wf()
        &&& !self.nav_data.is_dirty()
        &&& self.overrides.wf()
        &&& self.nav_data.has_node(self.start_node)
        &&& self.nav_data.has_node(self.end_node)
        &&& offsets_ok(self.nav_data.islands, self.offsets@)
        &&& self.end_point == world_center(self.nav_data.islands, self.end_node)
    }

    /// The number that stands for `node`.
    pub open(crate) spec fn index_of(&self, node: NodeRef) -> nat {
        (self.offsets[self.nav_data.islands.place(node.island_id.0)] + node.polygon_index) as nat
    }

    /// The search for a path from `start_node` to `end_node`, or `None`
    /// where the archipelago has more polygons than can be counted.
    pub(crate) fn new(
        nav_data: &'a NavigationData,
        start_node: NodeRef,
        end_node: NodeRef,
        overrides: &'a CostOverrides,
    ) -> (r: Option<ArchipelagoPathProblem<'a>>)
        requires
            nav_data.wf(),
            !nav_data.is_dirty(),
            overrides.wf(),
            nav_data.has_node(start_node),
            nav_data.has_node(end_node),
        ensures
            match r {
                Some(problem) => {
                    &&& problem.wf()
                    &&& problem.nav_data == nav_data
                    &&& problem.overrides == overrides
                    &&& problem.start_node == start_node
                    &&& problem.end_node == end_node
                    &&& polygon_total(nav_data) <= usize::MAX
                },
                None => polygon_total(nav_data) > usize::MAX,
            },
    {
        let mut offsets: Vec<usize> = Vec::new();
        offsets.push(0);
        let mut sum: usize = 0;
        let total: usize = nav_data.islands.values.len();
        let mut k: usize = 0;
        while k < total
            invariant
                k <= total,
                total == nav_data.islands.values().len(),
                offsets.len() == k + 1,
                offsets[0] == 0,
                offsets[k as int] == sum,
                sum == polygons_before(nav_data.islands, k as int),
                forall|j: int|
                    0 <= j < k ==> (#[trigger] offsets[j + 1]) == offsets[j] + polygons_at(
                        nav_data.islands,
                        j,
                    ),
            decreases total - k,
        {
            let count: usize = match &nav_data.islands.values[k].island.nav_data {
                Some(data) => data.nav_mesh.polygon_count(),
                None => 0,
            };
            if count > usize::MAX - sum {
                proof {
                    lemma_polygons_before_grow(
                        nav_data.islands,
                        k as int + 1,
                        nav_data.islands.values().len() as int,
                    );
                }
                return None;
            }
            sum = sum + count;
            offsets.push(sum);
            k = k + 1;
        }
        let end_point = match nav_data.islands.get(end_node.island_id.0) {
            Some(slot) => match &slot.island.nav_data {
                Some(data) => data.transform.apply(
                    data.nav_mesh.get_center(end_node.polygon_index),
                ),
                None => Vec3::zero(),
            },
            None => Vec3::zero(),
        };
        Some(
            ArchipelagoPathProblem {
                nav_data,
                start_node,
                end_node,
                end_point,
                overrides,
                offsets,
            },
        )
    }

    /// The cost of a unit of distance on `polygon` of the island with the
    /// navigation data `data`.
    fn cost_of_polygon(&self, data: &IslandNavigationData, polygon: usize) -> (r: u32)
        requires
            self.wf(),
            polygon < data.nav_mesh.polys().len(),
        ensures
            r == polygon_cost(
                self.nav_data,
                self.overrides,
                Island { nav_data: Some(*data) },
                polygon as int,
            ),
    {
        broadcast use vstd::std_specs::hash::group_hash_axioms;

        match data.nav_mesh.get_type_index(polygon) {
            Some(type_index) => match data.type_index_to_node_type.get(&type_index) {
                Some(node_type) => match self.overrides.get(*node_type) {
                    Some(cost) => cost,
                    None => match self.nav_data.get_node_type_cost(*node_type) {
                        Some(cost) => cost,
                        None => DEFAULT_COST,
                    },
                },
                None => DEFAULT_COST,
            },
            None => DEFAULT_COST,
        }
    }
}

impl<'a> ArchipelagoPathProblem<'a> {
    /// The ways on from `state` through the edges of its polygon.
    fn mesh_successors(&self, state: &NodeRef) -> (r: Vec<(u64, PathStep, NodeRef)>)
        requires
            self.wf(),
            self.nav_data.has_node(*state),
        ensures
            r@ == mesh_ways(
                self.nav_data,
                self.overrides,
                *state,
                island_of(self.nav_data.islands, state.island_id).mesh().polys()[state.polygon_index as int].len() as int,
            ),
    {
        let mut ways: Vec<(u64, PathStep, NodeRef)> = Vec::new();
        let data = match self.nav_data.islands.get(state.island_id.0) {
            Some(slot) => match &slot.island.nav_data {
                Some(data) => data,
                None => {
                    return ways;
                },
            },
            None => {
                return ways;
            },
        };
        proof {
            let place = self.nav_data.islands.place(state.island_id.0);
            assert(0 <= place < self.nav_data.islands.ids().len());
            assert(self.nav_data.islands.values()[place].island.wf());
        }
        let mesh = &data.nav_mesh;
        let polygon: usize = state.polygon_index;
        let own: u32 = self.cost_of_polygon(data, polygon);
        let n: usize = mesh.polygon_len(polygon);
        let ghost island = island_of(self.nav_data.islands, state.island_id);
        let mut i: usize = 0;
        while i < n
            invariant
                self.wf(),
                self.nav_data.has_node(*state),
                i <= n,
                n == mesh.polys()[polygon as int].len(),
                polygon == state.polygon_index,
                polygon < mesh.polys().len(),
                mesh == &data.nav_mesh,
                mesh.wf(),
                island == island_of(self.nav_data.islands, state.island_id),
                island.nav_data == Some(*data),
                own == polygon_cost(self.nav_data, self.overrides, island, polygon as int),
                ways@ == mesh_ways(self.nav_data, self.overrides, *state, i as int),
            decreases n - i,
        {
            match mesh.get_connectivity(polygon, i) {
                Some(way) => {
                    proof {
                        assert(link_ok(
                            mesh.points(),
                            mesh.polys(),
                            mesh.link(polygon as int, i as int),
                            polygon as int,
                            i as int,
                        ));
                    }
                    let other: u32 = self.cost_of_polygon(data, way.polygon_index);
                    assert(island == (Island { nav_data: Some(*data) }));
                    let d0: u64 = way.travel_distances.0;
                    let d1: u64 = way.travel_distances.1;
                    assert(0 <= d0 * own <= 0xffff_ffff_ffff_ffff * 0xffff_ffff) by (nonlinear_arith)
                        requires
                            0 <= d0 <= 0xffff_ffff_ffff_ffff,
                            0 <= own <= 0xffff_ffff,
                    ;
                    assert(0 <= d1 * other <= 0xffff_ffff_ffff_ffff * 0xffff_ffff)
                        by (nonlinear_arith)
                        requires
                            0 <= d1 <= 0xffff_ffff_ffff_ffff,
                            0 <= other <= 0xffff_ffff,
                    ;
                    let sum: u128 = (d0 as u128) * (own as u128) + (d1 as u128) * (other as u128);
                    let cost: u64 = if sum > u64::MAX as u128 {
                        u64::MAX
                    } else {
                        sum as u64
                    };
                    ways.push(
                        (
                            cost,
                            PathStep::NodeConnection(i),
                            NodeRef { island_id: state.island_id, polygon_index: way.polygon_index },
                        ),
                    );
                },
                None => {},
            }
            i = i + 1;
        }
        ways
    }

    /// Adds the ways on from `state` by the links that leave it.
    fn link_successors(&self, state: &NodeRef, ways: &mut Vec<(u64, PathStep, NodeRef)>)
        requires
            self.wf(),
        ensures
            final(ways)@ == old(ways)@ + link_ways(
                self.nav_data,
                *state,
                self.nav_data.boundary_links.values().len() as int,
            ),
    {
        let ghost start = ways@;
        let links = &self.nav_data.boundary_links;
        let total: usize = links.values.len();
        let mut k: usize = 0;
        proof {
            assert(ways@ =~= start + link_ways(self.nav_data, *state, 0));
        }
        while k < total
            invariant
                self.wf(),
                k <= total,
                links == &self.nav_data.boundary_links,
                total == links.values().len(),
                ways@ == start + link_ways(self.nav_data, *state, k as int),
            decreases total - k,
        {
            let link = links.values[k];
            if link.source_node == *state {
                assert(0 <= link.cost * DEFAULT_COST <= 0xffff_ffff_ffff_ffff * 1000)
                    by (nonlinear_arith)
                    requires
                        0 <= link.cost <= 0xffff_ffff_ffff_ffff,
                        DEFAULT_COST == 1000,
                ;
                let scaled: u128 = (link.cost as u128) * (DEFAULT_COST as u128);
                let cost: u64 = if scaled > u64::MAX as u128 {
                    u64::MAX
                } else {
                    scaled as u64
                };
                ways.push(
                    (cost, PathStep::BoundaryLink(BoundaryLinkId(links.ids[k])), link.destination_node),
                );
                proof {
                    assert(ways@ =~= start + link_ways(self.nav_data, *state, k as int + 1));
                }
            }
            k = k + 1;
        }
    }
}

impl<'a> AStarProblem for ArchipelagoPathProblem<'a> {
    type ActionType = PathStep;

    type StateType = NodeRef;

    closed spec fn well_formed(&self) -> bool {
        self.wf()
    }

    closed spec fn state_ok(&self, state: NodeRef) -> bool {
        self.nav_data.has_node(state)
    }

    closed spec fn state_count(&self) -> nat {
        self.offsets[self.nav_data.islands.values().len() as int] as nat
    }

    closed spec fn state_index(&self, state: NodeRef) -> nat {
        self.index_of(state)
    }

    closed spec fn initial(&self) -> NodeRef {
        self.start_node
    }

    closed spec fn successors_of(&self, state: NodeRef) -> Seq<(u64, PathStep, NodeRef)> {
        ways_from(self.nav_data, self.overrides, state)
    }

    closed spec fn estimate(&self, state: NodeRef) -> u64 {
        (dist(world_center(self.nav_data.islands, state), self.end_point) * DEFAULT_COST) as u64
    }

    closed spec fn is_goal(&self, state: NodeRef) -> bool {
        state == self.end_node
    }

    proof fn lemma_states(&self, a: NodeRef, b: NodeRef) {
        let islands = self.nav_data.islands;
        let offsets = self.offsets@;
        if self.nav_data.has_node(a) {
            let i = islands.place(a.island_id.0);
            assert(0 <= i < islands.ids().len() && islands.ids()[i] == a.island_id.0);
            assert(offsets[i + 1] == offsets[i] + polygons_at(islands, i));
            lemma_offsets_grow(islands, offsets, i + 1, islands.values().len() as int);
            lemma_ways_from(self.nav_data, self.overrides, a);
            if self.nav_data.has_node(b) {
                let j = islands.place(b.island_id.0);
                assert(0 <= j < islands.ids().len() && islands.ids()[j] == b.island_id.0);
                assert(offsets[j + 1] == offsets[j] + polygons_at(islands, j));
                if i < j {
                    lemma_offsets_grow(islands, offsets, i + 1, j);
                } else if j < i {
                    lemma_offsets_grow(islands, offsets, j + 1, i);
                }
            }
        }
    }

    fn state_total(&self) -> (r: usize) {
        self.offsets[self.nav_data.islands.values.len()]
    }

    fn state_id(&self, state: &NodeRef) -> (r: usize) {
        proof {
            self.lemma_states(*state, *state);
        }
        match self.nav_data.islands.find(state.island_id.0) {
            Some(k) => {
                proof {
                    let islands = self.nav_data.islands;
                    assert(self.offsets@[k + 1] == self.offsets@[k as int] + polygons_at(
                        islands,
                        k as int,
                    ));
                }
                self.offsets[k] + state.polygon_index
            },
            None => 0,
        }
    }

    fn initial_state(&self) -> (r: NodeRef) {
        self.start_node
    }

    fn successors(&self, state: &NodeRef) -> (r: Vec<(u64, PathStep, NodeRef)>) {
        let mut ways = self.mesh_successors(state);
        self.link_successors(state, &mut ways);
        ways
    }

    fn heuristic(&self, state: &NodeRef) -> (r: u64) {
        let center = match self.nav_data.islands.get(state.island_id.0) {
            Some(slot) => match &slot.island.nav_data {
                Some(data) => data.transform.apply(data.nav_mesh.get_center(state.polygon_index)),
                None => Vec3::zero(),
            },
            None => Vec3::zero(),
        };
        let away: u64 = center.distance(self.end_point);
        assert(away * DEFAULT_COST <= 0x2_0000_0000 * 1000) by (nonlinear_arith)
            requires
                0 <= away <= 0x2_0000_0000,
                DEFAULT_COST == 1000,
        ;
        away * (DEFAULT_COST as u64)
    }

    fn is_goal_state(&self, state: &NodeRef) -> (r: bool) {
        *state == self.end_node
    }
}

/// A route is a sequence of steps taken from a node; a step is the place of
/// a way among the ways on from the node it is taken at. This is the node
/// that the route `steps` from `from` ends at.
pub open(crate) spec fn route_end(
    nav: &NavigationData,
    overrides: &CostOverrides,
    from: NodeRef,
    steps: Seq<int>,
) -> NodeRef
    decreases steps.len(),
{
    if steps.len() == 0 {
        from
    } else {
        ways_from(nav, overrides, route_end(nav, overrides, from, steps.drop_last()))[steps.last()].2
    }
}

/// Whether every step of the route names a way on from the node it is taken
/// at.
pub open(crate) spec fn route_ok(
    nav: &NavigationData,
    overrides: &CostOverrides,
    from: NodeRef,
    steps: Seq<int>,
) -> bool
    decreases steps.len(),
{
    if steps.len() == 0 {
        true
    } else {
        &&& route_ok(nav, overrides, from, steps.drop_last())
        &&& 0 <= steps.last() < ways_from(
            nav,
            overrides,
            route_end(nav, overrides, from, steps.drop_last()),
        ).len()
    }
}

/// The sum of the costs of the steps of a route.
pub open(crate) spec fn route_cost(
    nav: &NavigationData,
    overrides: &CostOverrides,
    from: NodeRef,
    steps: Seq<int>,
) -> int
    decreases steps.len(),
{
    if steps.len() == 0 {
        0
    } else {
        route_cost(nav, overrides, from, steps.drop_last()) + ways_from(
            nav,
            overrides,
            route_end(nav, overrides, from, steps.drop_last()),
        )[steps.last()].0
    }
}

/// The nodes that a route passes, the first and the last included.
pub open(crate) spec fn route_nodes(
    nav: &NavigationData,
    overrides: &CostOverrides,
    from: NodeRef,
    steps: Seq<int>,
) -> Seq<NodeRef>
    decreases steps.len(),
{
    if steps.len() == 0 {
        seq![from]
    } else {
        route_nodes(nav, overrides, from, steps.drop_last()).push(
            route_end(nav, overrides, from, steps),
        )
    }
}

/// The nodes that the ways on from `node` through the first `n` edges of its
/// polygon lead to.
pub open(crate) spec fn mesh_targets(nav: &NavigationData, node: NodeRef, n: int) -> Seq<NodeRef>
    decreases n,
{
    if n <= 0 {
        Seq::empty()
    } else {
        let before = mesh_targets(nav, node, n - 1);
        match island_of(nav.islands, node.island_id).mesh().link(node.polygon_index as int, n - 1) {
            Some(way) => before.push(
                NodeRef { island_id: node.island_id, polygon_index: way.polygon_index },
            ),
            None => before,
        }
    }
}

/// The nodes that the first `n` links of the archipelago lead to from
/// `node`.
pub open(crate) spec fn link_targets(nav: &NavigationData, node: NodeRef, n: int) -> Seq<NodeRef>
    decreases n,
{
    if n <= 0 {
        Seq::empty()
    } else {
        let before = link_targets(nav, node, n - 1);
        let link = nav.boundary_links.values()[n - 1];
        if link.source_node == node {
            before.push(link.destination_node)
        } else {
            before
        }
    }
}

/// The nodes next to `node`: those on the other side of the edges of its
/// polygon, then those that links lead to from it.
pub open(crate) spec fn neighbors(nav: &NavigationData, node: NodeRef) -> Seq<NodeRef> {
    mesh_targets(
        nav,
        node,
        island_of(nav.islands, node.island_id).mesh().polys()[node.polygon_index as int].len() as int,
    ) + link_targets(nav, node, nav.boundary_links.values().len() as int)
}

/// The node that `hops` lead to from `from`: each hop is the place of a
/// node among the neighbors of the node before.
pub open(crate) spec fn hop_end(nav: &NavigationData, from: NodeRef, hops: Seq<int>) -> NodeRef
    decreases hops.len(),
{
    if hops.len() == 0 {
        from
    } else {
        neighbors(nav, hop_end(nav, from, hops.drop_last()))[hops.last()]
    }
}

/// Whether every hop names a neighbor of the node before.
pub open(crate) spec fn hops_ok(nav: &NavigationData, from: NodeRef, hops: Seq<int>) -> bool
    decreases hops.len(),
{
    if hops.len() == 0 {
        true
    } else {
        &&& hops_ok(nav, from, hops.drop_last())
        &&& 0 <= hops.last() < neighbors(nav, hop_end(nav, from, hops.drop_last())).len()
    }
}

/// Whether `hops` lead from `from` to `to`, from neighbor to neighbor.
pub open(crate) spec fn walks_to(
    nav: &NavigationData,
    from: NodeRef,
    hops: Seq<int>,
    to: NodeRef,
) -> bool {
    hops_ok(nav, from, hops) && hop_end(nav, from, hops) == to
}

/// Whether there is a way from `from` to `to`, from neighbor to neighbor.
pub open(crate) spec fn reachable(nav: &NavigationData, from: NodeRef, to: NodeRef) -> bool {
    exists|hops: Seq<int>| #[trigger] walks_to(nav, from, hops, to)
}

proof fn lemma_mesh_targets(nav: &NavigationData, overrides: &CostOverrides, node: NodeRef, n: int)
    ensures
        mesh_ways(nav, overrides, node, n).len() == mesh_targets(nav, node, n).len(),
        forall|k: int|
            0 <= k < mesh_targets(nav, node, n).len() ==> (#[trigger] mesh_ways(
                nav,
                overrides,
                node,
                n,
            )[k]).2 == mesh_targets(nav, node, n)[k],
    decreases n,
{
    if n > 0 {
        lemma_mesh_targets(nav, overrides, node, n - 1);
    }
}

proof fn lemma_link_targets(nav: &NavigationData, node: NodeRef, n: int)
    ensures
        link_ways(nav, node, n).len() == link_targets(nav, node, n).len(),
        forall|k: int|
            0 <= k < link_targets(nav, node, n).len() ==> (#[trigger] link_ways(nav, node, n)[k]).2
                == link_targets(nav, node, n)[k],
    decreases n,
{
    if n > 0 {
        lemma_link_targets(nav, node, n - 1);
    }
}

/// The ways on from a node lead to its neighbors, whatever they cost.
pub(crate) proof fn lemma_neighbors(nav: &NavigationData, overrides: &CostOverrides, node: NodeRef)
    ensures
        ways_from(nav, overrides, node).len() == neighbors(nav, node).len(),
        forall|k: int|
            0 <= k < neighbors(nav, node).len() ==> (#[trigger] ways_from(
                nav,
                overrides,
                node,
            )[k]).2 == neighbors(nav, node)[k],
{
    let n = island_of(nav.islands, node.island_id).mesh().polys()[node.polygon_index as int].len() as int;
    let m = nav.boundary_links.values().len() as int;
    lemma_mesh_targets(nav, overrides, node, n);
    lemma_link_targets(nav, node, m);
    let first = mesh_ways(nav, overrides, node, n);
    assert forall|k: int| 0 <= k < neighbors(nav, node).len() implies (#[trigger] ways_from(
        nav,
        overrides,
        node,
    )[k]).2 == neighbors(nav, node)[k] by {
        if k < first.len() {
            assert(ways_from(nav, overrides, node)[k] == first[k]);
        } else {
            assert(ways_from(nav, overrides, node)[k] == link_ways(nav, node, m)[k - first.len()]);
        }
    }
}

/// A route, whatever its steps cost, is a walk from neighbor to neighbor,
/// and the other way round.
pub(crate) proof fn lemma_route_walks(
    nav: &NavigationData,
    overrides: &CostOverrides,
    from: NodeRef,
    steps: Seq<int>,
    to: NodeRef,
)
    ensures
        hops_ok(nav, from, steps) == route_ok(nav, overrides, from, steps),
        hops_ok(nav, from, steps) ==> hop_end(nav, from, steps) == route_end(
            nav,
            overrides,
            from,
            steps,
        ),
        walks_to(nav, from, steps, to) <==> route_ok(nav, overrides, from, steps) && route_end(
            nav,
            overrides,
            from,
            steps,
        ) == to,
    decreases steps.len(),
{
    if steps.len() > 0 {
        let before_steps = steps.drop_last();
        let at = route_end(nav, overrides, from, before_steps);
        lemma_route_walks(nav, overrides, from, before_steps, at);
        lemma_neighbors(nav, overrides, at);
    }
}

/// The estimate of the cost from `node` to `end`: the distance between
/// their centers in the world, rounded down, at the default cost.
pub open(crate) spec fn estimate_to(nav: &NavigationData, node: NodeRef, end: NodeRef) -> u64 {
    (dist(world_center(nav.islands, node), world_center(nav.islands, end)) * DEFAULT_COST) as u64
}

/// The estimate is consistent: at no node is it more than the cost of a way
/// on plus the estimate at the node that the way leads to.
pub open(crate) spec fn estimate_consistent(
    nav: &NavigationData,
    overrides: &CostOverrides,
    end: NodeRef,
) -> bool {
    forall|node: NodeRef, k: int|
        nav.has_node(node) && 0 <= k < ways_from(nav, overrides, node).len() ==> estimate_to(
            nav,
            node,
            end,
        ) <= (#[trigger] ways_from(nav, overrides, node)[k]).0 + estimate_to(
            nav,
            ways_from(nav, overrides, node)[k].2,
            end,
        )
}

/// The walks of the search are the routes of the archipelago.
proof fn lemma_walk_is_route(problem: &ArchipelagoPathProblem, from: NodeRef, steps: Seq<int>)
    ensures
        walk_ok(problem, from, steps) == route_ok(problem.nav_data, problem.overrides, from, steps),
        walk_end(problem, from, steps) == route_end(
            problem.nav_data,
            problem.overrides,
            from,
            steps,
        ),
        walk_cost(problem, from, steps) == route_cost(
            problem.nav_data,
            problem.overrides,
            from,
            steps,
        ),
        walk_states(problem, from, steps) == route_nodes(
            problem.nav_data,
            problem.overrides,
            from,
            steps,
        ),
    decreases steps.len(),
{
    if steps.len() > 0 {
        lemma_walk_is_route(problem, from, steps.drop_last());
    }
}

/// A route stays in the region it starts in.
proof fn lemma_route_region(
    nav: &NavigationData,
    overrides: &CostOverrides,
    from: NodeRef,
    steps: Seq<int>,
)
    requires
        nav.wf(),
        !nav.is_dirty(),
        nav.has_node(from),
        route_ok(nav, overrides, from, steps),
    ensures
        nav.has_node(route_end(nav, overrides, from, steps)),
        nav.region(route_end(nav, overrides, from, steps)) == nav.region(from),
    decreases steps.len(),
{
    if steps.len() > 0 {
        let before = steps.drop_last();
        lemma_route_region(nav, overrides, from, before);
        let at = route_end(nav, overrides, from, before);
        lemma_ways_from(nav, overrides, at);
        let way = ways_from(nav, overrides, at)[steps.last()];
        assert(way_ok(nav, at, way));
        let place = nav.islands.place(at.island_id.0);
        assert(0 <= place < nav.islands.ids().len());
        match way.1 {
            PathStep::NodeConnection(i) => {
                assert(island_agrees(nav.islands, nav.regions@, place));
            },
            PathStep::BoundaryLink(id) => {
                let k = nav.boundary_links.place(id.0);
                assert(0 <= k < nav.boundary_links.ids().len());
                assert(region_of(nav.islands, nav.regions@, nav.boundary_links.values()[k].source_node)
                    == region_of(
                    nav.islands,
                    nav.regions@,
                    nav.boundary_links.values()[k].destination_node,
                ));
            },
        }
    }
}

/// `path` passes through the nodes of a route from `start` to `end`; and
/// where the estimate is consistent, no route from `start` to `end` costs
/// less than that one.
pub open(crate) spec fn follows_cheapest(
    nav: &NavigationData,
    overrides: &CostOverrides,
    path: &Path,
    start: NodeRef,
    end: NodeRef,
) -> bool {
    exists|steps: Seq<int>|
        {
            &&& #[trigger] route_ok(nav, overrides, start, steps)
            &&& route_end(nav, overrides, start, steps) == end
            &&& path.nodes() == route_nodes(nav, overrides, start, steps)
            &&& estimate_consistent(nav, overrides, end) ==> forall|other: Seq<int>| #[trigger]
                route_ok(nav, overrides, start, other) && route_end(nav, overrides, start, other)
                    == end ==> route_cost(nav, overrides, start, steps) <= route_cost(
                    nav,
                    overrides,
                    start,
                    other,
                )
        }
}

/// What finding a path gave.
pub struct PathResult {
    /// What the search did.
    pub stats: PathStats,
    /// The path, if there is one.
    pub path: Option<Path>,
}

/// Where the estimate of the archipelago is consistent, so is that of the
/// search.
proof fn lemma_consistent(problem: &ArchipelagoPathProblem)
    requires
        problem.wf(),
        estimate_consistent(problem.nav_data, problem.overrides, problem.end_node),
    ensures
        consistent(problem),
{
    let center = world_center(problem.nav_data.islands, problem.end_node);
    assert(crate::math::dist_sq(center, center) == 0) by (nonlinear_arith)
        requires
            crate::math::dist_sq(center, center) == (center.x - center.x) * (center.x - center.x)
                + (center.y - center.y) * (center.y - center.y) + (center.z - center.z) * (center.z
                - center.z),
    ;
    lemma_sqrt_floor_unique(0, 0);
    assert forall|s: NodeRef, k: int|
        problem.state_ok(s) && 0 <= k < problem.successors_of(s).len() implies problem.estimate(s)
        <= (#[trigger] problem.successors_of(s)[k]).0 + problem.estimate(
        problem.successors_of(s)[k].2,
    ) by {
        let way = ways_from(problem.nav_data, problem.overrides, s)[k];
        assert(estimate_to(problem.nav_data, s, problem.end_node) <= way.0 + estimate_to(
            problem.nav_data,
            way.2,
            problem.end_node,
        ));
    }
}

/// The nodes of segments of which the last has got one polygon more.
proof fn lemma_nodes_grown(before: Seq<IslandSegment>, after: Seq<IslandSegment>, polygon: usize)
    requires
        before.len() >= 1,
        after.len() == before.len(),
        forall|s: int| 0 <= s < before.len() - 1 ==> after[s] == before[s],
        after.last().island_id == before.last().island_id,
        after.last().corridor@ == before.last().corridor@.push(polygon),
    ensures
        nodes_of(after) == nodes_of(before).push(
            NodeRef { island_id: before.last().island_id, polygon_index: polygon },
        ),
{
    assert(after.drop_last() =~= before.drop_last());
    assert(segment_nodes(after.last()) =~= segment_nodes(before.last()).push(
        NodeRef { island_id: before.last().island_id, polygon_index: polygon },
    ));
    assert(nodes_of(after) =~= nodes_of(before).push(
        NodeRef { island_id: before.last().island_id, polygon_index: polygon },
    ));
}

/// The nodes of segments with one more segment, of one polygon.
proof fn lemma_nodes_added(before: Seq<IslandSegment>, segment: IslandSegment)
    requires
        segment.corridor.len() == 1,
    ensures
        nodes_of(before.push(segment)) == nodes_of(before).push(segment_node(segment, 0)),
{
    assert(before.push(segment).drop_last() =~= before);
    assert(segment_nodes(segment) =~= seq![segment_node(segment, 0)]);
    assert(nodes_of(before.push(segment)) =~= nodes_of(before).push(segment_node(segment, 0)));
}

/// The path that takes `actions`, the actions of the walk `steps`, from the
/// start node.
fn build_path(
    problem: &ArchipelagoPathProblem,
    actions: &Vec<PathStep>,
    Ghost(steps): Ghost<Seq<int>>,
) -> (path: Path)
    requires
        problem.wf(),
        walk_ok(problem, problem.start_node, steps),
        actions@ == walk_actions(problem, problem.start_node, steps),
    ensures
        path.valid_in(problem.nav_data),
        path.nodes() == walk_states(problem, problem.start_node, steps),
{
    let nav = problem.nav_data;
    let ghost start = problem.start_node;
    let mut segments: Vec<IslandSegment> = Vec::new();
    let mut links: Vec<BoundaryLinkSegment> = Vec::new();
    let mut corridor: Vec<usize> = Vec::new();
    corridor.push(problem.start_node.polygon_index);
    let first = IslandSegment {
        island_id: problem.start_node.island_id,
        corridor,
        portal_edge_index: Vec::new(),
    };
    segments.push(first);
    let mut current = problem.start_node;
    proof {
        lemma_walk_prefix(problem, start, steps, 0);
        assert(steps.take(0) =~= Seq::<int>::empty());
        lemma_nodes_added(Seq::<IslandSegment>::empty(), segments@[0]);
        assert(segments@ =~= Seq::<IslandSegment>::empty().push(segments@[0]));
        assert(nodes_of(Seq::<IslandSegment>::empty()) =~= Seq::<NodeRef>::empty());
        assert(segment_node(segments@[0], 0) == start);
        assert(nodes_of(segments@) =~= seq![start]);
    }
    let mut a: usize = 0;
    while a < actions.len()
        invariant
            problem.wf(),
            nav == problem.nav_data,
            start == problem.start_node,
            walk_ok(problem, start, steps),
            actions@ == walk_actions(problem, start, steps),
            actions.len() == steps.len(),
            a <= actions.len(),
            segments.len() >= 1,
            links.len() == segments.len() - 1,
            forall|s: int| 0 <= s < segments.len() ==> segment_ok(nav, #[trigger] segments[s]),
            forall|s: int|
                0 <= s < links.len() ==> step_ok(nav, #[trigger] links[s], segments[s], segments[s + 1]),
            current == walk_end(problem, start, steps.take(a as int)),
            nav.has_node(current),
            current == segment_node(segments@.last(), segments@.last().corridor.len() - 1),
            nodes_of(segments@) == walk_states(problem, start, steps.take(a as int)),
        decreases actions.len() - a,
    {
        proof {
            lemma_walk_prefix(problem, start, steps, a as int);
            lemma_ways_from(nav, problem.overrides, current);
            let way = ways_from(nav, problem.overrides, current)[steps[a as int]];
            assert(way_ok(nav, current, way));
        }
        let ghost way = ways_from(nav, problem.overrides, current)[steps[a as int]];
        let ghost before = segments@;
        let ghost links_before = links@;
        let last: usize = segments.len() - 1;
        match actions[a] {
            PathStep::NodeConnection(edge) => {
                let next: usize = match nav.islands.get(current.island_id.0) {
                    Some(slot) => match &slot.island.nav_data {
                        Some(data) => match data.nav_mesh.get_connectivity(
                            current.polygon_index,
                            edge,
                        ) {
                            Some(crossing) => crossing.polygon_index,
                            None => 0,
                        },
                        None => 0,
                    },
                    None => 0,
                };
                assert(segment_ok(nav, before[last as int]));
                segments[last].corridor.push(next);
                segments[last].portal_edge_index.push(edge);
                proof {
                    let grown = segments@[last as int];
                    let old_segment = before[last as int];
                    assert(way.2 == NodeRef { island_id: current.island_id, polygon_index: next });
                    assert(grown.corridor@ == old_segment.corridor@.push(next));
                    assert(grown.portal_edge_index@ == old_segment.portal_edge_index@.push(edge));
                    assert(grown.island_id == old_segment.island_id);
                    assert(segment_ok(nav, grown)) by {
                        assert forall|c: int| 0 <= c < grown.corridor.len() implies node_in(
                            nav.islands,
                            #[trigger] segment_node(grown, c),
                        ) by {
                            if c < old_segment.corridor.len() {
                                assert(segment_node(grown, c) == segment_node(old_segment, c));
                            }
                        }
                        let mesh = island_of(nav.islands, grown.island_id).mesh();
                        assert forall|c: int| 0 <= c < grown.portal_edge_index.len() implies {
                            &&& is_position(
                                mesh.polys(),
                                grown.corridor[c] as int,
                                (#[trigger] grown.portal_edge_index[c]) as int,
                            )
                            &&& mesh.link(
                                grown.corridor[c] as int,
                                grown.portal_edge_index[c] as int,
                            ) is Some
                            &&& mesh.link(
                                grown.corridor[c] as int,
                                grown.portal_edge_index[c] as int,
                            )->0.polygon_index == grown.corridor[c + 1]
                        } by {
                            if c < old_segment.portal_edge_index.len() {
                                assert(grown.portal_edge_index[c]
                                    == old_segment.portal_edge_index[c]);
                            }
                        }
                    }
                    assert forall|s: int| 0 <= s < segments.len() implies segment_ok(
                        nav,
                        #[trigger] segments[s],
                    ) by {
                        if s < last {
                            assert(segments@[s] == before[s]);
                        }
                    }
                    assert forall|s: int| 0 <= s < links.len() implies step_ok(
                        nav,
                        #[trigger] links[s],
                        segments[s],
                        segments[s + 1],
                    ) by {
                        assert(step_ok(nav, links_before[s], before[s], before[s + 1]));
                        assert(segments@[s] == before[s]);
                        if s + 1 < last {
                            assert(segments@[s + 1] == before[s + 1]);
                        } else {
                            assert(segment_node(segments@[s + 1], 0) == segment_node(
                                before[s + 1],
                                0,
                            ));
                        }
                    }
                    lemma_nodes_grown(before, segments@, next);
                }
                current = NodeRef { island_id: current.island_id, polygon_index: next };
            },
            PathStep::BoundaryLink(id) => {
                let next = match nav.boundary_links.get(id.0) {
                    Some(link) => link.destination_node,
                    None => current,
                };
                links.push(BoundaryLinkSegment { starting_node: current, boundary_link: id });
                let mut corridor: Vec<usize> = Vec::new();
                corridor.push(next.polygon_index);
                let segment = IslandSegment {
                    island_id: next.island_id,
                    corridor,
                    portal_edge_index: Vec::new(),
                };
                proof {
                    assert(way.2 == next);
                    assert(segment_node(segment, 0) == next);
                    lemma_nodes_added(before, segment);
                }
                segments.push(segment);
                proof {
                    assert forall|s: int| 0 <= s < segments.len() implies segment_ok(
                        nav,
                        #[trigger] segments[s],
                    ) by {
                        if s < before.len() {
                            assert(segments@[s] == before[s]);
                        }
                    }
                    assert forall|s: int| 0 <= s < links.len() implies step_ok(
                        nav,
                        #[trigger] links[s],
                        segments[s],
                        segments[s + 1],
                    ) by {
                        if s < links_before.len() {
                            assert(step_ok(nav, links_before[s], before[s], before[s + 1]));
                        }
                    }
                }
                current = next;
            },
        }
        a = a + 1;
    }
    proof {
        lemma_walk_prefix(problem, start, steps, steps.len() as int);
        assert(steps.take(steps.len() as int) =~= steps);
    }
    Path { island_segments: segments, boundary_link_segments: links }
}

/// Finds a path from `start_node` to `end_node`, with the costs of the node
/// types as `overrides` or else the archipelago has them. Nodes in different
/// regions have no path between them, and none is searched for. Where there
/// is a path one is found, following a route than which none costs less if
/// the estimate is consistent.
pub fn find_path(
    nav_data: &NavigationData,
    start_node: NodeRef,
    end_node: NodeRef,
    overrides: &CostOverrides,
) -> (r: PathResult)
    requires
        nav_data.wf(),
        !nav_data.is_dirty(),
        overrides.wf(),
        nav_data.has_node(start_node),
        nav_data.has_node(end_node),
    ensures
        match r.path {
            Some(path) => {
                &&& polygon_total(nav_data) <= usize::MAX
                &&& path.valid_in(nav_data)
                &&& follows_cheapest(nav_data, overrides, &path, start_node, end_node)
            },
            None => polygon_total(nav_data) > usize::MAX || !reachable(
                nav_data,
                start_node,
                end_node,
            ),
        },
        r.path is Some ==> reachable(nav_data, start_node, end_node),
{
    if !nav_data.are_nodes_connected(start_node, end_node) {
        proof {
            assert forall|hops: Seq<int>| !#[trigger] walks_to(
                nav_data,
                start_node,
                hops,
                end_node,
            ) by {
                lemma_route_walks(nav_data, overrides, start_node, hops, end_node);
                if route_ok(nav_data, overrides, start_node, hops) {
                    lemma_route_region(nav_data, overrides, start_node, hops);
                }
            }
        }
        return PathResult { stats: PathStats { explored_nodes: 0 }, path: None };
    }
    let problem = match ArchipelagoPathProblem::new(nav_data, start_node, end_node, overrides) {
        Some(problem) => problem,
        None => {
            return PathResult { stats: PathStats { explored_nodes: 0 }, path: None };
        },
    };
    let found = crate::astar::find_path(&problem);
    let actions = match found.path {
        Some(actions) => actions,
        None => {
            proof {
                assert forall|hops: Seq<int>| !#[trigger] walks_to(
                    nav_data,
                    start_node,
                    hops,
                    end_node,
                ) by {
                    lemma_route_walks(nav_data, overrides, start_node, hops, end_node);
                    lemma_walk_is_route(&problem, start_node, hops);
                    assert(!reaches_goal(&problem, hops));
                }
            }
            return PathResult { stats: found.stats, path: None };
        },
    };
    let ghost steps = choose|steps: Seq<int>|
        {
            &&& #[trigger] reaches_goal(&problem, steps)
            &&& actions@ == walk_actions(&problem, problem.initial(), steps)
            &&& consistent(&problem) ==> forall|other: Seq<int>| #[trigger]
                reaches_goal(&problem, other) ==> walk_cost(&problem, problem.initial(), steps)
                    <= walk_cost(&problem, problem.initial(), other)
        };
    let path = build_path(&problem, &actions, Ghost(steps));
    proof {
        lemma_walk_is_route(&problem, start_node, steps);
        assert(route_ok(nav_data, overrides, start_node, steps));
        assert(path.nodes() == route_nodes(nav_data, overrides, start_node, steps));
        lemma_route_walks(nav_data, overrides, start_node, steps, end_node);
        if estimate_consistent(nav_data, overrides, end_node) {
            lemma_consistent(&problem);
            assert forall|other: Seq<int>| #[trigger]
                route_ok(nav_data, overrides, start_node, other) && route_end(
                    nav_data,
                    overrides,
                    start_node,
                    other,
                ) == end_node implies route_cost(nav_data, overrides, start_node, steps)
                <= route_cost(nav_data, overrides, start_node, other) by {
                lemma_walk_is_route(&problem, start_node, other);
                assert(reaches_goal(&problem, other));
            }
        }
    }
    PathResult { stats: found.stats, path: Some(path) }
}

/// While the links are up to date, a node that can be reached from another
/// is in the same region: nodes in different regions have no way between
/// them.
pub proof fn lemma_reachable_in_region(nav: NavigationData, from: NodeRef, to: NodeRef)
    requires
        nav.wf(),
        !nav.is_dirty(),
        nav.has_node(from),
        reachable(&nav, from, to),
    ensures
        nav.has_node(to),
        nav.region(to) == nav.region(from),
{
    let hops = choose|hops: Seq<int>| #[trigger] walks_to(&nav, from, hops, to);
    let overrides = vstd::pervasive::arbitrary::<CostOverrides>();
    lemma_route_walks(&nav, &overrides, from, hops, to);
    lemma_route_region(&nav, &overrides, from, hops);
}

/// The node on the other side of an edge is among the first nodes next to a
/// node.
proof fn lemma_mesh_target_in(nav: &NavigationData, node: NodeRef, n: int, i: int)
    requires
        0 <= i < n,
        island_of(nav.islands, node.island_id).mesh().link(node.polygon_index as int, i) is Some,
    ensures
        exists|h: int|
            0 <= h < mesh_targets(nav, node, n).len() && #[trigger] mesh_targets(nav, node, n)[h]
                == (NodeRef {
                island_id: node.island_id,
                polygon_index: island_of(nav.islands, node.island_id).mesh().link(
                    node.polygon_index as int,
                    i,
                )->0.polygon_index,
            }),
    decreases n,
{
    let before = mesh_targets(nav, node, n - 1);
    let target = NodeRef {
        island_id: node.island_id,
        polygon_index: island_of(nav.islands, node.island_id).mesh().link(
            node.polygon_index as int,
            i,
        )->0.polygon_index,
    };
    if i == n - 1 {
        assert(mesh_targets(nav, node, n)[before.len() as int] == target);
    } else {
        lemma_mesh_target_in(nav, node, n - 1, i);
        let h = choose|h: int| 0 <= h < before.len() && #[trigger] before[h] == target;
        assert(mesh_targets(nav, node, n)[h] == target);
    }
}

/// The node that a link leads to is among the nodes that links lead to.
proof fn lemma_link_target_in(nav: &NavigationData, node: NodeRef, n: int, k: int)
    requires
        0 <= k < n <= nav.boundary_links.values().len(),
        nav.boundary_links.values()[k].source_node == node,
    ensures
        exists|h: int|
            0 <= h < link_targets(nav, node, n).len() && #[trigger] link_targets(nav, node, n)[h]
                == nav.boundary_links.values()[k].destination_node,
    decreases n,
{
    let before = link_targets(nav, node, n - 1);
    let target = nav.boundary_links.values()[k].destination_node;
    if k == n - 1 {
        assert(link_targets(nav, node, n)[before.len() as int] == target);
    } else {
        lemma_link_target_in(nav, node, n - 1, k);
        let h = choose|h: int| 0 <= h < before.len() && #[trigger] before[h] == target;
        assert(link_targets(nav, node, n)[h] == target);
    }
}

/// A node that one step leads to is next to the node that it leads from.
proof fn lemma_step_neighbor(nav: &NavigationData, from: NodeRef, to: NodeRef)
    requires
        steps_to(nav.islands, nav.boundary_links, from, to),
    ensures
        exists|h: int|
            0 <= h < neighbors(nav, from).len() && #[trigger] neighbors(nav, from)[h] == to,
{
    let mesh = island_of(nav.islands, from.island_id).mesh();
    let n = mesh.polys()[from.polygon_index as int].len() as int;
    let m = nav.boundary_links.values().len() as int;
    let first = mesh_targets(nav, from, n);
    let second = link_targets(nav, from, m);
    if exists|i: int| #[trigger] edge_leads(nav.islands, from, to, i) {
        let i = choose|i: int| #[trigger] edge_leads(nav.islands, from, to, i);
        lemma_mesh_target_in(nav, from, n, i);
        let h = choose|h: int| 0 <= h < first.len() && #[trigger] first[h] == to;
        assert(neighbors(nav, from)[h] == to);
    } else {
        let k = choose|k: int| #[trigger] link_leads(nav.boundary_links, from, to, k);
        lemma_link_target_in(nav, from, m, k);
        let h = choose|h: int| 0 <= h < second.len() && #[trigger] second[h] == to;
        assert(neighbors(nav, from)[first.len() + h] == to);
    }
}

/// Where one step leads from a node to another, one step leads back.
proof fn lemma_step_back(nav: &NavigationData, from: NodeRef, to: NodeRef)
    requires
        nav.wf(),
        steps_to(nav.islands, nav.boundary_links, from, to),
    ensures
        steps_to(nav.islands, nav.boundary_links, to, from),
{
    if exists|i: int| #[trigger] edge_leads(nav.islands, from, to, i) {
        let i = choose|i: int| #[trigger] edge_leads(nav.islands, from, to, i);
        let place = nav.islands.place(from.island_id.0);
        assert(0 <= place < nav.islands.ids().len());
        assert(nav.islands.values()[place].island.wf());
        let mesh = island_of(nav.islands, from.island_id).mesh();
        let p = from.polygon_index as int;
        let q = to.polygon_index as int;
        assert(link_ok(mesh.points(), mesh.polys(), mesh.link(p, i), p, i));
        let j = choose|j: int| #[trigger] shares_edge(mesh.polys(), p, i, q, j);
        crate::nav_mesh::lemma_shared_edges_match(mesh, p, i, q, j);
        assert(edge_leads(nav.islands, to, from, j));
    } else {
        let k = choose|k: int| #[trigger] link_leads(nav.boundary_links, from, to, k);
        let links = nav.boundary_links;
        assert(crate::nav_data::paired_at(links, k)) by {
            reveal(crate::nav_data::all_paired);
        }
        let back = links.place(links.values()[k].reverse_link.0);
        assert(0 <= back < links.ids().len());
        assert(link_leads(links, to, from, back));
    }
}

/// A chain of nodes, each next to the one before, is a way from neighbor to
/// neighbor.
proof fn lemma_chain_reachable(nav: &NavigationData, chain: Seq<NodeRef>, from: NodeRef, to: NodeRef)
    requires
        nav.wf(),
        chain_joins(nav.islands, nav.boundary_links, chain, from, to),
    ensures
        reachable(nav, from, to),
    decreases chain.len(),
{
    if chain.len() == 1 {
        assert(walks_to(nav, from, Seq::<int>::empty(), to));
    } else {
        let rest = chain.drop_last();
        let before = rest[rest.len() - 1];
        assert forall|n: int| 0 <= n < rest.len() - 1 implies touches(
            nav.islands,
            nav.boundary_links,
            #[trigger] rest[n],
            rest[n + 1],
        ) by {
            assert(touches(nav.islands, nav.boundary_links, chain[n], chain[n + 1]));
        }
        assert(chain_joins(nav.islands, nav.boundary_links, rest, from, before));
        lemma_chain_reachable(nav, rest, from, before);
        assert(touches(
            nav.islands,
            nav.boundary_links,
            chain[chain.len() - 2],
            chain[chain.len() - 2 + 1],
        ));
        if !steps_to(nav.islands, nav.boundary_links, before, to) {
            lemma_step_back(nav, to, before);
        }
        lemma_step_neighbor(nav, before, to);
        let h = choose|h: int|
            0 <= h < neighbors(nav, before).len() && #[trigger] neighbors(nav, before)[h] == to;
        let hops = choose|hops: Seq<int>| #[trigger] walks_to(nav, from, hops, before);
        let longer = hops.push(h);
        assert(longer.drop_last() =~= hops);
        assert(walks_to(nav, from, longer, to));
    }
}

/// While the links are up to date, two nodes are connected exactly when
/// there is a way from the one to the other, from neighbor to neighbor.
pub proof fn lemma_connected_is_reachable(nav: NavigationData, from: NodeRef, to: NodeRef)
    requires
        nav.wf(),
        !nav.is_dirty(),
        nav.has_node(from),
        nav.has_node(to),
    ensures
        nav.connects(from, to) == reachable(&nav, from, to),
{
    if nav.connects(from, to) {
        let chain = choose|chain: Seq<NodeRef>| #[trigger]
            chain_joins(nav.islands, nav.boundary_links, chain, from, to);
        lemma_chain_reachable(&nav, chain, from, to);
    }
    if reachable(&nav, from, to) {
        lemma_reachable_in_region(nav, from, to);
        reveal(regions_tight);
    }
}

/// No polygon costs less than the default, with the costs as `overrides` or
/// else the archipelago has them.
pub open(crate) spec fn costs_at_least_default(nav: &NavigationData, overrides: &CostOverrides) -> bool {
    forall|k: int, p: int|
        0 <= k < nav.islands.values().len() && nav.islands.values()[k].island.has_nav_data() && 0
            <= p < nav.islands.values()[k].island.mesh().polys().len() ==> #[trigger] polygon_cost(
            nav,
            overrides,
            nav.islands.values()[k].island,
            p,
        ) >= DEFAULT_COST
}

/// Every island is placed without stretching: the centers of two polygons
/// of an island are as far apart in the world as in the mesh. This holds of
/// an island that is moved without being turned, or turned by quarter
/// turns, as long as no coordinate saturates.
pub open(crate) spec fn placements_rigid(nav: &NavigationData) -> bool {
    forall|k: int, p: int, q: int|
        0 <= k < nav.islands.values().len() && nav.islands.values()[k].island.has_nav_data() && 0
            <= p < nav.islands.values()[k].island.mesh().polys().len() && 0 <= q
            < nav.islands.values()[k].island.mesh().polys().len() ==> #[trigger] placed_rigidly(
            nav.islands.values()[k].island,
            p,
            q,
        )
}

/// The centers of the polygons `p` and `q` are as far apart in the world as
/// in the mesh.
pub open(crate) spec fn placed_rigidly(island: Island, p: int, q: int) -> bool {
    dist_sq(
        island.transform().apply_spec(island.mesh().center(p)),
        island.transform().apply_spec(island.mesh().center(q)),
    ) == dist_sq(island.mesh().center(p), island.mesh().center(q))
}

/// A hop that costs at least the default cost for each unit of the distance
/// between two nodes does not outrun the estimate.
proof fn lemma_hop_estimate(from: Vec3, to: Vec3, end: Vec3, p: int, cost: u64)
    requires
        0 <= p,
        p * p >= dist_sq(from, to),
        cost >= sat64(p * DEFAULT_COST),
    ensures
        (dist(from, end) * DEFAULT_COST) as u64 <= cost + (dist(to, end) * DEFAULT_COST) as u64,
        (dist(from, end) * DEFAULT_COST) as u64 == dist(from, end) * DEFAULT_COST,
        (dist(to, end) * DEFAULT_COST) as u64 == dist(to, end) * DEFAULT_COST,
{
    lemma_detour(from, to, end, p);
    lemma_dist_bound(from, end);
    lemma_dist_bound(to, end);
}

/// Crossing an edge does not outrun the estimate, where no polygon costs
/// less than the default and the islands are placed without stretching.
proof fn lemma_crossing_consistent(
    nav: &NavigationData,
    overrides: &CostOverrides,
    node: NodeRef,
    i: int,
    end: NodeRef,
)
    requires
        nav.wf(),
        nav.has_node(node),
        costs_at_least_default(nav, overrides),
        placements_rigid(nav),
        is_position(
            island_of(nav.islands, node.island_id).mesh().polys(),
            node.polygon_index as int,
            i,
        ),
        island_of(nav.islands, node.island_id).mesh().link(node.polygon_index as int, i) is Some,
    ensures
        estimate_to(nav, node, end) <= crossing_cost(nav, overrides, node, i) + estimate_to(
            nav,
            NodeRef {
                island_id: node.island_id,
                polygon_index: island_of(nav.islands, node.island_id).mesh().link(
                    node.polygon_index as int,
                    i,
                )->0.polygon_index,
            },
            end,
        ),
{
    let place = nav.islands.place(node.island_id.0);
    assert(0 <= place < nav.islands.ids().len() && nav.islands.ids()[place] == node.island_id.0);
    let island = nav.islands.values()[place].island;
    assert(island.wf());
    let mesh = island.mesh();
    let p = node.polygon_index as int;
    let way = mesh.link(p, i)->0;
    let q = way.polygon_index as int;
    assert(link_ok(mesh.points(), mesh.polys(), mesh.link(p, i), p, i));
    let j = choose|j: int| #[trigger] shares_edge(mesh.polys(), p, i, q, j);
    assert(mesh.polygon_ok(p));
    assert(mesh.polygon_ok(q));
    let polygon = mesh.polys()[p];
    let a = mesh.points()[polygon[i] as int];
    let b = mesh.points()[polygon[next_edge(polygon.len() as int, i)] as int];
    let middle = midpoint(a, b);
    let here = mesh.center(p);
    let there = mesh.center(q);
    lemma_dist_bound(here, middle);
    lemma_dist_bound(middle, there);
    let d0 = dist_ceil(here, middle);
    let d1 = dist_ceil(middle, there);
    assert(way.travel_distances.0 == d0 && way.travel_distances.1 == d1);
    lemma_triangle(here, middle, there, d0, d1);
    let c0 = polygon_cost(nav, overrides, island, p);
    let c1 = polygon_cost(nav, overrides, island, q);
    assert(c0 >= DEFAULT_COST && c1 >= DEFAULT_COST);
    assert(d0 * c0 + d1 * c1 >= (d0 + d1) * DEFAULT_COST) by (nonlinear_arith)
        requires
            0 <= d0,
            0 <= d1,
            c0 >= DEFAULT_COST,
            c1 >= DEFAULT_COST,
    ;
    let from = island.transform().apply_spec(here);
    let to = island.transform().apply_spec(there);
    assert(placed_rigidly(island, p, q));
    assert(dist_sq(from, to) == dist_sq(here, there));
    lemma_hop_estimate(
        from,
        to,
        world_center(nav.islands, end),
        d0 + d1,
        crossing_cost(nav, overrides, node, i),
    );
}

/// The index after `i` around a polygon of `n` vertices.
spec fn next_edge(n: int, i: int) -> int {
    crate::nav_mesh::next_index(n, i)
}

/// Taking a link does not outrun the estimate.
proof fn lemma_link_consistent(nav: &NavigationData, k: int, end: NodeRef)
    requires
        nav.wf(),
        !nav.is_dirty(),
        0 <= k < nav.boundary_links.values().len(),
    ensures
        estimate_to(nav, nav.boundary_links.values()[k].source_node, end) <= sat64(
            nav.boundary_links.values()[k].cost * DEFAULT_COST,
        ) + estimate_to(nav, nav.boundary_links.values()[k].destination_node, end),
{
    reveal(all_sound);
    let link = nav.boundary_links.values()[k];
    assert(link_sound(nav.islands, nav.link_tolerance, link));
    let (i, j) = choose|i: int, j: int| #[trigger]
        link_made_by(nav.islands, nav.link_tolerance, link, i, j);
    let from = world_center(nav.islands, link.source_node);
    let to = world_center(nav.islands, link.destination_node);
    let back = (link.portal.1, link.portal.0);
    if link.cost == link_cost(from, link.portal, to) {
        let middle = midpoint(link.portal.0, link.portal.1);
        lemma_dist_bound(from, middle);
        lemma_dist_bound(middle, to);
        lemma_triangle(from, middle, to, dist_ceil(from, middle), dist_ceil(middle, to));
    } else {
        let middle = midpoint(back.0, back.1);
        lemma_dist_bound(to, middle);
        lemma_dist_bound(middle, from);
        lemma_triangle(to, middle, from, dist_ceil(to, middle), dist_ceil(middle, from));
        lemma_dist_symmetric(to, from);
    }
    lemma_hop_estimate(
        from,
        to,
        world_center(nav.islands, end),
        link.cost as int,
        sat64(link.cost * DEFAULT_COST),
    );
}

proof fn lemma_mesh_ways_consistent(
    nav: &NavigationData,
    overrides: &CostOverrides,
    node: NodeRef,
    n: int,
    end: NodeRef,
)
    requires
        nav.wf(),
        nav.has_node(node),
        costs_at_least_default(nav, overrides),
        placements_rigid(nav),
        0 <= n <= island_of(nav.islands, node.island_id).mesh().polys()[node.polygon_index as int].len(),
    ensures
        forall|k: int|
            0 <= k < mesh_ways(nav, overrides, node, n).len() ==> estimate_to(nav, node, end) <= (
            #[trigger] mesh_ways(nav, overrides, node, n)[k]).0 + estimate_to(
                nav,
                mesh_ways(nav, overrides, node, n)[k].2,
                end,
            ),
    decreases n,
{
    if n > 0 {
        lemma_mesh_ways_consistent(nav, overrides, node, n - 1, end);
        let mesh = island_of(nav.islands, node.island_id).mesh();
        if mesh.link(node.polygon_index as int, n - 1) is Some {
            lemma_crossing_consistent(nav, overrides, node, n - 1, end);
        }
        let before = mesh_ways(nav, overrides, node, n - 1);
        let ways = mesh_ways(nav, overrides, node, n);
        assert forall|k: int| 0 <= k < ways.len() implies estimate_to(nav, node, end) <= (
        #[trigger] ways[k]).0 + estimate_to(nav, ways[k].2, end) by {
            if k < before.len() {
                assert(ways[k] == before[k]);
            }
        }
    }
}

proof fn lemma_link_ways_consistent(nav: &NavigationData, node: NodeRef, n: int, end: NodeRef)
    requires
        nav.wf(),
        !nav.is_dirty(),
        0 <= n <= nav.boundary_links.values().len(),
    ensures
        forall|k: int|
            0 <= k < link_ways(nav, node, n).len() ==> estimate_to(nav, node, end) <= (
            #[trigger] link_ways(nav, node, n)[k]).0 + estimate_to(
                nav,
                link_ways(nav, node, n)[k].2,
                end,
            ),
    decreases n,
{
    if n > 0 {
        lemma_link_ways_consistent(nav, node, n - 1, end);
        lemma_link_consistent(nav, n - 1, end);
        let before = link_ways(nav, node, n - 1);
        let ways = link_ways(nav, node, n);
        assert forall|k: int| 0 <= k < ways.len() implies estimate_to(nav, node, end) <= (
        #[trigger] ways[k]).0 + estimate_to(nav, ways[k].2, end) by {
            if k < before.len() {
                assert(ways[k] == before[k]);
            }
        }
    }
}

/// Where no polygon costs less than the default and every island is placed
/// without stretching, the estimate is consistent, so that the paths found
/// follow routes than which none costs less. A polygon that costs less than
/// the default can make the estimate too high, and the path found too
/// costly.
pub proof fn lemma_estimate_consistent(nav: NavigationData, overrides: CostOverrides, end: NodeRef)
    requires
        nav.wf(),
        !nav.is_dirty(),
        costs_at_least_default(&nav, &overrides),
        placements_rigid(&nav),
    ensures
        estimate_consistent(&nav, &overrides, end),
{
    assert forall|node: NodeRef, k: int|
        nav.has_node(node) && 0 <= k < ways_from(&nav, &overrides, node).len() implies estimate_to(
        &nav,
        node,
        end,
    ) <= (#[trigger] ways_from(&nav, &overrides, node)[k]).0 + estimate_to(
        &nav,
        ways_from(&nav, &overrides, node)[k].2,
        end,
    ) by {
        let mesh = island_of(nav.islands, node.island_id).mesh();
        let n = mesh.polys()[node.polygon_index as int].len() as int;
        let m = nav.boundary_links.values().len() as int;
        lemma_mesh_ways_consistent(&nav, &overrides, node, n, end);
        lemma_link_ways_consistent(&nav, node, m, end);
        let first = mesh_ways(&nav, &overrides, node, n);
        if k < first.len() {
            assert(ways_from(&nav, &overrides, node)[k] == first[k]);
        } else {
            assert(ways_from(&nav, &overrides, node)[k] == link_ways(&nav, node, m)[k
                - first.len()]);
        }
    }
}

} // verus!
