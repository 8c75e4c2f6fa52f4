//! The navigation data of an archipelago: its islands, the links between
//! their boundaries, and the costs of its node types.

use vstd::prelude::*;
use std::collections::HashMap;
use crate::island::{Island, IslandId, NodeType};
use crate::linking::{
    cost_of_link, edge_link, link_cost, link_edges, LinkTolerance, DEFAULT_LINK_TOLERANCE,
};
use crate::nav_mesh::MeshEdgeRef;
use crate::math::{dist_sq, Vec3};
use crate::nav_mesh::{is_position, sample_box};
use crate::slots::{
    lemma_place, lemma_place_after_push, lemma_place_after_remove, Arena,
};
use crate::regions::{
    all_grounded, build_regions, chain_joins, chain_ok, connected, edge_leads, island_agrees,
    lemma_connected_agree, link_leads, region_of, regions_agree, regions_shaped, regions_tight,
    steps_to, touches,
};
use crate::util::BoundingBox;

verus! {

/// The cost of a unit of distance on a polygon of the default node type. The
/// cost of a node type is given in thousandths.
pub const DEFAULT_COST: u32 = 1000;

/// A polygon of an island: a node of the graph that paths are found in.
#[derive(Clone, Copy, PartialEq, Eq, Structural, Debug, Hash)]
pub struct NodeRef {
    /// The island of the node.
    pub island_id: IslandId,
    /// The index of the polygon in the island's mesh.
    pub polygon_index: usize,
}

/// The id of a link between the boundaries of two islands.
#[derive(Clone, Copy, PartialEq, Eq, Structural, Debug, Hash)]
pub struct BoundaryLinkId(pub u64);

/// A way from a polygon on the boundary of one island to a polygon on the
/// boundary of another, across the stretch where two of their edges meet.
#[derive(Clone, Copy, PartialEq, Eq, Debug)]
pub struct BoundaryLink {
    /// The node that the link leaves.
    pub source_node: NodeRef,
    /// The node that the link leads to.
    pub destination_node: NodeRef,
    /// The stretch that the two edges share, in the world. Walking from the
    /// first point to the second, the source node is on the left.
    pub portal: (Vec3, Vec3),
    /// The cost of taking the link: the distance from the center of the
    /// source node to the middle of the portal and on to the center of the
    /// destination node.
    pub cost: u64,
    /// The link that leads back.
    pub reverse_link: BoundaryLinkId,
}

/// An island with what the archipelago keeps of it.
pub struct IslandSlot {
    pub(crate) island: Island,
    /// Whether the island may have changed since the links were last brought
    /// up to date.
    pub(crate) dirty: bool,
}

/// Why a node type could not be made.
#[derive(Clone, Copy, PartialEq, Eq, Structural, Debug)]
pub enum NewNodeTypeError {
    /// The cost is not positive. Holds the cost.
    NonPositiveCost(u32),
}

/// Why the cost of a node type could not be set.
#[derive(Clone, Copy, PartialEq, Eq, Structural, Debug)]
pub enum SetNodeTypeCostError {
    /// The cost is not positive. Holds the cost.
    NonPositiveCost(u32),
    /// The archipelago has no such node type.
    NodeTypeDoesNotExist(NodeType),
}

/// The islands of an archipelago, the links between them and the costs of
/// the node types.
pub struct NavigationData {
    pub(crate) islands: Arena<IslandSlot>,
    pub(crate) boundary_links: Arena<BoundaryLink>,
    pub(crate) node_type_costs: Arena<u32>,
    /// How far apart two boundary edges may be and still be linked.
    pub(crate) link_tolerance: LinkTolerance,
    /// For each island, in the order of `islands`, the region of each of its
    /// polygons: polygons that a way leads between are in one region. Up to
    /// date when `dirty` is false.
    pub(crate) regions: Vec<Vec<u128>>,
    /// Whether an island was added, removed or handed out for a change since
    /// the links were last brought up to date.
    pub(crate) dirty: bool,
}

/// The island `id` of `islands`.
pub open(crate) spec fn island_of(islands: Arena<IslandSlot>, id: IslandId) -> Island {
    islands.value(id.0).island
}

/// Whether `node` is a polygon of an island of `islands`.
pub open(crate) spec fn node_in(islands: Arena<IslandSlot>, node: NodeRef) -> bool {
    &&& islands.contains(node.island_id.0)
    &&& island_of(islands, node.island_id).has_nav_data()
    &&& node.polygon_index < island_of(islands, node.island_id).mesh().polys().len()
}

/// Whether `islands` has the island `id`, unchanged since the links were last
/// brought up to date.
pub open(crate) spec fn clean_in(islands: Arena<IslandSlot>, id: IslandId) -> bool {
    islands.contains(id.0) && !islands.value(id.0).dirty
}

/// The two ends of edge `i` of `node`, in the world.
pub open(crate) spec fn world_edge(islands: Arena<IslandSlot>, node: NodeRef, i: int) -> (
    Vec3,
    Vec3,
) {
    let island = island_of(islands, node.island_id);
    let ends = island.mesh().edge_points(node.polygon_index as int, i);
    (island.transform().apply_spec(ends.0), island.transform().apply_spec(ends.1))
}

/// The center of `node`, in the world.
pub open(crate) spec fn world_center(islands: Arena<IslandSlot>, node: NodeRef) -> Vec3 {
    let island = island_of(islands, node.island_id);
    island.transform().apply_spec(island.mesh().center(node.polygon_index as int))
}

/// Whether edge `i` of `node` is on the boundary of its mesh.
pub open(crate) spec fn boundary_edge_in(islands: Arena<IslandSlot>, node: NodeRef, i: int) -> bool {
    let mesh = island_of(islands, node.island_id).mesh();
    is_position(mesh.polys(), node.polygon_index as int, i) && mesh.link(
        node.polygon_index as int,
        i,
    ) is None
}

/// `link` is what edge `i` of its source and edge `j` of its destination
/// make: both are boundary edges; the portal is the stretch that they share,
/// measured along one of them and walked with the source on the left; and
/// the cost is the distance from center to center through the middle of it.
pub open(crate) spec fn link_made_by(
    islands: Arena<IslandSlot>,
    tolerance: LinkTolerance,
    link: BoundaryLink,
    i: int,
    j: int,
) -> bool {
    let s = world_edge(islands, link.source_node, i);
    let d = world_edge(islands, link.destination_node, j);
    let back = (link.portal.1, link.portal.0);
    &&& boundary_edge_in(islands, link.source_node, i)
    &&& boundary_edge_in(islands, link.destination_node, j)
    &&& {
        ||| (edge_link(s.0, s.1, d.0, d.1, tolerance) == Some(link.portal) && link.cost
            == link_cost(
            world_center(islands, link.source_node),
            link.portal,
            world_center(islands, link.destination_node),
        ))
        ||| (edge_link(d.0, d.1, s.0, s.1, tolerance) == Some(back) && link.cost == link_cost(
            world_center(islands, link.destination_node),
            back,
            world_center(islands, link.source_node),
        ))
    }
}

/// `link` joins two nodes of different islands where two of their boundary
/// edges meet.
pub open(crate) spec fn link_sound(
    islands: Arena<IslandSlot>,
    tolerance: LinkTolerance,
    link: BoundaryLink,
) -> bool {
    &&& node_in(islands, link.source_node)
    &&& node_in(islands, link.destination_node)
    &&& link.source_node.island_id != link.destination_node.island_id
    &&& exists|i: int, j: int| #[trigger] link_made_by(islands, tolerance, link, i, j)
}

/// How far apart the bounds of two islands may be for their edges to be
/// compared: the greater of the two tolerances.
pub open(crate) spec fn reach(tolerance: LinkTolerance) -> u32 {
    if tolerance.horizontal > tolerance.vertical {
        tolerance.horizontal
    } else {
        tolerance.vertical
    }
}

/// Whether the islands at the places `a` and `b` are compared edge by edge:
/// both have a mesh, and the bounds of the first in the world, grown by the
/// tolerance, meet those of the second.
pub open(crate) spec fn near(
    islands: Arena<IslandSlot>,
    tolerance: LinkTolerance,
    a: int,
    b: int,
) -> bool {
    let here = islands.values()[a].island;
    let there = islands.values()[b].island;
    &&& here.has_nav_data()
    &&& there.has_nav_data()
    &&& here.world_bounds().expanded_by_size(reach(tolerance)).intersects(there.world_bounds())
}

/// Whether edge `i` of `source` and edge `j` of `destination`, both on the
/// boundary of their meshes, meet.
pub open(crate) spec fn edges_meet(
    islands: Arena<IslandSlot>,
    tolerance: LinkTolerance,
    source: NodeRef,
    destination: NodeRef,
    i: int,
    j: int,
) -> bool {
    let s = world_edge(islands, source, i);
    let d = world_edge(islands, destination, j);
    &&& node_in(islands, source)
    &&& node_in(islands, destination)
    &&& boundary_edge_in(islands, source, i)
    &&& boundary_edge_in(islands, destination, j)
    &&& edge_link(s.0, s.1, d.0, d.1, tolerance) is Some
}

/// Whether `link` is the link from `source` to `destination` across the
/// stretch that edge `i` of the one and edge `j` of the other share.
pub open(crate) spec fn joins(
    islands: Arena<IslandSlot>,
    tolerance: LinkTolerance,
    link: BoundaryLink,
    source: NodeRef,
    destination: NodeRef,
    i: int,
    j: int,
) -> bool {
    let s = world_edge(islands, source, i);
    let d = world_edge(islands, destination, j);
    &&& link.source_node == source
    &&& link.destination_node == destination
    &&& edge_link(s.0, s.1, d.0, d.1, tolerance) == Some(link.portal)
    &&& link.cost == link_cost(
        world_center(islands, source),
        link.portal,
        world_center(islands, destination),
    )
}

/// Whether `links` has the link from `source` to `destination` across the
/// stretch that edge `i` of the one and edge `j` of the other share.
pub open(crate) spec fn joined(
    islands: Arena<IslandSlot>,
    tolerance: LinkTolerance,
    links: Arena<BoundaryLink>,
    source: NodeRef,
    destination: NodeRef,
    i: int,
    j: int,
) -> bool {
    exists|id: u64| #[trigger]
        links.contains(id) && joins(
            islands,
            tolerance,
            links.value(id),
            source,
            destination,
            i,
            j,
        )
}

/// The islands at the places `a` and `b`, if they are compared edge by edge,
/// are linked wherever a boundary edge of the first meets one of the second:
/// by a link from the polygon of the first to that of the second.
pub open(crate) spec fn pair_linked(
    islands: Arena<IslandSlot>,
    tolerance: LinkTolerance,
    links: Arena<BoundaryLink>,
    a: int,
    b: int,
) -> bool {
    near(islands, tolerance, a, b) ==> forall|source: NodeRef, destination: NodeRef, i: int, j: int|
        source.island_id.0 == islands.ids()[a] && destination.island_id.0 == islands.ids()[b]
            && #[trigger] edges_meet(islands, tolerance, source, destination, i, j) ==> joined(
            islands,
            tolerance,
            links,
            source,
            destination,
            i,
            j,
        )
}

/// Whether the boundary edges at the places `ka` and `kb` of the islands at
/// the places `a` and `b` have their link, if they meet.
spec fn met_at(
    islands: Arena<IslandSlot>,
    tolerance: LinkTolerance,
    links: Arena<BoundaryLink>,
    a: int,
    b: int,
    ka: int,
    kb: int,
) -> bool {
    let ea = islands.values()[a].island.mesh().boundary()[ka];
    let eb = islands.values()[b].island.mesh().boundary()[kb];
    let source = NodeRef { island_id: IslandId(islands.ids()[a]), polygon_index: ea.polygon_index };
    let destination = NodeRef {
        island_id: IslandId(islands.ids()[b]),
        polygon_index: eb.polygon_index,
    };
    edges_meet(
        islands,
        tolerance,
        source,
        destination,
        ea.edge_index as int,
        eb.edge_index as int,
    ) ==> joined(
        islands,
        tolerance,
        links,
        source,
        destination,
        ea.edge_index as int,
        eb.edge_index as int,
    )
}

/// Every link of `before` is a link of `after`, under its id.
spec fn links_kept(before: Arena<BoundaryLink>, after: Arena<BoundaryLink>) -> bool {
    forall|id: u64| #[trigger]
        before.contains(id) ==> after.contains(id) && after.value(id) == before.value(id)
}

/// A link that is there stays there while links are only added.
proof fn lemma_joined_kept(
    islands: Arena<IslandSlot>,
    tolerance: LinkTolerance,
    before: Arena<BoundaryLink>,
    after: Arena<BoundaryLink>,
    source: NodeRef,
    destination: NodeRef,
    i: int,
    j: int,
)
    requires
        links_kept(before, after),
        joined(islands, tolerance, before, source, destination, i, j),
    ensures
        joined(islands, tolerance, after, source, destination, i, j),
{
    let id = choose|id: u64| #[trigger]
        before.contains(id) && joins(
            islands,
            tolerance,
            before.value(id),
            source,
            destination,
            i,
            j,
        );
    assert(after.contains(id) && after.value(id) == before.value(id));
}

/// Two boundary edges that have their link keep it while links are only
/// added.
proof fn lemma_met_kept(
    islands: Arena<IslandSlot>,
    tolerance: LinkTolerance,
    before: Arena<BoundaryLink>,
    after: Arena<BoundaryLink>,
    a: int,
    b: int,
    ka: int,
    kb: int,
)
    requires
        links_kept(before, after),
        met_at(islands, tolerance, before, a, b, ka, kb),
    ensures
        met_at(islands, tolerance, after, a, b, ka, kb),
{
    let ea = islands.values()[a].island.mesh().boundary()[ka];
    let eb = islands.values()[b].island.mesh().boundary()[kb];
    let source = NodeRef { island_id: IslandId(islands.ids()[a]), polygon_index: ea.polygon_index };
    let destination = NodeRef {
        island_id: IslandId(islands.ids()[b]),
        polygon_index: eb.polygon_index,
    };
    if edges_meet(
        islands,
        tolerance,
        source,
        destination,
        ea.edge_index as int,
        eb.edge_index as int,
    ) {
        lemma_joined_kept(
            islands,
            tolerance,
            before,
            after,
            source,
            destination,
            ea.edge_index as int,
            eb.edge_index as int,
        );
    }
}

/// Two islands that are linked stay so while links are only added.
proof fn lemma_pair_kept(
    islands: Arena<IslandSlot>,
    tolerance: LinkTolerance,
    before: Arena<BoundaryLink>,
    after: Arena<BoundaryLink>,
    a: int,
    b: int,
)
    requires
        links_kept(before, after),
        pair_linked(islands, tolerance, before, a, b),
    ensures
        pair_linked(islands, tolerance, after, a, b),
{
    if near(islands, tolerance, a, b) {
        assert forall|source: NodeRef, destination: NodeRef, i: int, j: int|
            source.island_id.0 == islands.ids()[a] && destination.island_id.0 == islands.ids()[b]
                && #[trigger] edges_meet(
                islands,
                tolerance,
                source,
                destination,
                i,
                j,
            ) implies joined(islands, tolerance, after, source, destination, i, j) by {
            lemma_joined_kept(islands, tolerance, before, after, source, destination, i, j);
        }
    }
}

/// Two islands whose boundary edges all have their links are linked.
proof fn lemma_pair_linked(
    islands: Arena<IslandSlot>,
    tolerance: LinkTolerance,
    links: Arena<BoundaryLink>,
    a: int,
    b: int,
)
    requires
        islands.wf(),
        0 <= a < islands.values().len(),
        0 <= b < islands.values().len(),
        islands.values()[a].island.has_nav_data(),
        islands.values()[b].island.has_nav_data(),
        islands.values()[a].island.wf(),
        islands.values()[b].island.wf(),
        forall|ka: int, kb: int|
            0 <= ka < islands.values()[a].island.mesh().boundary().len() && 0 <= kb
                < islands.values()[b].island.mesh().boundary().len() ==> #[trigger] met_at(
                islands,
                tolerance,
                links,
                a,
                b,
                ka,
                kb,
            ),
    ensures
        pair_linked(islands, tolerance, links, a, b),
{
    let here = islands.values()[a].island.mesh();
    let there = islands.values()[b].island.mesh();
    lemma_place(islands.ids(), a);
    lemma_place(islands.ids(), b);
    assert(here.boundary_ok());
    assert(there.boundary_ok());
    assert forall|source: NodeRef, destination: NodeRef, i: int, j: int|
        source.island_id.0 == islands.ids()[a] && destination.island_id.0 == islands.ids()[b]
            && #[trigger] edges_meet(
            islands,
            tolerance,
            source,
            destination,
            i,
            j,
        ) implies joined(islands, tolerance, links, source, destination, i, j) by {
        assert(island_of(islands, source.island_id) == islands.values()[a].island);
        assert(island_of(islands, destination.island_id) == islands.values()[b].island);
        assert(is_position(here.polys(), source.polygon_index as int, i));
        assert(is_position(there.polys(), destination.polygon_index as int, j));
        assert(i < here.polygons[source.polygon_index as int].vertices.len());
        assert(j < there.polygons[destination.polygon_index as int].vertices.len());
        let ea = MeshEdgeRef { polygon_index: source.polygon_index, edge_index: i as usize };
        let eb = MeshEdgeRef { polygon_index: destination.polygon_index, edge_index: j as usize };
        assert(here.link(source.polygon_index as int, i) is None);
        assert(there.link(destination.polygon_index as int, j) is None);
        assert(here.boundary().contains(ea));
        assert(there.boundary().contains(eb));
        let ka = here.boundary().index_of(ea);
        let kb = there.boundary().index_of(eb);
        assert(here.boundary()[ka] == ea && there.boundary()[kb] == eb);
        assert(ea.edge_index as int == i && eb.edge_index as int == j);
        assert(met_at(islands, tolerance, links, a, b, ka, kb));
        assert(source == NodeRef {
            island_id: IslandId(islands.ids()[a]),
            polygon_index: ea.polygon_index,
        });
        assert(destination == NodeRef {
            island_id: IslandId(islands.ids()[b]),
            polygon_index: eb.polygon_index,
        });
    }
}

/// An island of `link` is gone or may have changed, so that the link is to
/// be dropped when the links are next brought up to date.
pub open(crate) spec fn doomed(islands: Arena<IslandSlot>, link: BoundaryLink) -> bool {
    !(clean_in(islands, link.source_node.island_id) && clean_in(
        islands,
        link.destination_node.island_id,
    ))
}

/// The link at place `k` has a link that leads back: from its destination to
/// its source, across the same portal walked the other way, at the same
/// cost.
pub open(crate) spec fn paired_at(links: Arena<BoundaryLink>, k: int) -> bool {
    let id = links.ids()[k];
    let link = links.values()[k];
    let back = links.value(link.reverse_link.0);
    &&& links.contains(link.reverse_link.0)
    &&& link.reverse_link.0 != id
    &&& back.reverse_link.0 == id
    &&& back.source_node == link.destination_node
    &&& back.destination_node == link.source_node
    &&& back.cost == link.cost
    &&& back.portal == (link.portal.1, link.portal.0)
}

/// Every link has a link that leads back.
#[verifier::opaque]
pub open(crate) spec fn all_paired(links: Arena<BoundaryLink>) -> bool {
    forall|k: int| 0 <= k < links.values().len() ==> #[trigger] paired_at(links, k)
}

/// Every link whose islands are unchanged is sound.
#[verifier::opaque]
pub open(crate) spec fn clean_links_sound(
    islands: Arena<IslandSlot>,
    tolerance: LinkTolerance,
    links: Arena<BoundaryLink>,
) -> bool {
    forall|k: int|
        0 <= k < links.values().len() && !doomed(islands, #[trigger] links.values()[k])
            ==> link_sound(islands, tolerance, links.values()[k])
}

/// `after` is `before` with the island at place `k` replaced, and counted as
/// changed.
pub open(crate) spec fn replaced_at(
    before: Arena<IslandSlot>,
    after: Arena<IslandSlot>,
    k: int,
) -> bool {
    &&& after.ids() == before.ids()
    &&& after.values().len() == before.values().len()
    &&& 0 <= k < before.values().len()
    &&& after.values()[k].dirty
    &&& forall|j: int|
        0 <= j < before.values().len() && j != k ==> #[trigger] after.values()[j]
            == before.values()[j]
}

/// A sound link stays sound where its two islands stay as they are.
pub(crate) proof fn lemma_sound_kept(
    before: Arena<IslandSlot>,
    after: Arena<IslandSlot>,
    tolerance: LinkTolerance,
    link: BoundaryLink,
)
    requires
        link_sound(before, tolerance, link),
        after.contains(link.source_node.island_id.0),
        after.contains(link.destination_node.island_id.0),
        after.value(link.source_node.island_id.0) == before.value(link.source_node.island_id.0),
        after.value(link.destination_node.island_id.0) == before.value(
            link.destination_node.island_id.0,
        ),
    ensures
        link_sound(after, tolerance, link),
{
    let (i, j) = choose|i: int, j: int| #[trigger] link_made_by(before, tolerance, link, i, j);
    assert(link_made_by(after, tolerance, link, i, j));
}

/// Replacing an island, counted as changed, keeps the links of unchanged
/// islands sound.
pub(crate) proof fn lemma_replaced_sound(
    before: Arena<IslandSlot>,
    after: Arena<IslandSlot>,
    tolerance: LinkTolerance,
    links: Arena<BoundaryLink>,
    k: int,
)
    requires
        before.wf(),
        replaced_at(before, after, k),
        clean_links_sound(before, tolerance, links),
    ensures
        clean_links_sound(after, tolerance, links),
{
    reveal(clean_links_sound);
    assert forall|n: int|
        0 <= n < links.values().len() && !doomed(
            after,
            #[trigger] links.values()[n],
        ) implies link_sound(after, tolerance, links.values()[n]) by {
        let link = links.values()[n];
        lemma_replaced_clean(before, after, k, link.source_node.island_id);
        lemma_replaced_clean(before, after, k, link.destination_node.island_id);
        lemma_sound_kept(before, after, tolerance, link);
    }
}

/// After a replacement, an unchanged island is one that was unchanged, with
/// the value it had.
pub(crate) proof fn lemma_replaced_clean(
    before: Arena<IslandSlot>,
    after: Arena<IslandSlot>,
    k: int,
    id: IslandId,
)
    requires
        before.wf(),
        replaced_at(before, after, k),
        clean_in(after, id),
    ensures
        clean_in(before, id),
        before.value(id.0) == after.value(id.0),
{
    let j = after.place(id.0);
    assert(0 <= j < after.ids().len() && after.ids()[j] == id.0);
    assert(before.place(id.0) == j) by {
        lemma_place(before.ids(), j);
    }
}

/// Adding an island, counted as changed, keeps the links of unchanged
/// islands sound.
pub(crate) proof fn lemma_added_sound(
    before: Arena<IslandSlot>,
    after: Arena<IslandSlot>,
    tolerance: LinkTolerance,
    links: Arena<BoundaryLink>,
    id: u64,
)
    requires
        before.wf(),
        !before.contains(id),
        after.ids() == before.ids().push(id),
        after.values().len() == before.values().len() + 1,
        forall|j: int| 0 <= j < before.values().len() ==> after.values()[j] == before.values()[j],
        after.values()[before.values().len() as int].dirty,
        clean_links_sound(before, tolerance, links),
    ensures
        clean_links_sound(after, tolerance, links),
{
    reveal(clean_links_sound);
    assert forall|n: int|
        0 <= n < links.values().len() && !doomed(
            after,
            #[trigger] links.values()[n],
        ) implies link_sound(after, tolerance, links.values()[n]) by {
        let link = links.values()[n];
        let a = link.source_node.island_id.0;
        let b = link.destination_node.island_id.0;
        lemma_place_after_push(before.ids(), id, a);
        lemma_place_after_push(before.ids(), id, b);
        lemma_sound_kept(before, after, tolerance, link);
    }
}

/// Removing an island keeps the links of unchanged islands sound.
pub(crate) proof fn lemma_removed_sound(
    before: Arena<IslandSlot>,
    after: Arena<IslandSlot>,
    tolerance: LinkTolerance,
    links: Arena<BoundaryLink>,
    k: int,
)
    requires
        before.wf(),
        0 <= k < before.ids().len(),
        after.ids() == before.ids().remove(k),
        after.values() == before.values().remove(k),
        clean_links_sound(before, tolerance, links),
    ensures
        clean_links_sound(after, tolerance, links),
{
    reveal(clean_links_sound);
    assert forall|n: int|
        0 <= n < links.values().len() && !doomed(
            after,
            #[trigger] links.values()[n],
        ) implies link_sound(after, tolerance, links.values()[n]) by {
        let link = links.values()[n];
        let a = link.source_node.island_id.0;
        let b = link.destination_node.island_id.0;
        lemma_place_after_remove(before.ids(), k, a);
        lemma_place_after_remove(before.ids(), k, b);
        lemma_sound_kept(before, after, tolerance, link);
    }
}

impl NavigationData {
    /// Whether the archipelago has the island `id`.
    pub open(crate) spec fn has_island(&self, id: IslandId) -> bool {
        self.islands.contains(id.0)
    }

    /// The island `id`.
    pub open(crate) spec fn island(&self, id: IslandId) -> Island {
        self.islands.value(id.0).island
    }

    /// The ids of the islands, in the order in which they were added.
    pub open(crate) spec fn island_ids(&self) -> Seq<IslandId> {
        Seq::new(self.islands.ids().len(), |k: int| IslandId(self.islands.ids()[k]))
    }

    /// Whether `node` is a polygon of an island of the archipelago.
    pub open(crate) spec fn has_node(&self, node: NodeRef) -> bool {
        node_in(self.islands, node)
    }

    /// Whether the archipelago has the link `id`.
    pub open(crate) spec fn has_link(&self, id: BoundaryLinkId) -> bool {
        self.boundary_links.contains(id.0)
    }

    /// The link `id`.
    pub open(crate) spec fn link(&self, id: BoundaryLinkId) -> BoundaryLink {
        self.boundary_links.value(id.0)
    }

    /// Whether the archipelago has the node type `node_type`.
    pub open(crate) spec fn has_node_type(&self, node_type: NodeType) -> bool {
        self.node_type_costs.contains(node_type.0)
    }

    /// The cost of a node type: the cost it was given, or the default cost
    /// where the archipelago has no such node type.
    pub open(crate) spec fn node_type_cost(&self, node_type: NodeType) -> u32 {
        if self.has_node_type(node_type) {
            self.node_type_costs.value(node_type.0)
        } else {
            DEFAULT_COST
        }
    }

    /// Whether the links may be out of date.
    pub open(crate) spec fn is_dirty(&self) -> bool {
        self.dirty
    }

    /// How far apart two boundary edges may be and still be linked.
    pub open(crate) spec fn tolerance(&self) -> LinkTolerance {
        self.link_tolerance
    }

    /// Whether `link` joins two nodes of different islands where two of
    /// their boundary edges meet.
    pub open(crate) spec fn is_sound_link(&self, link: BoundaryLink) -> bool {
        link_sound(self.islands, self.link_tolerance, link)
    }

    /// The region of `node`, which must be a node of the archipelago.
    pub open(crate) spec fn region(&self, node: NodeRef) -> u128 {
        region_of(self.islands, self.regions@, node)
    }

    /// Whether a chain of polygons leads from `a` to `b`, each next to the
    /// one before: across an edge that the two share in a mesh, or linked
    /// with it.
    pub open(crate) spec fn connects(&self, a: NodeRef, b: NodeRef) -> bool {
        connected(self.islands, self.boundary_links, a, b)
    }

    /// Every polygon has a region, and two polygons are in one region
    /// exactly when they are connected: the region is the same on both sides
    /// of every connection of a mesh and of every link, and polygons in one
    /// region are connected.
    pub open(crate) spec fn regions_closed(&self) -> bool {
        &&& regions_shaped(self.islands, self.regions@)
        &&& regions_agree(self.islands, self.boundary_links, self.regions@)
        &&& regions_tight(self.islands, self.boundary_links, self.regions@)
    }

    /// What holds of the navigation data at all times, and what holds of it
    /// besides while the links are up to date.
    pub open(crate) spec fn wf(&self) -> bool {
        &&& self.islands.wf()
        &&& self.boundary_links.wf()
        &&& self.node_type_costs.wf()
        &&& forall|k: int|
            0 <= k < self.islands.values().len() ==> (#[trigger] self.islands.values()[k]).island.wf()
        &&& forall|k: int|
            0 <= k < self.node_type_costs.values().len() ==> (
            #[trigger] self.node_type_costs.values()[k]) > 0
        &&& all_paired(self.boundary_links)
        &&& clean_links_sound(self.islands, self.link_tolerance, self.boundary_links)
        &&& !self.dirty ==> {
            &&& forall|k: int|
                0 <= k < self.islands.values().len() ==> !(#[trigger] self.islands.values()[k]).dirty
            &&& all_sound(self.islands, self.link_tolerance, self.boundary_links)
            &&& self.regions_closed()
        }
    }

    /// `after` is this navigation data with the island `id` replaced and
    /// counted as changed, and so with links that may be out of date.
    pub open(crate) spec fn only_island_changed(&self, after: NavigationData, id: IslandId) -> bool {
        &&& replaced_at(self.islands, after.islands, self.islands.place(id.0))
        &&& after.islands.keys == self.islands.keys
        &&& after.islands.issued == self.islands.issued
        &&& after.boundary_links == self.boundary_links
        &&& after.node_type_costs == self.node_type_costs
        &&& after.link_tolerance == self.link_tolerance
        &&& after.dirty
    }

    /// Navigation data without islands or node types.
    pub fn new() -> (r: NavigationData)
        ensures
            r.wf(),
            r.island_ids() == Seq::<IslandId>::empty(),
            !r.is_dirty(),
            r.can_add_island(),
            r.can_add_node_type(),
    {
        let r = NavigationData {
            islands: Arena::new(),
            boundary_links: Arena::new(),
            node_type_costs: Arena::new(),
            link_tolerance: LinkTolerance {
                horizontal: DEFAULT_LINK_TOLERANCE,
                vertical: DEFAULT_LINK_TOLERANCE,
            },
            regions: Vec::new(),
            dirty: false,
        };
        proof {
            assert(r.island_ids() =~= Seq::<IslandId>::empty());
            reveal(all_paired);
            reveal(clean_links_sound);
            reveal(all_sound);
            reveal(regions_tight);
        }
        r
    }

    /// Whether another island can be added.
    pub open(crate) spec fn can_add_island(&self) -> bool {
        self.islands.has_room()
    }

    /// Whether another node type can be added.
    pub open(crate) spec fn can_add_node_type(&self) -> bool {
        self.node_type_costs.has_room()
    }

    /// Whether another island can be added: an archipelago can hand out
    /// fewer than `u32::MAX` island ids in all.
    pub fn has_room_for_island(&self) -> (r: bool)
        ensures
            r == self.can_add_island(),
    {
        self.islands.can_insert()
    }

    /// Whether another node type can be added: an archipelago can hand out
    /// fewer than `u32::MAX` node types in all.
    pub fn has_room_for_node_type(&self) -> (r: bool)
        ensures
            r == self.can_add_node_type(),
    {
        self.node_type_costs.can_insert()
    }

    /// Adds an island without navigation data and returns its id.
    pub fn add_island(&mut self) -> (id: IslandId)
        requires
            old(self).wf(),
            old(self).can_add_island(),
        ensures
            final(self).wf(),
            !old(self).has_island(id),
            final(self).has_island(id),
            !final(self).island(id).has_nav_data(),
            final(self).island_ids() == old(self).island_ids().push(id),
            final(self).is_dirty(),
            forall|other: IslandId|
                old(self).has_island(other) ==> final(self).has_island(other) && final(self).island(other) == old(self).island(other),
    {
        let key = self.islands.insert(IslandSlot { island: Island::new(), dirty: true });
        self.dirty = true;
        proof {
            let before = old(self).islands;
            let after = final(self).islands;
            lemma_added_sound(
                before,
                after,
                self.link_tolerance,
                self.boundary_links,
                key,
            );
            assert(final(self).island_ids() =~= old(self).island_ids().push(IslandId(key)));
            assert(after.ids()[before.ids().len() as int] == key);
            assert(after.place(key) == before.ids().len());
            assert forall|other: IslandId| old(self).has_island(other) implies final(self).has_island(other) && final(self).island(other) == old(self).island(other) by {
                let k = before.place(other.0);
                assert(after.ids()[k] == other.0);
                assert(after.place(other.0) == k);
            }
        }
        IslandId(key)
    }

    /// The island `id`, if the archipelago has it.
    pub fn get_island(&self, id: IslandId) -> (r: Option<&Island>)
        requires
            self.wf(),
        ensures
            r is Some == self.has_island(id),
            r is Some ==> *r->0 == self.island(id),
    {
        match self.islands.get(id.0) {
            Some(slot) => Some(&slot.island),
            None => None,
        }
    }

    /// Whether the links may be out of date: an island was added, removed or
    /// handed out for a change since they were last brought up to date.
    pub fn dirty(&self) -> (r: bool)
        ensures
            r == self.is_dirty(),
    {
        self.dirty
    }

    /// The island `id`, to be changed, if the archipelago has it. Since the
    /// island may change, the links count as out of date from now on.
    pub fn get_island_mut(&mut self, id: IslandId) -> (r: Option<&mut Island>)
        requires
            old(self).wf(),
        ensures
            match r {
                Some(island) => {
                    &&& old(self).has_island(id)
                    &&& *island == old(self).island(id)
                    &&& final(self).island_ids() == old(self).island_ids()
                    &&& final(self).island(id) == *final(island)
                    &&& final(self).is_dirty()
                    &&& old(self).only_island_changed(*final(self), id)
                    &&& old(self).only_island_changed(*final(self), id) && final(island).wf()
                        ==> final(self).wf()
                    &&& forall|other: IslandId|
                        other != id && old(self).has_island(other) ==> final(self).island(other)
                            == old(self).island(other)
                    &&& forall|t: NodeType|
                        final(self).has_node_type(t) == old(self).has_node_type(t) && final(self).node_type_cost(t) == old(self).node_type_cost(t)
                },
                None => !old(self).has_island(id) && *final(self) == *old(self),
            },
    {
        match self.islands.find(id.0) {
            Some(k) => {
                self.dirty = true;
                self.islands.values[k].dirty = true;
                proof {
                    assert(self.island_ids() =~= old(self).island_ids());
                    let tolerance = self.link_tolerance;
                    let links = self.boundary_links;
                    let before = old(self).islands;
                    let start = *old(self);
                    assert forall|after: NavigationData| #[trigger]
                        start.only_island_changed(after, id) && after.islands.values()[k as int].island.wf() implies after.wf() by {
                        lemma_replaced_sound(before, after.islands, tolerance, links, k as int);
                        assert forall|j: int| 0 <= j < after.islands.values().len() implies (
                        #[trigger] after.islands.values()[j]).island.wf() by {
                            if j != k {
                                assert(after.islands.values()[j] == before.values()[j]);
                            }
                        }
                    }
                    assert forall|other: IslandId|
                        other != id && self.has_island(other) implies self.islands.place(other.0)
                        != k by {
                        let j = self.islands.place(other.0);
                        assert(self.islands.ids()[j] == other.0);
                    }
                }
                Some(&mut self.islands.values[k].island)
            },
            None => None,
        }
    }

    /// Removes the island `id`. Returns whether the archipelago had it.
    pub fn remove_island(&mut self, id: IslandId) -> (r: bool)
        requires
            old(self).wf(),
        ensures
            final(self).wf(),
            r == old(self).has_island(id),
            !final(self).has_island(id),
            r ==> final(self).is_dirty(),
            r ==> final(self).island_ids() == old(self).island_ids().remove(
                old(self).island_ids().index_of(id),
            ),
            !r ==> *final(self) == *old(self),
            forall|other: IslandId|
                other != id && old(self).has_island(other) ==> final(self).has_island(other)
                    && final(self).island(other) == old(self).island(other),
            final(self).can_add_island() == old(self).can_add_island(),
    {
        match self.islands.remove(id.0) {
            Some(_) => {
                self.dirty = true;
                proof {
                    let before = old(self).islands;
                    let after = final(self).islands;
                    let k = before.place(id.0);
                    assert(before.ids()[k] == id.0);
                    lemma_removed_sound(
                        before,
                        after,
                        self.link_tolerance,
                        self.boundary_links,
                        k,
                    );
                    assert(old(self).island_ids()[k] == id);
                    let k2 = old(self).island_ids().index_of(id);
                    assert(before.ids()[k2] == id.0);
                    assert(k2 == k);
                    assert(final(self).island_ids() =~= old(self).island_ids().remove(k));
                    assert forall|other: IslandId|
                        other != id && old(self).has_island(other) implies final(self).has_island(other) && final(self).island(other) == old(self).island(
                        other,
                    ) by {
                        let j = before.place(other.0);
                        assert(before.ids()[j] == other.0);
                        if j < k {
                            assert(after.ids()[j] == other.0);
                            assert(after.place(other.0) == j);
                        } else {
                            assert(after.ids()[j - 1] == other.0);
                            assert(after.place(other.0) == j - 1);
                        }
                    }
                }
                true
            },
            None => false,
        }
    }

    /// Makes a node type with the given cost: what a unit of distance costs
    /// on its polygons, in thousandths.
    pub fn add_node_type(&mut self, cost: u32) -> (r: Result<NodeType, NewNodeTypeError>)
        requires
            old(self).wf(),
            old(self).can_add_node_type(),
        ensures
            final(self).wf(),
            match r {
                Ok(t) => {
                    &&& cost > 0
                    &&& !old(self).has_node_type(t)
                    &&& final(self).has_node_type(t)
                    &&& final(self).node_type_cost(t) == cost
                    &&& forall|other: NodeType|
                        old(self).has_node_type(other) ==> final(self).has_node_type(other)
                            && final(self).node_type_cost(other) == old(self).node_type_cost(
                            other,
                        )
                },
                Err(e) => cost == 0 && e == NewNodeTypeError::NonPositiveCost(cost) && *final(self)
                    == *old(self),
            },
            final(self).is_dirty() == old(self).is_dirty(),
    {
        if cost == 0 {
            return Err(NewNodeTypeError::NonPositiveCost(cost));
        }
        let key = self.node_type_costs.insert(cost);
        proof {
            let before = old(self).node_type_costs;
            let after = final(self).node_type_costs;
            assert(after.ids()[before.ids().len() as int] == key);
            assert(after.place(key) == before.ids().len());
            assert forall|other: NodeType| old(self).has_node_type(other) implies final(self).has_node_type(other) && final(self).node_type_cost(other) == old(self).node_type_cost(other) by {
                let k = before.place(other.0);
                assert(after.ids()[k] == other.0);
                assert(after.place(other.0) == k);
            }
        }
        Ok(NodeType(key))
    }

    /// Sets the cost of a node type.
    pub fn set_node_type_cost(&mut self, node_type: NodeType, cost: u32) -> (r: Result<
        (),
        SetNodeTypeCostError,
    >)
        requires
            old(self).wf(),
        ensures
            final(self).wf(),
            match r {
                Ok(()) => {
                    &&& cost > 0
                    &&& old(self).has_node_type(node_type)
                    &&& final(self).node_type_cost(node_type) == cost
                    &&& forall|other: NodeType|
                        final(self).has_node_type(other) == old(self).has_node_type(other) && (
                        other != node_type ==> final(self).node_type_cost(other) == old(self).node_type_cost(other))
                },
                Err(e) => {
                    &&& *final(self) == *old(self)
                    &&& e == (if cost == 0 {
                        SetNodeTypeCostError::NonPositiveCost(cost)
                    } else {
                        SetNodeTypeCostError::NodeTypeDoesNotExist(node_type)
                    })
                    &&& cost == 0 || !old(self).has_node_type(node_type)
                },
            },
            final(self).is_dirty() == old(self).is_dirty(),
    {
        if cost == 0 {
            return Err(SetNodeTypeCostError::NonPositiveCost(cost));
        }
        match self.node_type_costs.find(node_type.0) {
            Some(k) => {
                self.node_type_costs.values[k] = cost;
                proof {
                    let before = old(self).node_type_costs;
                    let after = self.node_type_costs;
                    assert forall|j: int| 0 <= j < after.values().len() implies (
                    #[trigger] after.values()[j]) > 0 by {
                        if j != k {
                            assert(before.values()[j] > 0);
                        }
                    }
                    assert forall|other: NodeType|
                        other != node_type && after.contains(other.0) implies after.value(other.0)
                        == before.value(other.0) by {
                        let j = before.place(other.0);
                        assert(before.ids()[j] == other.0);
                    }
                }
                Ok(())
            },
            None => Err(SetNodeTypeCostError::NodeTypeDoesNotExist(node_type)),
        }
    }

    /// The cost of a node type, if the archipelago has it.
    pub fn get_node_type_cost(&self, node_type: NodeType) -> (r: Option<u32>)
        requires
            self.wf(),
        ensures
            r is Some == self.has_node_type(node_type),
            r is Some ==> r->0 == self.node_type_cost(node_type) && r->0 > 0,
    {
        match self.node_type_costs.find(node_type.0) {
            Some(k) => {
                assert(self.node_type_costs.values()[k as int] > 0);
                Some(self.node_type_costs.values[k])
            },
            None => None,
        }
    }

    /// Whether some island gives a type index the node type `node_type`.
    pub open(crate) spec fn node_type_in_use(&self, node_type: NodeType) -> bool {
        exists|k: int|
            0 <= k < self.islands.values().len() && (
            #[trigger] self.islands.values()[k]).island.has_nav_data()
                && self.islands.values()[k].island.node_types().values().contains(node_type)
    }

    /// Removes a node type, unless the archipelago does not have it or an
    /// island still gives it to a type index. Returns whether it was removed.
    pub fn remove_node_type(&mut self, node_type: NodeType) -> (r: bool)
        requires
            old(self).wf(),
        ensures
            final(self).wf(),
            r == (old(self).has_node_type(node_type) && !old(self).node_type_in_use(node_type)),
            r ==> !final(self).has_node_type(node_type),
            !r ==> *final(self) == *old(self),
            forall|other: NodeType|
                other != node_type && old(self).has_node_type(other) ==> final(self).has_node_type(other) && final(self).node_type_cost(other) == old(self).node_type_cost(other),
            final(self).is_dirty() == old(self).is_dirty(),
            final(self).can_add_node_type() == old(self).can_add_node_type(),
    {
        if self.node_type_costs.find(node_type.0).is_none() {
            return false;
        }
        let mut k: usize = 0;
        while k < self.islands.values.len()
            invariant
                self.wf(),
                *self == *old(self),
                k <= self.islands.values.len(),
                forall|j: int|
                    0 <= j < k ==> !((#[trigger] self.islands.values()[j]).island.has_nav_data()
                        && self.islands.values()[j].island.node_types().values().contains(
                        node_type,
                    )),
            decreases self.islands.values.len() - k,
        {
            match &self.islands.values[k].island.nav_data {
                Some(data) => {
                    if holds_node_type(&data.type_index_to_node_type, node_type) {
                        return false;
                    }
                },
                None => {},
            }
            k = k + 1;
        }
        let removed = self.node_type_costs.remove(node_type.0);
        proof {
            let before = old(self).node_type_costs;
            let after = final(self).node_type_costs;
            let place = before.place(node_type.0);
            assert forall|other: NodeType|
                other != node_type && old(self).has_node_type(other) implies final(self).has_node_type(other) && final(self).node_type_cost(other) == old(self).node_type_cost(other) by {
                let j = before.place(other.0);
                assert(before.ids()[j] == other.0);
                if j < place {
                    assert(after.ids()[j] == other.0);
                    assert(after.place(other.0) == j);
                } else {
                    assert(after.ids()[j - 1] == other.0);
                    assert(after.place(other.0) == j - 1);
                }
            }
        }
        true
    }
}

/// Whether `types` gives some type index the node type `node_type`.
fn holds_node_type(types: &HashMap<usize, NodeType>, node_type: NodeType) -> (r: bool)
    ensures
        r == types@.values().contains(node_type),
{
    broadcast use vstd::std_specs::hash::group_hash_axioms;

    let mut found = false;
    for v in it: types.values()
        invariant
            it.seq().unref().to_set() == types@.values(),
            found == exists|k: int| 0 <= k < it.index() && it.seq().unref()[k] == node_type,
    {
        if *v == node_type {
            found = true;
        }
    }
    found
}

impl NavigationData {
    /// What island `k`, in the order of the islands, has for `point`: the
    /// sample of its mesh for `point` brought into its frame, given as the
    /// sample in the world, the polygon, and the squared distance of the
    /// sample in the island's frame. An island without mesh, or whose bounds
    /// in the world do not reach the box around `point`, has nothing.
    #[verifier::opaque]
    pub open(crate) spec fn island_sample(&self, k: int, point: Vec3, distance: u32) -> Option<
        (Vec3, usize, int),
    > {
        let island = self.islands.values()[k].island;
        if island.has_nav_data() && sample_box(point, distance).intersects(island.world_bounds()) {
            let local = island.transform().inverse_apply_spec(point);
            match island.mesh().sample(local, distance) {
                Some((sample, polygon)) => Some(
                    (island.transform().apply_spec(sample), polygon, dist_sq(local, sample)),
                ),
                None => None,
            }
        } else {
            None
        }
    }

    /// Island `k` gives the sample for `point`: it has one, none is nearer,
    /// and none as near comes before it.
    pub open(crate) spec fn is_best_island(&self, k: int, point: Vec3, distance: u32) -> bool {
        &&& 0 <= k < self.islands.values().len()
        &&& self.island_sample(k, point, distance) is Some
        &&& forall|j: int|
            0 <= j < self.islands.values().len() && (#[trigger] self.island_sample(
                j,
                point,
                distance,
            )) is Some ==> {
                let here = (self.island_sample(k, point, distance)->0).2;
                let there = (self.island_sample(j, point, distance)->0).2;
                here < there || (here == there && k <= j)
            }
    }

    /// The sample for `point`: the point of the islands nearest to `point`
    /// among those nearer than `distance`, with its node.
    pub open(crate) spec fn sample(&self, point: Vec3, distance: u32) -> Option<(Vec3, NodeRef)> {
        if exists|k: int| #[trigger] self.is_best_island(k, point, distance) {
            let k = choose|k: int| #[trigger] self.is_best_island(k, point, distance);
            let found = self.island_sample(k, point, distance)->0;
            Some(
                (
                    found.0,
                    NodeRef { island_id: IslandId(self.islands.ids()[k]), polygon_index: found.1 },
                ),
            )
        } else {
            None
        }
    }

    /// The point of the islands nearest to `point` among those nearer than
    /// `distance_to_node`, with its node. Each island is asked in its own
    /// frame; of two islands with points as near, the one added first wins.
    pub fn sample_point(&self, point: Vec3, distance_to_node: u32) -> (r: Option<(Vec3, NodeRef)>)
        requires
            self.wf(),
        ensures
            r == self.sample(point, distance_to_node),
            r is Some ==> self.has_node((r->0).1),
    {
        let mut best: Option<(Vec3, NodeRef)> = None;
        let mut best_distance: u128 = 0;
        let ghost mut best_k: int = 0;
        let mut k: usize = 0;
        while k < self.islands.values.len()
            invariant
                self.islands.wf(),
                k <= self.islands.values.len(),
                forall|j: int|
                    0 <= j < self.islands.values().len() ==> (
                    #[trigger] self.islands.values()[j]).island.wf(),
                match best {
                    Some((sample, node)) => {
                        &&& 0 <= best_k < k
                        &&& self.island_sample(best_k, point, distance_to_node) == Some(
                            (sample, node.polygon_index, best_distance as int),
                        )
                        &&& node.island_id == IslandId(self.islands.ids()[best_k])
                        &&& self.has_node(node)
                        &&& forall|j: int|
                            0 <= j < k && (#[trigger] self.island_sample(
                                j,
                                point,
                                distance_to_node,
                            )) is Some ==> {
                                let there = (self.island_sample(j, point, distance_to_node)->0).2;
                                best_distance < there || (best_distance == there && best_k <= j)
                            }
                    },
                    None => forall|j: int|
                        0 <= j < k ==> (#[trigger] self.island_sample(
                            j,
                            point,
                            distance_to_node,
                        )) is None,
                },
            decreases self.islands.values.len() - k,
        {
            match self.sample_island(k, point, distance_to_node) {
                Some((sample, polygon, d)) => {
                    let replace = match best {
                        None => true,
                        Some(_) => d < best_distance,
                    };
                    if replace {
                        let node = NodeRef {
                            island_id: IslandId(self.islands.ids[k]),
                            polygon_index: polygon,
                        };
                        proof {
                            assert(self.islands.ids()[k as int] == node.island_id.0);
                            let j = self.islands.place(node.island_id.0);
                            assert(self.islands.ids()[j] == node.island_id.0);
                            assert(j == k);
                        }
                        best = Some((sample, node));
                        best_distance = d;
                        proof {
                            best_k = k as int;
                        }
                    }
                },
                None => {},
            }
            k = k + 1;
        }
        proof {
            match best {
                Some((sample, node)) => {
                    assert(self.is_best_island(best_k, point, distance_to_node));
                    let c = choose|c: int| #[trigger]
                        self.is_best_island(c, point, distance_to_node);
                    assert(self.island_sample(c, point, distance_to_node) is Some);
                    assert(self.island_sample(best_k, point, distance_to_node) is Some);
                    assert(c == best_k);
                },
                None => {
                    assert forall|c: int| !#[trigger] self.is_best_island(
                        c,
                        point,
                        distance_to_node,
                    ) by {}
                },
            }
        }
        best
    }

    /// What island `k` has for `point`.
    fn sample_island(&self, k: usize, point: Vec3, distance: u32) -> (r: Option<
        (Vec3, usize, u128),
    >)
        requires
            self.islands.wf(),
            k < self.islands.values().len(),
            self.islands.values()[k as int].island.wf(),
        ensures
            match r {
                Some((sample, polygon, d)) => self.island_sample(k as int, point, distance) == Some(
                    (sample, polygon, d as int),
                ) && self.islands.values()[k as int].island.has_nav_data() && polygon
                    < self.islands.values()[k as int].island.mesh().polys().len(),
                None => self.island_sample(k as int, point, distance) is None,
            },
    {
        reveal(NavigationData::island_sample);
        let area = BoundingBox::point(point).expand_by_size(distance);
        let slot = &self.islands.values[k];
        match &slot.island.nav_data {
            Some(data) => {
                if area.intersects_bounds(&data.transformed_bounds) {
                    let local = data.transform.inverse_apply(point);
                    match data.nav_mesh.sample_point(local, distance) {
                        Some((sample, polygon)) => {
                            let d: u128 = local.distance_squared(sample);
                            Some((data.transform.apply(sample), polygon, d))
                        },
                        None => None,
                    }
                } else {
                    None
                }
            },
            None => None,
        }
    }

    /// Whether `node` is a polygon of an island of the archipelago.
    pub fn is_node(&self, node: NodeRef) -> (r: bool)
        requires
            self.wf(),
        ensures
            r == self.has_node(node),
    {
        match self.islands.get(node.island_id.0) {
            Some(slot) => match &slot.island.nav_data {
                Some(data) => node.polygon_index < data.nav_mesh.polygon_count(),
                None => false,
            },
            None => false,
        }
    }
}

/// Every link either is to be dropped or has a link that leads back.
#[verifier::opaque]
spec fn paired_or_doomed(islands: Arena<IslandSlot>, links: Arena<BoundaryLink>) -> bool {
    forall|k: int|
        0 <= k < links.values().len() ==> doomed(islands, #[trigger] links.values()[k])
            || paired_at(links, k)
}

/// Every link is sound.
#[verifier::opaque]
pub open(crate) spec fn all_sound(
    islands: Arena<IslandSlot>,
    tolerance: LinkTolerance,
    links: Arena<BoundaryLink>,
) -> bool {
    forall|k: int|
        0 <= k < links.values().len() ==> link_sound(
            islands,
            tolerance,
            #[trigger] links.values()[k],
        )
}

/// Whether `islands` has the island `id`, unchanged since the links were
/// last brought up to date.
fn island_is_clean(islands: &Arena<IslandSlot>, id: IslandId) -> (r: bool)
    requires
        islands.wf(),
    ensures
        r == clean_in(*islands, id),
{
    match islands.get(id.0) {
        Some(slot) => !slot.dirty,
        None => false,
    }
}

/// Dropping a link that is to be dropped leaves every other link either to
/// be dropped or with its link back.
proof fn lemma_purge_step(
    islands: Arena<IslandSlot>,
    before: Arena<BoundaryLink>,
    after: Arena<BoundaryLink>,
    k: int,
)
    requires
        before.wf(),
        0 <= k < before.ids().len(),
        after.ids() == before.ids().remove(k),
        after.values() == before.values().remove(k),
        doomed(islands, before.values()[k]),
        paired_or_doomed(islands, before),
    ensures
        paired_or_doomed(islands, after),
{
    reveal(paired_or_doomed);
    assert forall|j: int| 0 <= j < after.values().len() implies doomed(
        islands,
        #[trigger] after.values()[j],
    ) || paired_at(after, j) by {
        let j0 = if j < k {
            j
        } else {
            j + 1
        };
        let link = before.values()[j0];
        assert(after.values()[j] == link);
        assert(after.ids()[j] == before.ids()[j0]);
        if !doomed(islands, link) {
            assert(paired_at(before, j0));
            let r = link.reverse_link.0;
            lemma_place(before.ids(), k);
            if r == before.ids()[k] {
                assert(before.value(r) == before.values()[k]);
            } else {
                lemma_place_after_remove(before.ids(), k, r);
            }
        }
    }
}

/// Drops every link with an island that is gone or may have changed.
fn purge_links(
    links: &mut Arena<BoundaryLink>,
    islands: &Arena<IslandSlot>,
    Ghost(tolerance): Ghost<LinkTolerance>,
)
    requires
        old(links).wf(),
        islands.wf(),
        all_paired(*old(links)),
        clean_links_sound(*islands, tolerance, *old(links)),
    ensures
        final(links).wf(),
        final(links).handed_out() == old(links).handed_out(),
        all_paired(*final(links)),
        all_sound(*islands, tolerance, *final(links)),
        forall|k: int|
            0 <= k < final(links).values().len() ==> !doomed(
                *islands,
                #[trigger] final(links).values()[k],
            ),
        forall|id: u64|
            #![trigger final(links).contains(id)]
            #![trigger old(links).contains(id)]
            {
                &&& final(links).contains(id) ==> old(links).contains(id)
                &&& old(links).contains(id) && !doomed(*islands, old(links).value(id)) ==> final(links).contains(id)
                &&& final(links).contains(id) ==> final(links).value(id) == old(links).value(id)
            },
{
    proof {
        reveal(all_paired);
        reveal(paired_or_doomed);
    }
    let mut k: usize = 0;
    while k < links.ids.len()
        invariant
            links.wf(),
            islands.wf(),
            k <= links.ids.len(),
            links.handed_out() == old(links).handed_out(),
            paired_or_doomed(*islands, *links),
            clean_links_sound(*islands, tolerance, *links),
            forall|j: int| 0 <= j < k ==> !doomed(*islands, #[trigger] links.values()[j]),
            forall|id: u64|
                #![trigger links.contains(id)]
                #![trigger old(links).contains(id)]
                {
                    &&& links.contains(id) ==> old(links).contains(id)
                    &&& old(links).contains(id) && !doomed(*islands, old(links).value(id))
                        ==> links.contains(id)
                    &&& links.contains(id) ==> links.value(id) == old(links).value(id)
                },
        decreases links.ids.len() - k,
    {
        let link = links.values[k];
        if island_is_clean(islands, link.source_node.island_id) && island_is_clean(
            islands,
            link.destination_node.island_id,
        ) {
            k = k + 1;
        } else {
            let ghost before = *links;
            let id = links.ids[k];
            proof {
                lemma_place(before.ids(), k as int);
            }
            let removed = links.remove(id);
            proof {
                lemma_purge_step(*islands, before, *links, k as int);
                assert(clean_links_sound(*islands, tolerance, *links)) by {
                    reveal(clean_links_sound);
                    assert forall|j: int|
                        0 <= j < links.values().len() && !doomed(
                            *islands,
                            #[trigger] links.values()[j],
                        ) implies link_sound(*islands, tolerance, links.values()[j]) by {
                        let j0 = if j < k {
                            j
                        } else {
                            j + 1
                        };
                        assert(links.values()[j] == before.values()[j0]);
                    }
                }
                assert forall|j: int| 0 <= j < k implies !doomed(
                    *islands,
                    #[trigger] links.values()[j],
                ) by {
                    assert(links.values()[j] == before.values()[j]);
                }
                assert forall|other: u64|
                    #![trigger links.contains(other)]
                    #![trigger old(links).contains(other)]
                    ({
                        &&& links.contains(other) ==> old(links).contains(other)
                        &&& old(links).contains(other) && !doomed(
                            *islands,
                            old(links).value(other),
                        ) ==> links.contains(other)
                        &&& links.contains(other) ==> links.value(other) == old(links).value(
                            other,
                        )
                    }) by {
                    lemma_place_after_remove(before.ids(), k as int, other);
                    assert(before.value(id) == before.values()[k as int]);
                    assert(doomed(*islands, before.values()[k as int]));
                    if before.contains(other) && other != id {
                        let j0 = before.place(other);
                        assert(0 <= j0 < before.ids().len() && before.ids()[j0] == other);
                        let j = links.place(other);
                        assert(links.values()[j] == before.values()[j0]);
                        assert(links.value(other) == before.value(other));
                    }
                    if old(links).contains(other) && !doomed(*islands, old(links).value(other)) {
                        assert(before.contains(other));
                        assert(before.value(other) == old(links).value(other));
                        assert(other != id);
                    }
                }
            }
        }
    }
    proof {
        reveal(clean_links_sound);
        reveal(all_sound);
        assert forall|j: int| 0 <= j < links.values().len() implies #[trigger] paired_at(
            *links,
            j,
        ) by {
            assert(!doomed(*islands, links.values()[j]));
        }
    }
}

/// The link that leads back where `link` leads, but for the link it names
/// as its own way back.
spec fn turned(link: BoundaryLink) -> BoundaryLink {
    BoundaryLink {
        source_node: link.destination_node,
        destination_node: link.source_node,
        portal: (link.portal.1, link.portal.0),
        cost: link.cost,
        reverse_link: link.reverse_link,
    }
}

/// The link that leads back where a sound link leads is sound.
proof fn lemma_turned_sound(
    islands: Arena<IslandSlot>,
    tolerance: LinkTolerance,
    link: BoundaryLink,
)
    requires
        link_sound(islands, tolerance, link),
    ensures
        link_sound(islands, tolerance, turned(link)),
{
    let (i, j) = choose|i: int, j: int| #[trigger] link_made_by(islands, tolerance, link, i, j);
    assert(link_made_by(islands, tolerance, turned(link), j, i));
}

/// Soundness does not look at the way back that a link names.
proof fn lemma_sound_whatever_back(
    islands: Arena<IslandSlot>,
    tolerance: LinkTolerance,
    link: BoundaryLink,
    back: BoundaryLinkId,
)
    requires
        link_sound(islands, tolerance, link),
    ensures
        link_sound(islands, tolerance, BoundaryLink { reverse_link: back, ..link }),
{
    let (i, j) = choose|i: int, j: int| #[trigger] link_made_by(islands, tolerance, link, i, j);
    assert(link_made_by(islands, tolerance, BoundaryLink { reverse_link: back, ..link }, i, j));
}

/// Adds a link and the link that leads back.
fn add_link_pair(
    links: &mut Arena<BoundaryLink>,
    forth: BoundaryLink,
    Ghost(islands): Ghost<Arena<IslandSlot>>,
    Ghost(tolerance): Ghost<LinkTolerance>,
)
    requires
        old(links).wf(),
        old(links).has_room_for(2),
        all_paired(*old(links)),
        all_sound(islands, tolerance, *old(links)),
        link_sound(islands, tolerance, forth),
    ensures
        final(links).wf(),
        final(links).handed_out() == old(links).handed_out() + 2,
        all_paired(*final(links)),
        all_sound(islands, tolerance, *final(links)),
        links_kept(*old(links), *final(links)),
        exists|id: u64| #[trigger]
            final(links).contains(id) && final(links).value(id).source_node == forth.source_node
                && final(links).value(id).destination_node == forth.destination_node
                && final(links).value(id).portal == forth.portal && final(links).value(id).cost
                == forth.cost,
{
    let ghost before = *links;
    let first = links.insert(forth);
    let ghost middle = *links;
    let back = BoundaryLink {
        source_node: forth.destination_node,
        destination_node: forth.source_node,
        portal: (forth.portal.1, forth.portal.0),
        cost: forth.cost,
        reverse_link: BoundaryLinkId(first),
    };
    let second = links.insert(back);
    let place: usize = links.values.len() - 2;
    links.values[place].reverse_link = BoundaryLinkId(second);
    proof {
        let n = before.ids().len() as int;
        let after = *links;
        lemma_place_after_push(before.ids(), first, first);
        lemma_place_after_push(middle.ids(), second, first);
        lemma_place_after_push(middle.ids(), second, second);
        assert(after.ids() == before.ids().push(first).push(second));
        assert(after.ids()[n] == first && after.ids()[n + 1] == second);
        assert(after.place(first) == n);
        assert(after.place(second) == n + 1);
        assert forall|id: u64| #[trigger] before.contains(id) implies after.contains(id)
            && after.value(id) == before.value(id) && after.place(id) < n by {
            lemma_place_after_push(before.ids(), first, id);
            lemma_place_after_push(middle.ids(), second, id);
            let j = before.place(id);
            assert(0 <= j < n && before.ids()[j] == id);
        }
        assert(after.contains(first) && after.value(first) == BoundaryLink {
            reverse_link: BoundaryLinkId(second),
            ..forth
        });
        assert(all_paired(after)) by {
            reveal(all_paired);
            assert forall|k: int| 0 <= k < after.values().len() implies #[trigger] paired_at(
                after,
                k,
            ) by {
                if k < n {
                    assert(paired_at(before, k));
                    assert(after.values()[k] == before.values()[k]);
                    assert(after.ids()[k] == before.ids()[k]);
                    assert(after.contains(before.values()[k].reverse_link.0));
                }
            }
        }
        assert(all_sound(islands, tolerance, after)) by {
            reveal(all_sound);
            lemma_sound_whatever_back(islands, tolerance, forth, BoundaryLinkId(second));
            lemma_turned_sound(islands, tolerance, forth);
            lemma_sound_whatever_back(islands, tolerance, turned(forth), BoundaryLinkId(first));
            assert forall|k: int| 0 <= k < after.values().len() implies link_sound(
                islands,
                tolerance,
                #[trigger] after.values()[k],
            ) by {
                if k < n {
                    assert(after.values()[k] == before.values()[k]);
                }
            }
        }
    }
}

/// The edge `edge` of the mesh of `data`, in the world.
fn edge_in_world(data: &crate::island::IslandNavigationData, edge: MeshEdgeRef) -> (r: (Vec3, Vec3))
    requires
        data.wf(),
        is_position(data.nav_mesh.polys(), edge.polygon_index as int, edge.edge_index as int),
    ensures
        r.0 == data.transform.apply_spec(
            data.nav_mesh.edge_points(edge.polygon_index as int, edge.edge_index as int).0,
        ),
        r.1 == data.transform.apply_spec(
            data.nav_mesh.edge_points(edge.polygon_index as int, edge.edge_index as int).1,
        ),
{
    let ends = data.nav_mesh.get_edge_points(edge);
    (data.transform.apply(ends.0), data.transform.apply(ends.1))
}

/// Links the islands at the places `a` and `b` wherever two of their
/// boundary edges meet, as long as link ids are left.
fn link_islands(
    links: &mut Arena<BoundaryLink>,
    islands: &Arena<IslandSlot>,
    tolerance: LinkTolerance,
    a: usize,
    b: usize,
)
    requires
        old(links).wf(),
        islands.wf(),
        a < islands.values().len(),
        b < islands.values().len(),
        a != b,
        islands.values()[a as int].island.has_nav_data(),
        islands.values()[b as int].island.has_nav_data(),
        islands.values()[a as int].island.wf(),
        islands.values()[b as int].island.wf(),
        all_paired(*old(links)),
        all_sound(*islands, tolerance, *old(links)),
    ensures
        final(links).wf(),
        all_paired(*final(links)),
        all_sound(*islands, tolerance, *final(links)),
        links_kept(*old(links), *final(links)),
        final(links).handed_out() >= old(links).handed_out(),
        final(links).has_room_for(2) ==> pair_linked(*islands, tolerance, *final(links), a as int, b as int),
{
    let here = match &islands.values[a].island.nav_data {
        Some(data) => data,
        None => { return ; },
    };
    let there = match &islands.values[b].island.nav_data {
        Some(data) => data,
        None => { return ; },
    };
    let here_id = IslandId(islands.ids[a]);
    let there_id = IslandId(islands.ids[b]);
    proof {
        lemma_place(islands.ids(), a as int);
        lemma_place(islands.ids(), b as int);
    }
    let here_edges = here.nav_mesh.get_boundary_edges();
    let there_edges = there.nav_mesh.get_boundary_edges();
    let mut i: usize = 0;
    while i < here_edges.len()
        invariant
            links.wf(),
            islands.wf(),
            a < islands.values().len(),
            b < islands.values().len(),
            here_id == IslandId(islands.ids()[a as int]),
            there_id == IslandId(islands.ids()[b as int]),
            here_id != there_id,
            islands.place(here_id.0) == a,
            islands.place(there_id.0) == b,
            islands.contains(here_id.0),
            islands.contains(there_id.0),
            islands.values()[a as int].island.nav_data == Some(*here),
            islands.values()[b as int].island.nav_data == Some(*there),
            here.wf(),
            there.wf(),
            here_edges@ == here.nav_mesh.boundary(),
            there_edges@ == there.nav_mesh.boundary(),
            all_paired(*links),
            all_sound(*islands, tolerance, *links),
            links_kept(*old(links), *links),
            links.handed_out() >= old(links).handed_out(),
            links.has_room_for(2) ==> forall|ka: int, kb: int|
                0 <= ka < i && 0 <= kb < there_edges.len() ==> #[trigger] met_at(
                    *islands,
                    tolerance,
                    *links,
                    a as int,
                    b as int,
                    ka,
                    kb,
                ),
        decreases here_edges.len() - i,
    {
        let edge_a = here_edges[i];
        assert(here.nav_mesh.boundary_ok());
        let ends_a = edge_in_world(here, edge_a);
        let mut j: usize = 0;
        while j < there_edges.len()
            invariant
                links.wf(),
                islands.wf(),
                a < islands.values().len(),
                b < islands.values().len(),
                i < here_edges.len(),
                edge_a == here_edges@[i as int],
                here_id == IslandId(islands.ids()[a as int]),
                there_id == IslandId(islands.ids()[b as int]),
                here_id != there_id,
                islands.place(here_id.0) == a,
                islands.place(there_id.0) == b,
                islands.contains(here_id.0),
                islands.contains(there_id.0),
                islands.values()[a as int].island.nav_data == Some(*here),
                islands.values()[b as int].island.nav_data == Some(*there),
                here.wf(),
                there.wf(),
                here_edges@ == here.nav_mesh.boundary(),
                there_edges@ == there.nav_mesh.boundary(),
                ends_a.0 == here.transform.apply_spec(
                    here.nav_mesh.edge_points(
                        edge_a.polygon_index as int,
                        edge_a.edge_index as int,
                    ).0,
                ),
                ends_a.1 == here.transform.apply_spec(
                    here.nav_mesh.edge_points(
                        edge_a.polygon_index as int,
                        edge_a.edge_index as int,
                    ).1,
                ),
                all_paired(*links),
                all_sound(*islands, tolerance, *links),
                links_kept(*old(links), *links),
                links.handed_out() >= old(links).handed_out(),
                links.has_room_for(2) ==> forall|ka: int, kb: int|
                    0 <= ka < i && 0 <= kb < there_edges.len() ==> #[trigger] met_at(
                        *islands,
                        tolerance,
                        *links,
                        a as int,
                        b as int,
                        ka,
                        kb,
                    ),
                links.has_room_for(2) ==> forall|kb: int|
                    0 <= kb < j ==> #[trigger] met_at(
                        *islands,
                        tolerance,
                        *links,
                        a as int,
                        b as int,
                        i as int,
                        kb,
                    ),
            decreases there_edges.len() - j,
        {
            let edge_b = there_edges[j];
            assert(here.nav_mesh.boundary_ok());
            assert(there.nav_mesh.boundary_ok());
            let ends_b = edge_in_world(there, edge_b);
            match link_edges(ends_a.0, ends_a.1, ends_b.0, ends_b.1, tolerance) {
                Some(portal) => {
                    if links.can_insert_two() {
                        let from = here.transform.apply(
                            here.nav_mesh.get_center(edge_a.polygon_index),
                        );
                        let to = there.transform.apply(
                            there.nav_mesh.get_center(edge_b.polygon_index),
                        );
                        let forth = BoundaryLink {
                            source_node: NodeRef {
                                island_id: here_id,
                                polygon_index: edge_a.polygon_index,
                            },
                            destination_node: NodeRef {
                                island_id: there_id,
                                polygon_index: edge_b.polygon_index,
                            },
                            portal,
                            cost: cost_of_link(from, portal, to),
                            reverse_link: BoundaryLinkId(0),
                        };
                        proof {
                            assert(link_made_by(
                                *islands,
                                tolerance,
                                forth,
                                edge_a.edge_index as int,
                                edge_b.edge_index as int,
                            ));
                        }
                        let ghost before = *links;
                        add_link_pair(links, forth, Ghost(*islands), Ghost(tolerance));
                        proof {
                            assert forall|id: u64| #[trigger] old(links).contains(id) implies links.contains(
                                id,
                            ) && links.value(id) == old(links).value(id) by {
                                assert(before.contains(id));
                            }
                            assert(before.has_room_for(2));
                            assert forall|ka: int, kb: int|
                                0 <= ka < i && 0 <= kb < there_edges.len() implies #[trigger] met_at(
                                *islands,
                                tolerance,
                                *links,
                                a as int,
                                b as int,
                                ka,
                                kb,
                            ) by {
                                lemma_met_kept(
                                    *islands,
                                    tolerance,
                                    before,
                                    *links,
                                    a as int,
                                    b as int,
                                    ka,
                                    kb,
                                );
                            }
                            assert forall|kb: int| 0 <= kb < j implies #[trigger] met_at(
                                *islands,
                                tolerance,
                                *links,
                                a as int,
                                b as int,
                                i as int,
                                kb,
                            ) by {
                                lemma_met_kept(
                                    *islands,
                                    tolerance,
                                    before,
                                    *links,
                                    a as int,
                                    b as int,
                                    i as int,
                                    kb,
                                );
                            }
                            let id = choose|id: u64| #[trigger]
                                links.contains(id) && links.value(id).source_node
                                    == forth.source_node && links.value(id).destination_node
                                    == forth.destination_node && links.value(id).portal
                                    == forth.portal && links.value(id).cost == forth.cost;
                            assert(joins(
                                *islands,
                                tolerance,
                                links.value(id),
                                forth.source_node,
                                forth.destination_node,
                                edge_a.edge_index as int,
                                edge_b.edge_index as int,
                            ));
                            assert(met_at(
                                *islands,
                                tolerance,
                                *links,
                                a as int,
                                b as int,
                                i as int,
                                j as int,
                            ));
                        }
                    }
                },
                None => {
                    proof {
                        let source = NodeRef {
                            island_id: here_id,
                            polygon_index: edge_a.polygon_index,
                        };
                        let destination = NodeRef {
                            island_id: there_id,
                            polygon_index: edge_b.polygon_index,
                        };
                        assert(world_edge(*islands, source, edge_a.edge_index as int) == ends_a);
                        assert(world_edge(*islands, destination, edge_b.edge_index as int)
                            == ends_b);
                        assert(met_at(
                            *islands,
                            tolerance,
                            *links,
                            a as int,
                            b as int,
                            i as int,
                            j as int,
                        ));
                    }
                },
            }
            j = j + 1;
        }
        i = i + 1;
    }
    proof {
        if links.has_room_for(2) {
            lemma_pair_linked(*islands, tolerance, *links, a as int, b as int);
        }
    }
}

/// Whether the islands at the places `a` and `b`, of which one may have
/// changed, are linked wherever two of their boundary edges meet.
pub open(crate) spec fn changed_linked(
    islands: Arena<IslandSlot>,
    tolerance: LinkTolerance,
    links: Arena<BoundaryLink>,
    a: int,
    b: int,
) -> bool {
    islands.values()[a].dirty || islands.values()[b].dirty ==> pair_linked(
        islands,
        tolerance,
        links,
        a,
        b,
    )
}

/// Links every pair of islands of which one may have changed, wherever two
/// of their boundary edges meet, as long as link ids are left.
fn relink(links: &mut Arena<BoundaryLink>, islands: &Arena<IslandSlot>, tolerance: LinkTolerance)
    requires
        old(links).wf(),
        islands.wf(),
        forall|k: int|
            0 <= k < islands.values().len() ==> (#[trigger] islands.values()[k]).island.wf(),
        all_paired(*old(links)),
        all_sound(*islands, tolerance, *old(links)),
    ensures
        final(links).wf(),
        all_paired(*final(links)),
        all_sound(*islands, tolerance, *final(links)),
        links_kept(*old(links), *final(links)),
        final(links).has_room_for(2) ==> forall|a: int, b: int|
            0 <= a < b < islands.values().len() ==> #[trigger] changed_linked(
                *islands,
                tolerance,
                *final(links),
                a,
                b,
            ),
{
    let margin: u32 = if tolerance.horizontal > tolerance.vertical {
        tolerance.horizontal
    } else {
        tolerance.vertical
    };
    let total: usize = islands.values.len();
    let mut a: usize = 0;
    while a < total
        invariant
            links.wf(),
            islands.wf(),
            total == islands.values().len(),
            margin == reach(tolerance),
            forall|k: int|
                0 <= k < islands.values().len() ==> (#[trigger] islands.values()[k]).island.wf(),
            all_paired(*links),
            all_sound(*islands, tolerance, *links),
            links_kept(*old(links), *links),
            links.has_room_for(2) ==> forall|x: int, y: int|
                0 <= x < a && x < y < total ==> #[trigger] changed_linked(
                    *islands,
                    tolerance,
                    *links,
                    x,
                    y,
                ),
        decreases total - a,
    {
        let mut b: usize = a + 1;
        while b < total
            invariant
                links.wf(),
                islands.wf(),
                a < b <= total,
                total == islands.values().len(),
                margin == reach(tolerance),
                forall|k: int|
                    0 <= k < islands.values().len() ==> (
                    #[trigger] islands.values()[k]).island.wf(),
                all_paired(*links),
                all_sound(*islands, tolerance, *links),
                links_kept(*old(links), *links),
                links.has_room_for(2) ==> forall|x: int, y: int|
                    0 <= x < a && x < y < total ==> #[trigger] changed_linked(
                        *islands,
                        tolerance,
                        *links,
                        x,
                        y,
                    ),
                links.has_room_for(2) ==> forall|y: int|
                    a < y < b ==> #[trigger] changed_linked(
                        *islands,
                        tolerance,
                        *links,
                        a as int,
                        y,
                    ),
            decreases total - b,
        {
            let here = &islands.values[a];
            let there = &islands.values[b];
            assert(here.island.wf() && there.island.wf());
            let ghost before = *links;
            let ghost mut tried = false;
            if here.dirty || there.dirty {
                match (&here.island.nav_data, &there.island.nav_data) {
                    (Some(near), Some(far)) => {
                        if near.transformed_bounds.expand_by_size(margin).intersects_bounds(
                            &far.transformed_bounds,
                        ) {
                            link_islands(links, islands, tolerance, a, b);
                            proof {
                                tried = true;
                            }
                        }
                    },
                    _ => {},
                }
            }
            proof {
                assert(links_kept(before, *links));
                assert(links.handed_out() >= before.handed_out());
                if links.has_room_for(2) {
                    assert(before.has_room_for(2));
                    assert(changed_linked(*islands, tolerance, *links, a as int, b as int)) by {
                        if !tried {
                            assert(!(islands.values()[a as int].dirty
                                || islands.values()[b as int].dirty) || !near(
                                *islands,
                                tolerance,
                                a as int,
                                b as int,
                            ));
                        }
                    }
                    assert forall|x: int, y: int| 0 <= x < a && x < y < total implies #[trigger] changed_linked(
                        *islands,
                        tolerance,
                        *links,
                        x,
                        y,
                    ) by {
                        assert(changed_linked(*islands, tolerance, before, x, y));
                        if islands.values()[x].dirty || islands.values()[y].dirty {
                            lemma_pair_kept(*islands, tolerance, before, *links, x, y);
                        }
                    }
                    assert forall|y: int| a < y < b implies #[trigger] changed_linked(
                        *islands,
                        tolerance,
                        *links,
                        a as int,
                        y,
                    ) by {
                        assert(changed_linked(*islands, tolerance, before, a as int, y));
                        if islands.values()[a as int].dirty || islands.values()[y].dirty {
                            lemma_pair_kept(*islands, tolerance, before, *links, a as int, y);
                        }
                    }
                }
            }
            b = b + 1;
        }
        a = a + 1;
    }
}

/// The islands of `a` and of `b` are the same, whatever is kept with them.
pub open(crate) spec fn same_islands(a: Arena<IslandSlot>, b: Arena<IslandSlot>) -> bool {
    &&& a.ids() == b.ids()
    &&& a.values().len() == b.values().len()
    &&& forall|k: int|
        0 <= k < a.values().len() ==> (#[trigger] a.values()[k]).island == b.values()[k].island
}

/// A step over some islands is a step over the same islands, whatever is
/// kept with them.
proof fn lemma_step_same(
    a: Arena<IslandSlot>,
    b: Arena<IslandSlot>,
    links: Arena<BoundaryLink>,
    x: NodeRef,
    y: NodeRef,
)
    requires
        a.wf(),
        same_islands(a, b),
        steps_to(a, links, x, y),
    ensures
        steps_to(b, links, x, y),
{
    assert forall|id: u64| a.contains(id) implies b.contains(id) && a.place(id) == b.place(id)
        && a.value(id).island == b.value(id).island by {
        let k = a.place(id);
        assert(0 <= k < a.ids().len() && a.ids()[k] == id);
        assert(a.values()[k].island == b.values()[k].island);
    }
    if exists|i: int| #[trigger] edge_leads(a, x, y, i) {
        let i = choose|i: int| #[trigger] edge_leads(a, x, y, i);
        assert(edge_leads(b, x, y, i));
    } else {
        let k = choose|k: int| #[trigger] link_leads(links, x, y, k);
        assert(link_leads(links, x, y, k));
    }
}

/// A chain over some islands is a chain over the same islands, whatever is
/// kept with them.
proof fn lemma_chain_same(
    a: Arena<IslandSlot>,
    b: Arena<IslandSlot>,
    links: Arena<BoundaryLink>,
    chain: Seq<NodeRef>,
)
    requires
        a.wf(),
        same_islands(a, b),
        chain_ok(a, links, chain),
    ensures
        chain_ok(b, links, chain),
{
    assert forall|n: int| 0 <= n < chain.len() - 1 implies touches(
        b,
        links,
        #[trigger] chain[n],
        chain[n + 1],
    ) by {
        assert(touches(a, links, chain[n], chain[n + 1]));
        if steps_to(a, links, chain[n], chain[n + 1]) {
            lemma_step_same(a, b, links, chain[n], chain[n + 1]);
        } else {
            lemma_step_same(a, b, links, chain[n + 1], chain[n]);
        }
    }
}

/// What is sound of links and regions over some islands is sound over the
/// same islands, whatever is kept with them.
proof fn lemma_same_islands(
    a: Arena<IslandSlot>,
    b: Arena<IslandSlot>,
    tolerance: LinkTolerance,
    links: Arena<BoundaryLink>,
    regions: Seq<Vec<u128>>,
)
    requires
        a.wf(),
        same_islands(a, b),
        all_sound(a, tolerance, links),
        regions_shaped(a, regions),
        regions_agree(a, links, regions),
        regions_tight(a, links, regions),
    ensures
        all_sound(b, tolerance, links),
        regions_shaped(b, regions),
        regions_agree(b, links, regions),
        regions_tight(b, links, regions),
{
    reveal(all_sound);
    assert forall|id: u64| a.contains(id) implies b.contains(id) && a.place(id) == b.place(id)
        && a.value(id).island == b.value(id).island by {
        let k = a.place(id);
        assert(0 <= k < a.ids().len() && a.ids()[k] == id);
        assert(a.values()[k].island == b.values()[k].island);
    }
    assert(regions_tight(b, links, regions)) by {
        reveal(regions_tight);
        assert forall|x: NodeRef, y: NodeRef|
            node_in(b, x) && node_in(b, y) && #[trigger] region_of(b, regions, x)
                == #[trigger] region_of(b, regions, y) implies connected(b, links, x, y) by {
            assert(a.contains(x.island_id.0) && a.contains(y.island_id.0));
            assert(node_in(a, x) && node_in(a, y));
            assert(region_of(a, regions, x) == region_of(a, regions, y));
            let chain = choose|chain: Seq<NodeRef>| #[trigger] chain_joins(a, links, chain, x, y);
            lemma_chain_same(a, b, links, chain);
            assert(chain_joins(b, links, chain, x, y));
        }
    }
    assert forall|k: int| 0 <= k < links.values().len() implies link_sound(
        b,
        tolerance,
        #[trigger] links.values()[k],
    ) by {
        let link = links.values()[k];
        assert(link_sound(a, tolerance, link));
        let (i, j) = choose|i: int, j: int| #[trigger] link_made_by(a, tolerance, link, i, j);
        assert(a.contains(link.source_node.island_id.0));
        assert(a.contains(link.destination_node.island_id.0));
        assert(link_made_by(b, tolerance, link, i, j));
    }
    assert forall|k: int| 0 <= k < b.values().len() implies #[trigger] island_agrees(
        b,
        regions,
        k,
    ) by {
        assert(island_agrees(a, regions, k));
        assert(a.values()[k].island == b.values()[k].island);
    }
    assert forall|k: int| 0 <= k < b.values().len() implies (#[trigger] regions[k]).len() == (
    if b.values()[k].island.has_nav_data() {
        b.values()[k].island.mesh().polys().len()
    } else {
        0
    }) by {
        assert(a.values()[k].island == b.values()[k].island);
    }
    assert forall|k: int| 0 <= k < links.values().len() implies region_of(
        b,
        regions,
        (#[trigger] links.values()[k]).source_node,
    ) == region_of(b, regions, links.values()[k].destination_node) by {
        let link = links.values()[k];
        assert(link_sound(a, tolerance, link));
        assert(a.contains(link.source_node.island_id.0));
        assert(a.contains(link.destination_node.island_id.0));
    }
}

impl NavigationData {
    /// Whether an island of `link` is gone or may have changed, so that the
    /// link is dropped when the links are next brought up to date.
    pub open(crate) spec fn is_stale_link(&self, link: BoundaryLink) -> bool {
        doomed(self.islands, link)
    }

    /// What bringing the links up to date makes of `before`: the islands,
    /// the node types and the tolerance stay; the links are up to date;
    /// every link of islands that had not changed stays as it is, with its
    /// id; every link is sound; and, unless the link ids have run out, every
    /// two islands of which one may have changed are linked wherever a
    /// boundary edge of the one added first meets one of the other.
    /// Navigation data that was up to date stays as it is.
    pub open(crate) spec fn updated_from(&self, before: NavigationData) -> bool {
        &&& self.wf()
        &&& !self.is_dirty()
        &&& !before.is_dirty() ==> *self == before
        &&& self.island_ids() == before.island_ids()
        &&& self.tolerance() == before.tolerance()
        &&& self.can_add_island() == before.can_add_island()
        &&& self.can_add_node_type() == before.can_add_node_type()
        &&& forall|id: IslandId| #[trigger]
            before.has_island(id) ==> self.has_island(id) && self.island(id) == before.island(id)
        &&& forall|t: NodeType|
            self.has_node_type(t) == before.has_node_type(t) && self.node_type_cost(t)
                == before.node_type_cost(t)
        &&& forall|id: BoundaryLinkId| #[trigger]
            before.has_link(id) && !before.is_stale_link(before.link(id)) ==> self.has_link(id)
                && self.link(id) == before.link(id)
        &&& forall|id: BoundaryLinkId| #[trigger]
            self.has_link(id) ==> self.is_sound_link(self.link(id))
        &&& self.boundary_links.has_room_for(2) ==> forall|a: int, b: int|
            0 <= a < b < before.islands.values().len() ==> #[trigger] changed_linked(
                before.islands,
                before.link_tolerance,
                self.boundary_links,
                a,
                b,
            )
    }

    /// Brings the links and the regions up to date, if an island was added,
    /// removed or handed out for a change since they last were. Every link
    /// with such an island is dropped, the others stay as they are, with
    /// their ids. Then every island that may have changed is linked with
    /// every other island wherever two of their boundary edges meet, as long
    /// as link ids are left.
    pub fn update(&mut self)
        requires
            old(self).wf(),
        ensures
            final(self).updated_from(*old(self)),
    {
        if !self.dirty {
            proof {
                self.lemma_links_sound();
            }
            return ;
        }
        let ghost start = self.islands;
        let tolerance = self.link_tolerance;
        purge_links(&mut self.boundary_links, &self.islands, Ghost(tolerance));
        let ghost purged = self.boundary_links;
        relink(&mut self.boundary_links, &self.islands, tolerance);
        proof {
            reveal(all_grounded);
            reveal(all_sound);
        }
        self.regions = build_regions(&self.islands, &self.boundary_links);
        let ghost linked = self.boundary_links;
        let ghost regions = self.regions;
        let mut k: usize = 0;
        while k < self.islands.values.len()
            invariant
                k <= self.islands.values.len(),
                self.islands.ids == start.ids,
                self.islands.keys == start.keys,
                self.islands.issued == start.issued,
                self.boundary_links == linked,
                self.regions == regions,
                self.node_type_costs == old(self).node_type_costs,
                self.link_tolerance == old(self).link_tolerance,
                same_islands(start, self.islands),
                forall|j: int| 0 <= j < k ==> !(#[trigger] self.islands.values()[j]).dirty,
            decreases self.islands.values.len() - k,
        {
            self.islands.values[k].dirty = false;
            k = k + 1;
        }
        self.dirty = false;
        proof {
            lemma_same_islands(
                start,
                self.islands,
                tolerance,
                self.boundary_links,
                self.regions@,
            );
            assert(clean_links_sound(self.islands, tolerance, self.boundary_links)) by {
                reveal(clean_links_sound);
                reveal(all_sound);
            }
            assert(self.island_ids() =~= old(self).island_ids());
            assert forall|j: int| 0 <= j < self.islands.values().len() implies (
            #[trigger] self.islands.values()[j]).island.wf() by {
                assert(start.values()[j].island == self.islands.values()[j].island);
            }
            assert forall|id: IslandId| #[trigger] old(self).has_island(id) implies self.has_island(
                id,
            ) && self.island(id) == old(self).island(id) by {
                let j = start.place(id.0);
                assert(0 <= j < start.ids().len() && start.ids()[j] == id.0);
                assert(start.values()[j].island == self.islands.values()[j].island);
            }
            assert forall|id: BoundaryLinkId| #[trigger]
                old(self).has_link(id) && !old(self).is_stale_link(
                    old(self).link(id),
                ) implies self.has_link(id) && self.link(id) == old(self).link(id) by {
                assert(old(self).boundary_links.contains(id.0));
                assert(purged.contains(id.0));
            }
            self.lemma_links_sound();
        }
    }

    /// While the links are up to date, every link is sound.
    pub(crate) proof fn lemma_links_sound(&self)
        requires
            self.wf(),
            !self.is_dirty(),
        ensures
            forall|id: BoundaryLinkId| #[trigger]
                self.has_link(id) ==> self.is_sound_link(self.link(id)),
    {
        reveal(all_sound);
        assert forall|id: BoundaryLinkId| #[trigger] self.has_link(id) implies self.is_sound_link(
            self.link(id),
        ) by {
            let k = self.boundary_links.place(id.0);
            assert(0 <= k < self.boundary_links.ids().len() && self.boundary_links.ids()[k]
                == id.0);
            assert(link_sound(self.islands, self.link_tolerance, self.boundary_links.values()[k]));
        }
    }

    /// The ids of the islands, in the order in which they were added.
    pub fn get_island_ids(&self) -> (r: Vec<IslandId>)
        requires
            self.wf(),
        ensures
            r@ == self.island_ids(),
    {
        let mut ids: Vec<IslandId> = Vec::new();
        let mut k: usize = 0;
        while k < self.islands.ids.len()
            invariant
                k <= self.islands.ids.len(),
                ids@ == self.island_ids().take(k as int),
            decreases self.islands.ids.len() - k,
        {
            ids.push(IslandId(self.islands.ids[k]));
            proof {
                assert(ids@ =~= self.island_ids().take(k as int + 1));
            }
            k = k + 1;
        }
        proof {
            assert(ids@ =~= self.island_ids());
        }
        ids
    }

    /// The links with their ids, in the order in which they were made.
    pub open(crate) spec fn links(&self) -> Seq<(BoundaryLinkId, BoundaryLink)> {
        Seq::new(
            self.boundary_links.ids().len(),
            |k: int| (BoundaryLinkId(self.boundary_links.ids()[k]), self.boundary_links.values()[k]),
        )
    }

    /// The links with their ids, in the order in which they were made.
    pub fn get_boundary_links(&self) -> (r: Vec<(BoundaryLinkId, BoundaryLink)>)
        requires
            self.wf(),
        ensures
            r@ == self.links(),
    {
        let mut links: Vec<(BoundaryLinkId, BoundaryLink)> = Vec::new();
        let mut k: usize = 0;
        while k < self.boundary_links.ids.len()
            invariant
                self.boundary_links.wf(),
                k <= self.boundary_links.ids.len(),
                links@ == self.links().take(k as int),
            decreases self.boundary_links.ids.len() - k,
        {
            links.push((BoundaryLinkId(self.boundary_links.ids[k]), self.boundary_links.values[k]));
            proof {
                assert(links@ =~= self.links().take(k as int + 1));
            }
            k = k + 1;
        }
        proof {
            assert(links@ =~= self.links());
        }
        links
    }

    /// The link `id`, if the archipelago has it.
    pub fn get_boundary_link(&self, id: BoundaryLinkId) -> (r: Option<BoundaryLink>)
        requires
            self.wf(),
        ensures
            r is Some == self.has_link(id),
            r is Some ==> r->0 == self.link(id),
    {
        match self.boundary_links.get(id.0) {
            Some(link) => Some(*link),
            None => None,
        }
    }

    /// Whether `a` and `b` are connected: whether a chain of polygons leads
    /// from the one to the other, each next to the one before. The answer
    /// is read off the regions that the last update has put the polygons
    /// into.
    pub fn are_nodes_connected(&self, a: NodeRef, b: NodeRef) -> (r: bool)
        requires
            self.wf(),
            !self.is_dirty(),
            self.has_node(a),
            self.has_node(b),
        ensures
            r == (self.region(a) == self.region(b)),
            r == self.connects(a, b),
    {
        let from = self.islands.find(a.island_id.0);
        let to = self.islands.find(b.island_id.0);
        proof {
            if self.region(a) == self.region(b) {
                reveal(regions_tight);
            }
            if self.connects(a, b) {
                let chain = choose|chain: Seq<NodeRef>| #[trigger]
                    chain_joins(self.islands, self.boundary_links, chain, a, b);
                lemma_connected_agree(
                    self.islands,
                    self.boundary_links,
                    self.regions@,
                    chain,
                    a,
                    b,
                );
            }
        }
        match (from, to) {
            (Some(i), Some(j)) => {
                assert(self.regions@[i as int].len() > a.polygon_index);
                assert(self.regions@[j as int].len() > b.polygon_index);
                self.regions[i][a.polygon_index] == self.regions[j][b.polygon_index]
            },
            _ => false,
        }
    }
}

/// Every link has a link that leads back: from its destination to its
/// source, at the same cost.
pub proof fn lemma_links_have_reverse(nav: NavigationData, id: BoundaryLinkId)
    requires
        nav.wf(),
        nav.has_link(id),
    ensures
        nav.has_link(nav.link(id).reverse_link),
        nav.link(nav.link(id).reverse_link).source_node == nav.link(id).destination_node,
        nav.link(nav.link(id).reverse_link).destination_node == nav.link(id).source_node,
        nav.link(nav.link(id).reverse_link).cost == nav.link(id).cost,
        nav.link(nav.link(id).reverse_link).reverse_link == id,
{
    reveal(all_paired);
    let k = nav.boundary_links.place(id.0);
    assert(0 <= k < nav.boundary_links.ids().len() && nav.boundary_links.ids()[k] == id.0);
    assert(paired_at(nav.boundary_links, k));
}

} // verus!
