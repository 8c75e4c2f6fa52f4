//! The regions of an archipelago: two polygons are in one region exactly
//! when a chain of neighbors leads from the one to the other.

use vstd::prelude::*;
use crate::island::IslandId;
use crate::nav_data::{island_of, node_in, BoundaryLink, IslandSlot, NodeRef};
use crate::nav_mesh::{is_position, link_ok, precedes};
use crate::slots::{lemma_place, Arena};

verus! {

/// The region of `node` in `regions`.
pub open(crate) spec fn region_of(
    islands: Arena<IslandSlot>,
    regions: Seq<Vec<u128>>,
    node: NodeRef,
) -> u128 {
    regions[islands.place(node.island_id.0)][node.polygon_index as int]
}

/// `regions` has a region for every polygon of every island.
pub open(crate) spec fn regions_shaped(islands: Arena<IslandSlot>, regions: Seq<Vec<u128>>) -> bool {
    &&& regions.len() == islands.values().len()
    &&& forall|k: int|
        0 <= k < islands.values().len() ==> (#[trigger] regions[k]).len() == (
        if islands.values()[k].island.has_nav_data() {
            islands.values()[k].island.mesh().polys().len()
        } else {
            0
        })
}

/// The region is the same on both sides of every connection of the mesh of
/// the island at place `k`.
pub open(crate) spec fn island_agrees(
    islands: Arena<IslandSlot>,
    regions: Seq<Vec<u128>>,
    k: int,
) -> bool {
    let mesh = islands.values()[k].island.mesh();
    islands.values()[k].island.has_nav_data() ==> forall|p: int, i: int|
        is_position(mesh.polys(), p, i) && (#[trigger] mesh.link(p, i)) is Some ==> regions[k][p]
            == regions[k][mesh.link(p, i)->0.polygon_index as int]
}

/// The region is the same on both sides of every connection of a mesh and of
/// every link.
pub open(crate) spec fn regions_agree(
    islands: Arena<IslandSlot>,
    links: Arena<BoundaryLink>,
    regions: Seq<Vec<u128>>,
) -> bool {
    &&& forall|k: int| 0 <= k < islands.values().len() ==> #[trigger] island_agrees(islands, regions, k)
    &&& forall|k: int|
        0 <= k < links.values().len() ==> region_of(
            islands,
            regions,
            (#[trigger] links.values()[k]).source_node,
        ) == region_of(islands, regions, links.values()[k].destination_node)
}

/// Whether edge `i` of the polygon of `from` leads to the polygon of `to`, in
/// one mesh.
pub open(crate) spec fn edge_leads(
    islands: Arena<IslandSlot>,
    from: NodeRef,
    to: NodeRef,
    i: int,
) -> bool {
    let mesh = island_of(islands, from.island_id).mesh();
    &&& to.island_id == from.island_id
    &&& is_position(mesh.polys(), from.polygon_index as int, i)
    &&& mesh.link(from.polygon_index as int, i) is Some
    &&& mesh.link(from.polygon_index as int, i)->0.polygon_index == to.polygon_index
}

/// Whether the link at place `k` leads from `from` to `to`.
pub open(crate) spec fn link_leads(
    links: Arena<BoundaryLink>,
    from: NodeRef,
    to: NodeRef,
    k: int,
) -> bool {
    &&& 0 <= k < links.values().len()
    &&& links.values()[k].source_node == from
    &&& links.values()[k].destination_node == to
}

/// Whether one step leads from `from` to `to`: through an edge of the
/// polygon of `from`, or by a link.
pub open(crate) spec fn steps_to(
    islands: Arena<IslandSlot>,
    links: Arena<BoundaryLink>,
    from: NodeRef,
    to: NodeRef,
) -> bool {
    &&& node_in(islands, from)
    &&& node_in(islands, to)
    &&& {
        ||| exists|i: int| #[trigger] edge_leads(islands, from, to, i)
        ||| exists|k: int| #[trigger] link_leads(links, from, to, k)
    }
}

/// Whether one step leads from one of the two nodes to the other.
pub open(crate) spec fn touches(
    islands: Arena<IslandSlot>,
    links: Arena<BoundaryLink>,
    a: NodeRef,
    b: NodeRef,
) -> bool {
    steps_to(islands, links, a, b) || steps_to(islands, links, b, a)
}

/// Whether each node of `chain` touches the next.
pub open(crate) spec fn chain_ok(
    islands: Arena<IslandSlot>,
    links: Arena<BoundaryLink>,
    chain: Seq<NodeRef>,
) -> bool {
    forall|n: int|
        0 <= n < chain.len() - 1 ==> touches(islands, links, #[trigger] chain[n], chain[n + 1])
}

/// Whether `chain` leads from `a` to `b`, each node touching the next.
pub open(crate) spec fn chain_joins(
    islands: Arena<IslandSlot>,
    links: Arena<BoundaryLink>,
    chain: Seq<NodeRef>,
    a: NodeRef,
    b: NodeRef,
) -> bool {
    &&& chain.len() >= 1
    &&& chain[0] == a
    &&& chain[chain.len() - 1] == b
    &&& chain_ok(islands, links, chain)
}

/// Whether a chain of nodes, each touching the next, leads from `a` to `b`.
pub open(crate) spec fn connected(
    islands: Arena<IslandSlot>,
    links: Arena<BoundaryLink>,
    a: NodeRef,
    b: NodeRef,
) -> bool {
    exists|chain: Seq<NodeRef>| #[trigger] chain_joins(islands, links, chain, a, b)
}

/// Every node is connected with itself.
pub(crate) proof fn lemma_connected_itself(
    islands: Arena<IslandSlot>,
    links: Arena<BoundaryLink>,
    a: NodeRef,
)
    ensures
        connected(islands, links, a, a),
{
    assert(chain_joins(islands, links, seq![a], a, a));
}

/// Nodes that touch are connected.
pub(crate) proof fn lemma_connected_step(
    islands: Arena<IslandSlot>,
    links: Arena<BoundaryLink>,
    a: NodeRef,
    b: NodeRef,
)
    requires
        touches(islands, links, a, b),
    ensures
        connected(islands, links, a, b),
{
    assert(chain_joins(islands, links, seq![a, b], a, b));
}

/// A chain read backwards is a chain.
pub(crate) proof fn lemma_connected_back(
    islands: Arena<IslandSlot>,
    links: Arena<BoundaryLink>,
    a: NodeRef,
    b: NodeRef,
)
    requires
        connected(islands, links, a, b),
    ensures
        connected(islands, links, b, a),
{
    let chain = choose|chain: Seq<NodeRef>| #[trigger] chain_joins(islands, links, chain, a, b);
    let back = Seq::new(chain.len(), |n: int| chain[chain.len() - 1 - n]);
    assert forall|n: int| 0 <= n < back.len() - 1 implies touches(
        islands,
        links,
        #[trigger] back[n],
        back[n + 1],
    ) by {
        let m = chain.len() - 2 - n;
        assert(touches(islands, links, chain[m], chain[m + 1]));
    }
    assert(chain_joins(islands, links, back, b, a));
}

/// Two chains, the second beginning where the first ends, make a chain.
pub(crate) proof fn lemma_connected_on(
    islands: Arena<IslandSlot>,
    links: Arena<BoundaryLink>,
    a: NodeRef,
    b: NodeRef,
    c: NodeRef,
)
    requires
        connected(islands, links, a, b),
        connected(islands, links, b, c),
    ensures
        connected(islands, links, a, c),
{
    let first = choose|chain: Seq<NodeRef>| #[trigger] chain_joins(islands, links, chain, a, b);
    let second = choose|chain: Seq<NodeRef>| #[trigger] chain_joins(islands, links, chain, b, c);
    let whole = first + second.skip(1);
    assert forall|n: int| 0 <= n < whole.len() - 1 implies touches(
        islands,
        links,
        #[trigger] whole[n],
        whole[n + 1],
    ) by {
        if n < first.len() - 1 {
            assert(touches(islands, links, first[n], first[n + 1]));
        } else {
            let m = n - (first.len() - 1);
            assert(touches(islands, links, second[m], second[m + 1]));
        }
    }
    assert(chain_joins(islands, links, whole, a, c));
}

/// Whether every two nodes in one region are connected.
#[verifier::opaque]
pub open(crate) spec fn regions_tight(
    islands: Arena<IslandSlot>,
    links: Arena<BoundaryLink>,
    regions: Seq<Vec<u128>>,
) -> bool {
    forall|a: NodeRef, b: NodeRef|
        node_in(islands, a) && node_in(islands, b) && #[trigger] region_of(islands, regions, a)
            == #[trigger] region_of(islands, regions, b) ==> connected(islands, links, a, b)
}

/// Two nodes that touch are in one region where the regions agree.
proof fn lemma_touching_agree(
    islands: Arena<IslandSlot>,
    links: Arena<BoundaryLink>,
    regions: Seq<Vec<u128>>,
    a: NodeRef,
    b: NodeRef,
)
    requires
        islands.wf(),
        regions_agree(islands, links, regions),
        steps_to(islands, links, a, b),
    ensures
        region_of(islands, regions, a) == region_of(islands, regions, b),
{
    let place = islands.place(a.island_id.0);
    assert(0 <= place < islands.ids().len() && islands.ids()[place] == a.island_id.0);
    if exists|i: int| #[trigger] edge_leads(islands, a, b, i) {
        let i = choose|i: int| #[trigger] edge_leads(islands, a, b, i);
        assert(island_agrees(islands, regions, place));
    } else {
        let k = choose|k: int| #[trigger] link_leads(links, a, b, k);
        assert(links.values()[k].source_node == a);
    }
}

/// Where the regions agree, connected nodes are in one region.
pub(crate) proof fn lemma_connected_agree(
    islands: Arena<IslandSlot>,
    links: Arena<BoundaryLink>,
    regions: Seq<Vec<u128>>,
    chain: Seq<NodeRef>,
    a: NodeRef,
    b: NodeRef,
)
    requires
        islands.wf(),
        regions_agree(islands, links, regions),
        chain_joins(islands, links, chain, a, b),
    ensures
        region_of(islands, regions, a) == region_of(islands, regions, b),
    decreases chain.len(),
{
    if chain.len() > 1 {
        let rest = chain.drop_last();
        let before = rest[rest.len() - 1];
        assert forall|n: int| 0 <= n < rest.len() - 1 implies touches(
            islands,
            links,
            #[trigger] rest[n],
            rest[n + 1],
        ) by {
            assert(touches(islands, links, chain[n], chain[n + 1]));
        }
        assert(chain_joins(islands, links, rest, a, before));
        lemma_connected_agree(islands, links, regions, rest, a, before);
        assert(touches(islands, links, chain[chain.len() - 2], chain[chain.len() - 2 + 1]));
        if steps_to(islands, links, before, b) {
            lemma_touching_agree(islands, links, regions, before, b);
        } else {
            lemma_touching_agree(islands, links, regions, b, before);
        }
    }
}

/// The sum of the regions of a row.
pub open(crate) spec fn row_weight(row: Seq<u128>) -> int
    decreases row.len(),
{
    if row.len() == 0 {
        0
    } else {
        row_weight(row.drop_last()) + row.last()
    }
}

/// The sum of all regions.
pub open(crate) spec fn weight(regions: Seq<Vec<u128>>) -> int
    decreases regions.len(),
{
    if regions.len() == 0 {
        0
    } else {
        weight(regions.drop_last()) + row_weight(regions.last()@)
    }
}

/// No row weighs less than nothing.
proof fn lemma_row_weight(row: Seq<u128>)
    ensures
        row_weight(row) >= 0,
    decreases row.len(),
{
    if row.len() > 0 {
        lemma_row_weight(row.drop_last());
    }
}

/// No regions weigh less than nothing.
proof fn lemma_weight(regions: Seq<Vec<u128>>)
    ensures
        weight(regions) >= 0,
    decreases regions.len(),
{
    if regions.len() > 0 {
        lemma_weight(regions.drop_last());
        lemma_row_weight(regions.last()@);
    }
}

/// A row with one region changed weighs as much less as that region is
/// less.
proof fn lemma_row_lowered(row: Seq<u128>, p: int, region: u128)
    requires
        0 <= p < row.len(),
    ensures
        row_weight(row.update(p, region)) == row_weight(row) - row[p] + region,
    decreases row.len(),
{
    let after = row.update(p, region);
    if p == row.len() - 1 {
        assert(after.drop_last() =~= row.drop_last());
    } else {
        lemma_row_lowered(row.drop_last(), p, region);
        assert(after.drop_last() =~= row.drop_last().update(p, region));
    }
}

/// Regions with one row changed weigh as much less as that row weighs less.
proof fn lemma_lowered(before: Seq<Vec<u128>>, after: Seq<Vec<u128>>, k: int)
    requires
        after.len() == before.len(),
        0 <= k < before.len(),
        forall|j: int| 0 <= j < before.len() && j != k ==> (#[trigger] after[j])@ == before[j]@,
    ensures
        weight(after) == weight(before) - row_weight(before[k]@) + row_weight(after[k]@),
    decreases before.len(),
{
    if k == before.len() - 1 {
        lemma_same_weight(before.drop_last(), after.drop_last());
    } else {
        assert(after[after.len() - 1]@ == before[before.len() - 1]@);
        lemma_lowered(before.drop_last(), after.drop_last(), k);
    }
}

/// Regions that are the same row by row weigh the same.
proof fn lemma_same_weight(before: Seq<Vec<u128>>, after: Seq<Vec<u128>>)
    requires
        after.len() == before.len(),
        forall|j: int| 0 <= j < before.len() ==> (#[trigger] after[j])@ == before[j]@,
    ensures
        weight(after) == weight(before),
    decreases before.len(),
{
    if before.len() > 0 {
        assert(after[after.len() - 1]@ == before[before.len() - 1]@);
        lemma_same_weight(before.drop_last(), after.drop_last());
    }
}

/// The polygon `p` of the island at place `k`.
pub open(crate) spec fn node_at(islands: Arena<IslandSlot>, k: int, p: int) -> NodeRef {
    NodeRef { island_id: IslandId(islands.ids()[k]), polygon_index: p as usize }
}

/// Every link joins two nodes.
#[verifier::opaque]
pub open(crate) spec fn all_grounded(islands: Arena<IslandSlot>, links: Arena<BoundaryLink>) -> bool {
    forall|k: int|
        0 <= k < links.values().len() ==> node_in(
            islands,
            (#[trigger] links.values()[k]).source_node,
        ) && node_in(islands, links.values()[k].destination_node)
}

/// `after` is `before` but for the region of polygon `p` of the island at
/// place `k`, which is `region`.
spec fn one_changed(before: Seq<Vec<u128>>, after: Seq<Vec<u128>>, k: int, p: int, region: u128) -> bool {
    &&& after.len() == before.len()
    &&& 0 <= k < before.len()
    &&& 0 <= p < before[k].len()
    &&& after[k]@ == before[k]@.update(p, region)
    &&& forall|j: int| 0 <= j < before.len() && j != k ==> (#[trigger] after[j])@ == before[j]@
}

/// A polygon that takes the lesser region of a node that it touches leaves
/// every region connected, and the regions weigh less.
proof fn lemma_one_lowered(
    islands: Arena<IslandSlot>,
    links: Arena<BoundaryLink>,
    before: Seq<Vec<u128>>,
    after: Seq<Vec<u128>>,
    k: int,
    p: int,
    other: NodeRef,
)
    requires
        islands.wf(),
        regions_shaped(islands, before),
        regions_tight(islands, links, before),
        one_changed(before, after, k, p, region_of(islands, before, other)),
        region_of(islands, before, other) < before[k][p],
        touches(islands, links, node_at(islands, k, p), other),
    ensures
        regions_shaped(islands, after),
        regions_tight(islands, links, after),
        weight(after) < weight(before),
{
    let region = region_of(islands, before, other);
    let here = node_at(islands, k, p);
    lemma_place(islands.ids(), k);
    assert forall|j: int| 0 <= j < islands.values().len() implies (#[trigger] after[j]).len() == (
    if islands.values()[j].island.has_nav_data() {
        islands.values()[j].island.mesh().polys().len()
    } else {
        0
    }) by {
        assert(before[j].len() == after[j]@.len());
    }
    lemma_lowered(before, after, k);
    lemma_row_lowered(before[k]@, p, region);
    assert forall|z: NodeRef| node_in(islands, z) && z != here implies #[trigger] region_of(
        islands,
        after,
        z,
    ) == region_of(islands, before, z) by {
        let j = islands.place(z.island_id.0);
        assert(0 <= j < islands.ids().len() && islands.ids()[j] == z.island_id.0);
        if j != k {
            assert(after[j]@ == before[j]@);
        }
    }
    assert(region_of(islands, after, here) == region);
    assert(node_in(islands, here) && node_in(islands, other));
    lemma_connected_step(islands, links, here, other);
    lemma_connected_back(islands, links, here, other);
    assert(regions_tight(islands, links, after)) by {
        reveal(regions_tight);
        assert forall|a: NodeRef, b: NodeRef|
            node_in(islands, a) && node_in(islands, b) && #[trigger] region_of(islands, after, a)
                == #[trigger] region_of(islands, after, b) implies connected(
            islands,
            links,
            a,
            b,
        ) by {
            if a == here && b == here {
                lemma_connected_itself(islands, links, here);
            } else if a == here {
                assert(region_of(islands, before, b) == region_of(islands, before, other));
                lemma_connected_on(islands, links, here, other, b);
            } else if b == here {
                assert(region_of(islands, before, a) == region_of(islands, before, other));
                lemma_connected_on(islands, links, a, other, here);
            } else {
                assert(region_of(islands, before, a) == region_of(islands, before, b));
            }
        }
    }
}

/// Gives the polygon `p` of the island at place `a` and the polygon `q` of
/// the island at place `b`, which touch, the lesser of their two regions.
/// Returns whether a region changed.
fn lower(
    regions: &mut Vec<Vec<u128>>,
    a: usize,
    p: usize,
    b: usize,
    q: usize,
    Ghost(islands): Ghost<Arena<IslandSlot>>,
    Ghost(links): Ghost<Arena<BoundaryLink>>,
) -> (changed: bool)
    requires
        islands.wf(),
        regions_shaped(islands, old(regions)@),
        regions_tight(islands, links, old(regions)@),
        a < old(regions).len(),
        b < old(regions).len(),
        p < old(regions)[a as int].len(),
        q < old(regions)[b as int].len(),
        touches(islands, links, node_at(islands, a as int, p as int), node_at(islands, b as int, q as int)),
    ensures
        regions_shaped(islands, final(regions)@),
        regions_tight(islands, links, final(regions)@),
        final(regions)[a as int][p as int] == final(regions)[b as int][q as int],
        !changed ==> final(regions)@ == old(regions)@,
        changed ==> weight(final(regions)@) < weight(old(regions)@),
{
    let here: u128 = regions[a][p];
    let there: u128 = regions[b][q];
    if here == there {
        return false;
    }
    let ghost before = regions@;
    proof {
        lemma_place(islands.ids(), a as int);
        lemma_place(islands.ids(), b as int);
    }
    if here < there {
        regions[b][q] = here;
        proof {
            assert(one_changed(before, regions@, b as int, q as int, here));
            lemma_one_lowered(
                islands,
                links,
                before,
                regions@,
                b as int,
                q as int,
                node_at(islands, a as int, p as int),
            );
        }
    } else {
        regions[a][p] = there;
        proof {
            assert(one_changed(before, regions@, a as int, p as int, there));
            lemma_one_lowered(
                islands,
                links,
                before,
                regions@,
                a as int,
                p as int,
                node_at(islands, b as int, q as int),
            );
        }
    }
    true
}

/// Whether the region is the same on both sides of every connection of the
/// mesh of the island at place `k` that comes before edge `i` of polygon
/// `p`.
spec fn agrees_before(
    islands: Arena<IslandSlot>,
    regions: Seq<Vec<u128>>,
    k: int,
    p: int,
    i: int,
) -> bool {
    let mesh = islands.values()[k].island.mesh();
    forall|q: int, j: int|
        is_position(mesh.polys(), q, j) && precedes(q, j, p, i) && (#[trigger] mesh.link(
            q,
            j,
        )) is Some ==> regions[k][q] == regions[k][mesh.link(q, j)->0.polygon_index as int]
}

/// Gives both ends of every connection of the mesh of the island at place
/// `k` the lesser of their two regions. Returns whether nothing had to
/// change.
fn spread_in_island(
    regions: &mut Vec<Vec<u128>>,
    islands: &Arena<IslandSlot>,
    k: usize,
    Ghost(links): Ghost<Arena<BoundaryLink>>,
) -> (quiet: bool)
    requires
        islands.wf(),
        k < islands.values().len(),
        islands.values()[k as int].island.wf(),
        regions_shaped(*islands, old(regions)@),
        regions_tight(*islands, links, old(regions)@),
    ensures
        regions_shaped(*islands, final(regions)@),
        regions_tight(*islands, links, final(regions)@),
        quiet ==> final(regions)@ == old(regions)@ && island_agrees(*islands, final(regions)@, k as int),
        !quiet ==> weight(final(regions)@) < weight(old(regions)@),
{
    let data = match &islands.values[k].island.nav_data {
        Some(data) => data,
        None => { return true; },
    };
    let mesh = &data.nav_mesh;
    let mut quiet = true;
    let total: usize = mesh.polygon_count();
    proof {
        lemma_place(islands.ids(), k as int);
    }
    let mut p: usize = 0;
    while p < total
        invariant
            islands.wf(),
            k < islands.values().len(),
            islands.place(islands.ids()[k as int]) == k,
            islands.values()[k as int].island.nav_data == Some(*data),
            *mesh == data.nav_mesh,
            data.wf(),
            p <= total,
            total == mesh.polys().len(),
            regions_shaped(*islands, regions@),
            regions_tight(*islands, links, regions@),
            quiet ==> regions@ == old(regions)@ && agrees_before(
                *islands,
                regions@,
                k as int,
                p as int,
                0,
            ),
            !quiet ==> weight(regions@) < weight(old(regions)@),
        decreases total - p,
    {
        let n: usize = mesh.polygon_len(p);
        let mut i: usize = 0;
        while i < n
            invariant
                islands.wf(),
                k < islands.values().len(),
                islands.place(islands.ids()[k as int]) == k,
                islands.values()[k as int].island.nav_data == Some(*data),
                *mesh == data.nav_mesh,
                data.wf(),
                p < total,
                i <= n,
                n == mesh.polys()[p as int].len(),
                total == mesh.polys().len(),
                regions_shaped(*islands, regions@),
                regions_tight(*islands, links, regions@),
                quiet ==> regions@ == old(regions)@ && agrees_before(
                    *islands,
                    regions@,
                    k as int,
                    p as int,
                    i as int,
                ),
                !quiet ==> weight(regions@) < weight(old(regions)@),
            decreases n - i,
        {
            match mesh.get_connectivity(p, i) {
                Some(way) => {
                    let q: usize = way.polygon_index;
                    proof {
                        assert(link_ok(
                            mesh.points(),
                            mesh.polys(),
                            mesh.link(p as int, i as int),
                            p as int,
                            i as int,
                        ));
                        assert(edge_leads(
                            *islands,
                            node_at(*islands, k as int, p as int),
                            node_at(*islands, k as int, q as int),
                            i as int,
                        ));
                    }
                    let changed = lower(regions, k, p, k, q, Ghost(*islands), Ghost(links));
                    if changed {
                        quiet = false;
                    }
                },
                None => {},
            }
            proof {
                if quiet {
                    assert forall|q: int, j: int|
                        is_position(mesh.polys(), q, j) && precedes(q, j, p as int, i as int + 1)
                            && (#[trigger] mesh.link(q, j)) is Some implies regions@[k as int][q]
                        == regions@[k as int][mesh.link(q, j)->0.polygon_index as int] by {
                        if !precedes(q, j, p as int, i as int) {
                            assert(q == p && j == i);
                        }
                    }
                }
            }
            i = i + 1;
        }
        proof {
            if quiet {
                assert forall|q: int, j: int|
                    is_position(mesh.polys(), q, j) && precedes(q, j, p as int + 1, 0) && (
                    #[trigger] mesh.link(q, j)) is Some implies regions@[k as int][q]
                    == regions@[k as int][mesh.link(q, j)->0.polygon_index as int] by {
                    assert(precedes(q, j, p as int, n as int));
                }
            }
        }
        p = p + 1;
    }
    proof {
        if quiet {
            assert forall|q: int, j: int|
                is_position(mesh.polys(), q, j) && (#[trigger] mesh.link(q, j)) is Some implies regions@[k as int][q]
                == regions@[k as int][mesh.link(q, j)->0.polygon_index as int] by {
                assert(precedes(q, j, total as int, 0));
            }
        }
    }
    quiet
}

/// Gives both ends of every link the lesser of their two regions. Returns
/// whether nothing had to change.
fn spread_over_links(
    regions: &mut Vec<Vec<u128>>,
    islands: &Arena<IslandSlot>,
    links: &Arena<BoundaryLink>,
) -> (quiet: bool)
    requires
        islands.wf(),
        links.wf(),
        all_grounded(*islands, *links),
        regions_shaped(*islands, old(regions)@),
        regions_tight(*islands, *links, old(regions)@),
    ensures
        regions_shaped(*islands, final(regions)@),
        regions_tight(*islands, *links, final(regions)@),
        quiet ==> final(regions)@ == old(regions)@ && forall|j: int|
            0 <= j < links.values().len() ==> region_of(
                *islands,
                final(regions)@,
                (#[trigger] links.values()[j]).source_node,
            ) == region_of(*islands, final(regions)@, links.values()[j].destination_node),
        !quiet ==> weight(final(regions)@) < weight(old(regions)@),
{
    let mut quiet = true;
    let count: usize = links.values.len();
    let mut l: usize = 0;
    while l < count
        invariant
            islands.wf(),
            links.wf(),
            l <= count,
            count == links.values().len(),
            all_grounded(*islands, *links),
            regions_shaped(*islands, regions@),
            regions_tight(*islands, *links, regions@),
            quiet ==> regions@ == old(regions)@ && forall|j: int|
                0 <= j < l ==> region_of(
                    *islands,
                    regions@,
                    (#[trigger] links.values()[j]).source_node,
                ) == region_of(*islands, regions@, links.values()[j].destination_node),
            !quiet ==> weight(regions@) < weight(old(regions)@),
        decreases count - l,
    {
        let link = links.values[l];
        proof {
            reveal(all_grounded);
            assert(node_in(*islands, links.values()[l as int].source_node));
        }
        let from = islands.find(link.source_node.island_id.0);
        let to = islands.find(link.destination_node.island_id.0);
        match (from, to) {
            (Some(a), Some(b)) => {
                let p: usize = link.source_node.polygon_index;
                let q: usize = link.destination_node.polygon_index;
                proof {
                    assert(regions@[a as int].len() > p);
                    assert(regions@[b as int].len() > q);
                    assert(node_at(*islands, a as int, p as int) == link.source_node);
                    assert(node_at(*islands, b as int, q as int) == link.destination_node);
                    assert(link_leads(
                        *links,
                        link.source_node,
                        link.destination_node,
                        l as int,
                    ));
                }
                let changed = lower(regions, a, p, b, q, Ghost(*islands), Ghost(*links));
                if changed {
                    quiet = false;
                }
            },
            _ => {},
        }
        l = l + 1;
    }
    quiet
}

/// Gives both ends of every connection of a mesh and of every link the
/// lesser of their two regions. Returns whether nothing had to change.
fn spread(
    regions: &mut Vec<Vec<u128>>,
    islands: &Arena<IslandSlot>,
    links: &Arena<BoundaryLink>,
) -> (settled: bool)
    requires
        islands.wf(),
        links.wf(),
        forall|k: int|
            0 <= k < islands.values().len() ==> (#[trigger] islands.values()[k]).island.wf(),
        all_grounded(*islands, *links),
        regions_shaped(*islands, old(regions)@),
        regions_tight(*islands, *links, old(regions)@),
    ensures
        regions_shaped(*islands, final(regions)@),
        regions_tight(*islands, *links, final(regions)@),
        settled ==> final(regions)@ == old(regions)@ && regions_agree(
            *islands,
            *links,
            final(regions)@,
        ),
        !settled ==> weight(final(regions)@) < weight(old(regions)@),
{
    let mut settled = true;
    let total: usize = islands.values.len();
    let mut k: usize = 0;
    while k < total
        invariant
            islands.wf(),
            k <= total,
            total == islands.values().len(),
            forall|j: int|
                0 <= j < islands.values().len() ==> (#[trigger] islands.values()[j]).island.wf(),
            regions_shaped(*islands, regions@),
            regions_tight(*islands, *links, regions@),
            settled ==> regions@ == old(regions)@ && forall|j: int|
                0 <= j < k ==> #[trigger] island_agrees(*islands, regions@, j),
            !settled ==> weight(regions@) < weight(old(regions)@),
        decreases total - k,
    {
        assert(islands.values()[k as int].island.wf());
        let quiet = spread_in_island(regions, islands, k, Ghost(*links));
        if !quiet {
            settled = false;
        }
        k = k + 1;
    }
    let quiet = spread_over_links(regions, islands, links);
    if !quiet {
        settled = false;
    }
    settled
}

/// The region that polygon `p` of the island at place `k` is in before the
/// regions are spread: its own.
pub open(crate) spec fn own_region(k: int, p: int) -> int {
    k * 0x1_0000_0000_0000_0000 + p
}

/// Puts the polygons into regions: two polygons are in one region exactly
/// when they are connected.
pub(crate) fn build_regions(islands: &Arena<IslandSlot>, links: &Arena<BoundaryLink>) -> (regions: Vec<
    Vec<u128>,
>)
    requires
        islands.wf(),
        links.wf(),
        forall|k: int|
            0 <= k < islands.values().len() ==> (#[trigger] islands.values()[k]).island.wf(),
        all_grounded(*islands, *links),
    ensures
        regions_shaped(*islands, regions@),
        regions_agree(*islands, *links, regions@),
        regions_tight(*islands, *links, regions@),
{
    let mut regions: Vec<Vec<u128>> = Vec::new();
    let total: usize = islands.values.len();
    let mut k: usize = 0;
    while k < total
        invariant
            islands.wf(),
            k <= total,
            total == islands.values().len(),
            regions.len() == k,
            forall|j: int|
                0 <= j < k ==> (#[trigger] regions[j]).len() == (
                if islands.values()[j].island.has_nav_data() {
                    islands.values()[j].island.mesh().polys().len()
                } else {
                    0
                }),
            forall|j: int, q: int|
                0 <= j < k && 0 <= q < regions[j].len() ==> #[trigger] regions[j][q] == own_region(
                    j,
                    q,
                ),
        decreases total - k,
    {
        let count: usize = match &islands.values[k].island.nav_data {
            Some(data) => data.nav_mesh.polygon_count(),
            None => 0,
        };
        let first: u128 = (k as u128) * 0x1_0000_0000_0000_0000u128;
        let mut row: Vec<u128> = Vec::new();
        let mut p: usize = 0;
        while p < count
            invariant
                p <= count,
                row.len() == p,
                first == own_region(k as int, 0),
                forall|q: int| 0 <= q < p ==> #[trigger] row[q] == own_region(k as int, q),
            decreases count - p,
        {
            row.push(first + (p as u128));
            p = p + 1;
        }
        regions.push(row);
        k = k + 1;
    }
    proof {
        assert(regions_tight(*islands, *links, regions@)) by {
            reveal(regions_tight);
            assert forall|a: NodeRef, b: NodeRef|
                node_in(*islands, a) && node_in(*islands, b) && #[trigger] region_of(
                    *islands,
                    regions@,
                    a,
                ) == #[trigger] region_of(*islands, regions@, b) implies connected(
                *islands,
                *links,
                a,
                b,
            ) by {
                let i = islands.place(a.island_id.0);
                let j = islands.place(b.island_id.0);
                assert(0 <= i < islands.ids().len() && islands.ids()[i] == a.island_id.0);
                assert(0 <= j < islands.ids().len() && islands.ids()[j] == b.island_id.0);
                assert(regions@[i][a.polygon_index as int] == own_region(
                    i,
                    a.polygon_index as int,
                ));
                assert(regions@[j][b.polygon_index as int] == own_region(
                    j,
                    b.polygon_index as int,
                ));
                assert(i == j && a.polygon_index == b.polygon_index);
                assert(a == b);
                lemma_connected_itself(*islands, *links, a);
            }
        }
    }
    let mut settled = false;
    while !settled
        invariant
            islands.wf(),
            links.wf(),
            forall|k: int|
                0 <= k < islands.values().len() ==> (#[trigger] islands.values()[k]).island.wf(),
            all_grounded(*islands, *links),
            regions_shaped(*islands, regions@),
            regions_tight(*islands, *links, regions@),
            settled ==> regions_agree(*islands, *links, regions@),
        decreases
                weight(regions@) + if settled {
                    0int
                } else {
                    1int
                },
    {
        proof {
            lemma_weight(regions@);
        }
        settled = spread(&mut regions, islands, links);
        proof {
            lemma_weight(regions@);
        }
    }
    regions
}

} // verus!
