//! Questions to an archipelago that no agent asks: the point of the islands
//! nearest to a point, and the straight path between two such points.

use vstd::prelude::*;
use crate::archipelago::Archipelago;
use crate::island::{IslandId, NodeType};
use crate::math::Vec3;
use crate::nav_data::{NavigationData, NodeRef};
use crate::overrides::CostOverrides;
use crate::path::{Path, PathIndex};
use crate::pathfinding::{
    follows_cheapest, polygon_total, reachable, route_end, route_nodes, route_ok,
};
use crate::steering::{keeps, lemma_found_path_keeps, locate, locate_on};

verus! {

/// A point on the islands of an archipelago.
#[derive(Clone, Copy, PartialEq, Eq, Structural, Debug)]
pub struct SampledPoint {
    /// The point.
    pub point: Vec3,
    /// The node that the point is on.
    pub node_ref: NodeRef,
}

impl SampledPoint {
    /// The point.
    pub fn point(&self) -> (r: Vec3)
        ensures
            r == self.point,
    {
        self.point
    }

    /// The island that the point is on.
    pub fn island(&self) -> (r: IslandId)
        ensures
            r == self.node_ref.island_id,
    {
        self.node_ref.island_id
    }
}

/// Why no point was sampled.
#[derive(Clone, Copy, PartialEq, Eq, Structural, Debug)]
pub enum SamplePointError {
    /// No island is near enough to the point.
    OutOfRange,
    /// The islands have changed since the last update.
    NavDataDirty,
}

/// Why no path was found.
#[derive(Clone, Copy, PartialEq, Eq, Structural, Debug)]
pub enum FindPathError {
    /// A cost that was handed over for a node type is not positive. Holds
    /// the node type and the cost.
    NonPositiveNodeTypeCost(NodeType, u32),
    /// There is no path between the two points.
    NoPathFound,
}

/// The point of the islands nearest to `point` among those nearer than
/// `distance_to_node`.
pub fn sample_point(archipelago: &Archipelago, point: Vec3, distance_to_node: u32) -> (r: Result<
    SampledPoint,
    SamplePointError,
>)
    requires
        archipelago.wf(),
    ensures
        match r {
            Ok(sampled) => {
                &&& !archipelago.nav().is_dirty()
                &&& archipelago.nav().sample(point, distance_to_node) == Some(
                    (sampled.point, sampled.node_ref),
                )
                &&& archipelago.nav().has_node(sampled.node_ref)
            },
            Err(SamplePointError::NavDataDirty) => archipelago.nav().is_dirty(),
            Err(SamplePointError::OutOfRange) => !archipelago.nav().is_dirty()
                && archipelago.nav().sample(point, distance_to_node) is None,
        },
{
    let nav = archipelago.get_nav_data();
    if nav.dirty() {
        return Err(SamplePointError::NavDataDirty);
    }
    match nav.sample_point(point, distance_to_node) {
        Some((found, node_ref)) => Ok(SampledPoint { point: found, node_ref }),
        None => Err(SamplePointError::OutOfRange),
    }
}

/// The first of `costs` that is not positive, if any is not.
pub open spec fn first_non_positive(costs: Seq<(NodeType, u32)>, n: int) -> Option<(NodeType, u32)>
    decreases n,
{
    if n <= 0 {
        None
    } else {
        match first_non_positive(costs, n - 1) {
            Some(found) => Some(found),
            None => if costs[n - 1].1 == 0 {
                Some(costs[n - 1])
            } else {
                None
            },
        }
    }
}

/// A cost that is not positive, with none before it, is the first.
proof fn lemma_first_found(costs: Seq<(NodeType, u32)>, k: int, n: int)
    requires
        0 <= k < n <= costs.len(),
        first_non_positive(costs, k) is None,
        costs[k].1 == 0,
    ensures
        first_non_positive(costs, n) == Some(costs[k]),
    decreases n - k,
{
    if n > k + 1 {
        lemma_first_found(costs, k, n - 1);
    }
}

/// The corners of the straight path along `path` from `at` to `target`,
/// without its two ends. At most `budget` corners are looked for.
pub open(crate) spec fn corners(
    path: &Path,
    nav: &NavigationData,
    at: (PathIndex, Vec3),
    target: (PathIndex, Vec3),
    budget: nat,
) -> Seq<Vec3>
    decreases budget,
{
    if at.0 == target.0 || budget == 0 {
        Seq::empty()
    } else {
        let next = path.next_straight_point(nav, at.0, at.1, target.0, target.1);
        if next.0 == target.0 {
            Seq::empty()
        } else {
            seq![next.1] + corners(path, nav, next, target, (budget - 1) as nat)
        }
    }
}

/// The straight path along `path` from `at` to `target`: the start, the
/// corners, and the end.
pub open(crate) spec fn straight_path(
    path: &Path,
    nav: &NavigationData,
    at: (PathIndex, Vec3),
    target: (PathIndex, Vec3),
) -> Seq<Vec3> {
    (seq![at.1] + corners(path, nav, at, target, path.places() as nat)).push(target.1)
}

/// The cost that the first `n` of `costs` give to `node_type`: of several the
/// last.
pub open spec fn listed_cost(costs: Seq<(NodeType, u32)>, node_type: NodeType, n: int) -> Option<
    u32,
>
    decreases n,
{
    if n <= 0 {
        None
    } else if costs[n - 1].0 == node_type {
        Some(costs[n - 1].1)
    } else {
        listed_cost(costs, node_type, n - 1)
    }
}

/// `overrides` holds the costs that `costs` lists.
pub open(crate) spec fn holds_listed(overrides: &CostOverrides, costs: Seq<(NodeType, u32)>) -> bool {
    &&& overrides.wf()
    &&& forall|t: NodeType|
        #![trigger overrides.has(t)]
        overrides.has(t) == (listed_cost(costs, t, costs.len() as int) is Some) && (overrides.has(
            t,
        ) ==> overrides.cost(t) == listed_cost(costs, t, costs.len() as int)->0)
}

/// The costs for a search: of the pairs handed over, for each node type the
/// last.
fn collect_costs(costs: &Vec<(NodeType, u32)>) -> (r: Result<CostOverrides, (NodeType, u32)>)
    ensures
        match r {
            Ok(overrides) => first_non_positive(costs@, costs.len() as int) is None
                && holds_listed(&overrides, costs@),
            Err(found) => first_non_positive(costs@, costs.len() as int) == Some(found),
        },
{
    let mut overrides = CostOverrides::new();
    let mut k: usize = 0;
    while k < costs.len()
        invariant
            k <= costs.len(),
            first_non_positive(costs@, k as int) is None,
            overrides.wf(),
            forall|t: NodeType|
                #![trigger overrides.has(t)]
                overrides.has(t) == (listed_cost(costs@, t, k as int) is Some) && (overrides.has(t)
                    ==> overrides.cost(t) == listed_cost(costs@, t, k as int)->0),
        decreases costs.len() - k,
    {
        let entry = costs[k];
        if entry.1 == 0 {
            proof {
                lemma_first_found(costs@, k as int, costs.len() as int);
            }
            return Err(entry);
        }
        let ghost before = overrides;
        overrides.set(entry.0, entry.1);
        proof {
            assert forall|t: NodeType|
                #![trigger overrides.has(t)]
                overrides.has(t) == (listed_cost(costs@, t, k as int + 1) is Some) && (
                overrides.has(t) ==> overrides.cost(t) == listed_cost(
                    costs@,
                    t,
                    k as int + 1,
                )->0) by {
                if t != entry.0 {
                    assert(overrides.has(t) == before.has(t));
                }
            }
        }
        k = k + 1;
    }
    Ok(overrides)
}

/// The straight path from `start_point` to `end_point` across the islands:
/// the two points and the corners between them. The costs of node types
/// handed over replace those of the archipelago; of several for one node
/// type the last counts.
pub fn find_path(
    archipelago: &Archipelago,
    start_point: &SampledPoint,
    end_point: &SampledPoint,
    override_node_type_costs: &Vec<(NodeType, u32)>,
) -> (r: Result<Vec<Vec3>, FindPathError>)
    requires
        archipelago.wf(),
        !archipelago.nav().is_dirty(),
    ensures
        match r {
            Ok(points) => {
                &&& first_non_positive(
                    override_node_type_costs@,
                    override_node_type_costs.len() as int,
                ) is None
                &&& archipelago.nav().has_node(start_point.node_ref)
                &&& archipelago.nav().has_node(end_point.node_ref)
                &&& polygon_total(&archipelago.nav()) <= usize::MAX
                &&& reachable(&archipelago.nav(), start_point.node_ref, end_point.node_ref)
                &&& points.len() >= 2
                &&& points[0] == start_point.point
                &&& points@.last() == end_point.point
                &&& exists|path: Path, overrides: CostOverrides|
                    {
                        &&& #[trigger] follows_cheapest(
                            &archipelago.nav(),
                            &overrides,
                            &path,
                            start_point.node_ref,
                            end_point.node_ref,
                        )
                        &&& holds_listed(&overrides, override_node_type_costs@)
                        &&& keeps(
                            &archipelago.nav(),
                            &path,
                            start_point.node_ref,
                            end_point.node_ref,
                        )
                        &&& points@ == straight_path(
                            &path,
                            &archipelago.nav(),
                            (
                                (locate(&path, start_point.node_ref, end_point.node_ref)->0).0,
                                start_point.point,
                            ),
                            (
                                (locate(&path, start_point.node_ref, end_point.node_ref)->0).1,
                                end_point.point,
                            ),
                        )
                    }
            },
            Err(FindPathError::NonPositiveNodeTypeCost(node_type, cost)) => first_non_positive(
                override_node_type_costs@,
                override_node_type_costs.len() as int,
            ) == Some((node_type, cost)),
            Err(FindPathError::NoPathFound) => {
                &&& first_non_positive(
                    override_node_type_costs@,
                    override_node_type_costs.len() as int,
                ) is None
                &&& {
                    ||| !archipelago.nav().has_node(start_point.node_ref)
                    ||| !archipelago.nav().has_node(end_point.node_ref)
                    ||| polygon_total(&archipelago.nav()) > usize::MAX
                    ||| !reachable(&archipelago.nav(), start_point.node_ref, end_point.node_ref)
                }
            },
        },
{
    let overrides = match collect_costs(override_node_type_costs) {
        Ok(overrides) => overrides,
        Err(found) => {
            return Err(FindPathError::NonPositiveNodeTypeCost(found.0, found.1));
        },
    };
    let nav = archipelago.get_nav_data();
    if !nav.is_node(start_point.node_ref) || !nav.is_node(end_point.node_ref) {
        return Err(FindPathError::NoPathFound);
    }
    let found = crate::pathfinding::find_path(
        nav,
        start_point.node_ref,
        end_point.node_ref,
        &overrides,
    );
    let path = match found.path {
        Some(path) => path,
        None => {
            return Err(FindPathError::NoPathFound);
        },
    };
    proof {
        let steps = choose|steps: Seq<int>|
            {
                &&& #[trigger] route_ok(nav, &overrides, start_point.node_ref, steps)
                &&& route_end(nav, &overrides, start_point.node_ref, steps) == end_point.node_ref
                &&& path.nodes() == route_nodes(nav, &overrides, start_point.node_ref, steps)
            };
        lemma_found_path_keeps(
            nav,
            &overrides,
            &path,
            start_point.node_ref,
            end_point.node_ref,
            steps,
        );
    }
    let places = match locate_on(&path, start_point.node_ref, end_point.node_ref) {
        Some(places) => places,
        None => (
            PathIndex { segment_index: 0, portal_index: 0 },
            PathIndex { segment_index: 0, portal_index: 0 },
        ),
    };
    let target = (places.1, end_point.point);
    let ghost start = (places.0, start_point.point);
    let mut at = (places.0, start_point.point);
    let mut points: Vec<Vec3> = Vec::new();
    points.push(start_point.point);
    let mut budget: usize = path.count_places();
    let ghost whole = corners(&path, nav, at, target, budget as nat);
    proof {
        assert(points@ + whole =~= seq![start_point.point] + whole);
    }
    while at.0 != target.0 && budget > 0
        invariant
            nav.wf(),
            path.valid_in(nav),
            points.len() >= 1,
            points[0] == start_point.point,
            points@ + corners(&path, nav, at, target, budget as nat) == seq![start_point.point]
                + whole,
        decreases budget,
    {
        let ghost before = points@;
        let ghost rest = corners(&path, nav, at, target, budget as nat);
        let next = path.find_next_point_in_straight_path(nav, at.0, at.1, target.0, target.1);
        if next.0 == target.0 {
            proof {
                assert(rest =~= Seq::<Vec3>::empty());
                assert(corners(&path, nav, next, target, (budget - 1) as nat)
                    =~= Seq::<Vec3>::empty());
            }
        } else {
            points.push(next.1);
            proof {
                let remaining = corners(&path, nav, next, target, (budget - 1) as nat);
                assert(rest =~= seq![next.1] + remaining);
                assert(points@ + remaining =~= before + rest);
            }
        }
        at = next;
        budget = budget - 1;
    }
    proof {
        assert(corners(&path, nav, at, target, budget as nat) =~= Seq::<Vec3>::empty());
        assert(points@ + Seq::<Vec3>::empty() =~= points@);
    }
    points.push(end_point.point);
    proof {
        assert(keeps(nav, &path, start_point.node_ref, end_point.node_ref));
        assert(points@ == straight_path(&path, nav, start, target));
        assert(follows_cheapest(nav, &overrides, &path, start_point.node_ref, end_point.node_ref));
    }
    Ok(points)
}

} // verus!
