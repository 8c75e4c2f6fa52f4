//! Agents: what is steered through an archipelago.

use vstd::prelude::*;
use crate::island::NodeType;
use crate::math::{dist, dist_sq, Vec3};
use crate::nav_data::NavigationData;
use crate::overrides::CostOverrides;
use crate::path::{Path, PathIndex};

verus! {

/// The id of an agent of an archipelago.
#[derive(Clone, Copy, PartialEq, Eq, PartialOrd, Ord, Structural, Debug, Hash)]
pub struct AgentId(pub u64);

/// What an agent is doing, as of the last update.
#[derive(Clone, Copy, PartialEq, Eq, Structural, Debug)]
pub enum AgentState {
    /// The agent has no target.
    Idle,
    /// The agent has reached its target.
    ReachedTarget,
    /// The agent is on its way to its target.
    Moving,
    /// There is no path from the agent to its target.
    NoPath,
    /// The agent is too far from every navigation mesh.
    AgentNotOnNavMesh,
    /// The target is too far from every navigation mesh.
    TargetNotOnNavMesh,
}

/// When an agent counts as having reached its target. Each condition holds
/// a distance; `None` stands for the radius of the agent.
#[derive(Clone, Copy, PartialEq, Eq, Structural, Debug)]
pub enum TargetReachedCondition {
    /// The target is nearer than the distance, as the crow flies.
    Distance(Option<u32>),
    /// The way to the target is straight, and the target is nearer than the
    /// distance.
    VisibleAtDistance(Option<u32>),
    /// The straight path to the target, around its corners, is shorter than
    /// the distance.
    StraightPathDistance(Option<u32>),
}

/// An agent.
pub struct Agent {
    /// Where the agent is.
    pub position: Vec3,
    /// How the agent moves.
    pub velocity: Vec3,
    /// The radius of the agent.
    pub radius: u32,
    /// The speed that the agent would like to move at.
    pub desired_speed: u32,
    /// The greatest speed of the agent.
    pub max_speed: u32,
    /// Where the agent is to go, if anywhere.
    pub current_target: Option<Vec3>,
    /// When the agent counts as having reached its target.
    pub target_reached_condition: TargetReachedCondition,
    /// The costs of node types that the agent has of its own.
    pub overrides: CostOverrides,
    /// The path that the agent follows.
    pub current_path: Option<Path>,
    /// The velocity that the agent should move with.
    pub current_desired_move: Vec3,
    /// What the agent is doing.
    pub state: AgentState,
}

/// The distance of a condition: the one it holds, or else the radius.
pub open spec fn resolve_distance(distance: Option<u32>, radius: u32) -> u32 {
    match distance {
        Some(d) => d,
        None => radius,
    }
}

/// The length of the straight path along `path` from `at` to `target`,
/// added to `so_far`; each stretch counts with its length rounded down. The
/// measuring stops where the length has reached `limit`, and after `budget`
/// corners.
pub open(crate) spec fn straight_length(
    path: &Path,
    nav: &NavigationData,
    at: (PathIndex, Vec3),
    target: (PathIndex, Vec3),
    so_far: int,
    limit: int,
    budget: nat,
) -> int
    decreases budget,
{
    if at.0 == target.0 || so_far >= limit || budget == 0 {
        so_far
    } else {
        let next = path.next_straight_point(nav, at.0, at.1, target.0, target.1);
        straight_length(
            path,
            nav,
            next,
            target,
            so_far + dist(at.1, next.1),
            limit,
            (budget - 1) as nat,
        )
    }
}

/// Whether an agent at `position` with the given radius and condition has
/// reached its target, where `next_waypoint` is the next corner of its
/// straight path and `target_waypoint` the end of it.
pub open(crate) spec fn target_reached(
    position: Vec3,
    radius: u32,
    condition: TargetReachedCondition,
    path: &Path,
    nav: &NavigationData,
    next_waypoint: (PathIndex, Vec3),
    target_waypoint: (PathIndex, Vec3),
) -> bool {
    match condition {
        TargetReachedCondition::Distance(d) => {
            let d = resolve_distance(d, radius);
            dist_sq(position, target_waypoint.1) < d * d
        },
        TargetReachedCondition::VisibleAtDistance(d) => {
            let d = resolve_distance(d, radius);
            next_waypoint.0 == target_waypoint.0 && dist_sq(position, next_waypoint.1) < d * d
        },
        TargetReachedCondition::StraightPathDistance(d) => {
            let d = resolve_distance(d, radius);
            dist_sq(position, target_waypoint.1) <= d * d && straight_length(
                path,
                nav,
                next_waypoint,
                target_waypoint,
                dist(position, next_waypoint.1),
                d as int,
                path.places() as nat,
            ) < d
        },
    }
}

/// Whether an agent at `position` with the given radius and condition has
/// reached its target.
pub fn has_reached(
    position: Vec3,
    radius: u32,
    condition: TargetReachedCondition,
    path: &Path,
    nav_data: &NavigationData,
    next_waypoint: (PathIndex, Vec3),
    target_waypoint: (PathIndex, Vec3),
) -> (r: bool)
    requires
        nav_data.wf(),
        path.valid_in(nav_data),
    ensures
        r == target_reached(
            position,
            radius,
            condition,
            path,
            nav_data,
            next_waypoint,
            target_waypoint,
        ),
{
    match condition {
        TargetReachedCondition::Distance(d) => {
            let d: u32 = match d {
                Some(d) => d,
                None => radius,
            };
            assert(0 <= d * d <= 0xffff_ffff * 0xffff_ffff) by (nonlinear_arith)
                requires
                    0 <= d <= 0xffff_ffff,
            ;
            position.distance_squared(target_waypoint.1) < (d as u128) * (d as u128)
        },
        TargetReachedCondition::VisibleAtDistance(d) => {
            let d: u32 = match d {
                Some(d) => d,
                None => radius,
            };
            assert(0 <= d * d <= 0xffff_ffff * 0xffff_ffff) by (nonlinear_arith)
                requires
                    0 <= d <= 0xffff_ffff,
            ;
            next_waypoint.0 == target_waypoint.0 && position.distance_squared(next_waypoint.1) < (
            d as u128) * (d as u128)
        },
        TargetReachedCondition::StraightPathDistance(d) => {
            let d: u32 = match d {
                Some(d) => d,
                None => radius,
            };
            assert(0 <= d * d <= 0xffff_ffff * 0xffff_ffff) by (nonlinear_arith)
                requires
                    0 <= d <= 0xffff_ffff,
            ;
            if position.distance_squared(target_waypoint.1) > (d as u128) * (d as u128) {
                return false;
            }
            let limit: u64 = d as u64;
            let mut length: u64 = position.distance(next_waypoint.1);
            let mut at = next_waypoint;
            let mut budget: usize = path.count_places();
            while at.0 != target_waypoint.0 && length < limit && budget > 0
                invariant
                    nav_data.wf(),
                    path.valid_in(nav_data),
                    limit == d,
                    length <= 0x3_0000_0000,
                    straight_length(
                        path,
                        nav_data,
                        at,
                        target_waypoint,
                        length as int,
                        limit as int,
                        budget as nat,
                    ) == straight_length(
                        path,
                        nav_data,
                        next_waypoint,
                        target_waypoint,
                        dist(position, next_waypoint.1),
                        d as int,
                        path.places() as nat,
                    ),
                decreases budget,
            {
                let next = path.find_next_point_in_straight_path(
                    nav_data,
                    at.0,
                    at.1,
                    target_waypoint.0,
                    target_waypoint.1,
                );
                length = length + at.1.distance(next.1);
                at = next;
                budget = budget - 1;
            }
            length < limit
        },
    }
}

impl Agent {
    /// An agent without a target.
    pub fn create(position: Vec3, velocity: Vec3, radius: u32, desired_speed: u32, max_speed: u32) -> (r:
        Agent)
        ensures
            r.position == position,
            r.velocity == velocity,
            r.radius == radius,
            r.desired_speed == desired_speed,
            r.max_speed == max_speed,
            r.current_target is None,
            r.target_reached_condition == TargetReachedCondition::Distance(None),
            r.desired_velocity() == (Vec3 { x: 0, y: 0, z: 0 }),
            r.agent_state() == AgentState::Idle,
            r.has_path() == false,
            forall|t: NodeType| !r.has_override(t),
    {
        Agent {
            position,
            velocity,
            radius,
            desired_speed,
            max_speed,
            current_target: None,
            target_reached_condition: TargetReachedCondition::Distance(None),
            overrides: CostOverrides::new(),
            current_path: None,
            current_desired_move: Vec3::zero(),
            state: AgentState::Idle,
        }
    }

    /// The velocity that the agent should move with.
    pub open(crate) spec fn desired_velocity(&self) -> Vec3 {
        self.current_desired_move
    }

    /// What the agent is doing.
    pub open(crate) spec fn agent_state(&self) -> AgentState {
        self.state
    }

    /// Whether the agent follows a path.
    pub open(crate) spec fn has_path(&self) -> bool {
        self.current_path is Some
    }

    /// Whether the agent has a cost of its own for `node_type`.
    pub open(crate) spec fn has_override(&self, node_type: NodeType) -> bool {
        self.overrides.has(node_type)
    }

    /// The cost that the agent has of its own for `node_type`.
    pub open(crate) spec fn override_cost(&self, node_type: NodeType) -> u32 {
        self.overrides.cost(node_type)
    }

    /// The velocity that the agent should move with, as of the last update.
    pub fn get_desired_velocity(&self) -> (r: Vec3)
        ensures
            r == self.desired_velocity(),
    {
        self.current_desired_move
    }

    /// What the agent is doing, as of the last update.
    pub fn state(&self) -> (r: AgentState)
        ensures
            r == self.agent_state(),
    {
        self.state
    }

    /// Gives the agent a cost of its own for `node_type`, unless `cost` is
    /// not positive. Returns whether the cost was set.
    pub fn override_node_type_cost(&mut self, node_type: NodeType, cost: u32) -> (r: bool)
        ensures
            r == (cost > 0),
            r ==> final(self).has_override(node_type) && final(self).override_cost(node_type)
                == cost,
            !r ==> final(self).overrides == old(self).overrides,
            forall|other: NodeType|
                other != node_type ==> final(self).has_override(other) == old(self).has_override(
                    other,
                ) && (old(self).has_override(other) ==> final(self).override_cost(other) == old(self).override_cost(other)),
            final(self).position == old(self).position,
            final(self).current_target == old(self).current_target,
    {
        self.overrides.set(node_type, cost)
    }

    /// Takes the cost that the agent has of its own for `node_type` away.
    /// Returns whether it had one.
    pub fn remove_overridden_node_type_cost(&mut self, node_type: NodeType) -> (r: bool)
        ensures
            r == old(self).has_override(node_type),
            !final(self).has_override(node_type),
            forall|other: NodeType|
                other != node_type ==> final(self).has_override(other) == old(self).has_override(
                    other,
                ) && (old(self).has_override(other) ==> final(self).override_cost(other) == old(self).override_cost(other)),
    {
        self.overrides.remove(node_type)
    }

    /// The node types that the agent has a cost of its own for, each with
    /// its cost.
    pub fn get_node_type_cost_overrides(&self) -> (r: &Vec<(NodeType, u32)>)
        ensures
            r@ == self.overrides@,
    {
        self.overrides.get_all()
    }

    /// Whether the agent has reached its target, where `next_waypoint` is
    /// the next corner of its straight path along `path` and
    /// `target_waypoint` the end of it.
    pub fn has_reached_target(
        &self,
        path: &Path,
        nav_data: &NavigationData,
        next_waypoint: (PathIndex, Vec3),
        target_waypoint: (PathIndex, Vec3),
    ) -> (r: bool)
        requires
            nav_data.wf(),
            path.valid_in(nav_data),
        ensures
            r == target_reached(
                self.position,
                self.radius,
                self.target_reached_condition,
                path,
                nav_data,
                next_waypoint,
                target_waypoint,
            ),
    {
        has_reached(
            self.position,
            self.radius,
            self.target_reached_condition,
            path,
            nav_data,
            next_waypoint,
            target_waypoint,
        )
    }
}

} // verus!
