//! What an update does with one agent: where it is on its path, where it
//! turns next, whether it has arrived, and how it should move.

use vstd::prelude::*;
use crate::agent::{has_reached, target_reached, Agent, AgentState};
use crate::avoidance::{AgentOptions, AgentView, Avoidance};
use crate::character::Character;
use crate::math::{dist, div_round, div_rounded, mul_scaled, sat32, saturate, Vec3};
use crate::nav_data::{NavigationData, NodeRef};
use crate::overrides::CostOverrides;
use crate::path::{
    is_rest_of, lemma_rest_valid, nodes_of, segment_node, segment_nodes, segment_ok,
    IslandSegment, Path, PathIndex,
};
use crate::pathfinding::{
    find_path, follows_cheapest, polygon_total, reachable, route_end, route_nodes, route_ok,
};

verus! {

/// The velocity that takes an agent from `position` towards `waypoint` at
/// `speed`: the direction to the waypoint, at the length of the speed, each
/// component rounded. No velocity where the waypoint is nearer than one unit.
pub open spec fn preferred_velocity(position: Vec3, waypoint: Vec3, speed: u32) -> Vec3 {
    let length = dist(position, waypoint);
    if length == 0 {
        Vec3 { x: 0, y: 0, z: 0 }
    } else {
        Vec3 {
            x: sat32(div_round((waypoint.x - position.x) * speed, length)) as i32,
            y: sat32(div_round((waypoint.y - position.y) * speed, length)) as i32,
            z: sat32(div_round((waypoint.z - position.z) * speed, length)) as i32,
        }
    }
}

/// The velocity that takes an agent from `position` towards `waypoint` at
/// `speed`.
pub fn prefer(position: Vec3, waypoint: Vec3, speed: u32) -> (r: Vec3)
    ensures
        r == preferred_velocity(position, waypoint, speed),
{
    let length: u64 = position.distance(waypoint);
    if length == 0 {
        return Vec3::zero();
    }
    let dx: i64 = waypoint.x as i64 - position.x as i64;
    let dy: i64 = waypoint.y as i64 - position.y as i64;
    let dz: i64 = waypoint.z as i64 - position.z as i64;
    Vec3 {
        x: saturate(div_rounded(mul_scaled(dx as i128, speed as i64), length as i128)),
        y: saturate(div_rounded(mul_scaled(dy as i128, speed as i64), length as i128)),
        z: saturate(div_rounded(mul_scaled(dz as i128, speed as i64), length as i128)),
    }
}

/// What avoidance sees of `agent`.
pub open spec fn view_of(agent: Agent) -> AgentView {
    AgentView {
        position: agent.position,
        velocity: agent.velocity,
        radius: agent.radius,
        max_speed: agent.max_speed,
    }
}

/// The first place of `path`.
pub open spec fn first_place() -> PathIndex {
    PathIndex { segment_index: 0, portal_index: 0 }
}

/// The last place of `path`, which must have an island segment with a
/// polygon at its end.
pub open spec fn last_place(path: &Path) -> PathIndex {
    PathIndex {
        segment_index: (path.island_segments.len() - 1) as usize,
        portal_index: (path.island_segments[path.island_segments.len() - 1].corridor.len() - 1) as usize,
    }
}

/// Where an agent in `start_node` with its target in `end_node` is on
/// `path`, and where the path ends: the first place with the start node,
/// and the last place, if its node is the end node.
pub open spec fn locate(path: &Path, start_node: NodeRef, end_node: NodeRef) -> Option<
    (PathIndex, PathIndex),
> {
    if path.island_segments.len() >= 1 && path.island_segments[path.island_segments.len()
        - 1].corridor.len() >= 1 {
        let last = last_place(path);
        match path.index_of_node(start_node, first_place()) {
            Some(at) => {
                if path.node_at(last.segment_index as int, last.portal_index as int) == end_node {
                    Some((at, last))
                } else {
                    None
                }
            },
            None => None,
        }
    } else {
        None
    }
}

/// Where an agent in `start_node` with its target in `end_node` is on
/// `path`, and where the path ends.
pub fn locate_on(path: &Path, start_node: NodeRef, end_node: NodeRef) -> (r: Option<
    (PathIndex, PathIndex),
>)
    ensures
        r == locate(path, start_node, end_node),
{
    let count: usize = path.island_segments.len();
    if count < 1 {
        return None;
    }
    let segment = &path.island_segments[count - 1];
    let length: usize = segment.corridor.len();
    if length < 1 {
        return None;
    }
    let last = PathIndex { segment_index: count - 1, portal_index: length - 1 };
    match path.find_index_of_node(start_node, PathIndex { segment_index: 0, portal_index: 0 }) {
        Some(at) => {
            if segment.island_id == end_node.island_id && segment.corridor[length - 1]
                == end_node.polygon_index {
                Some((at, last))
            } else {
                None
            }
        },
        None => None,
    }
}

/// Whether an agent in `start_node` with its target in `end_node` goes on
/// with `path`: the path is a way through the archipelago as it is, the
/// agent is on it, and it ends where the target is.
pub open(crate) spec fn keeps(
    nav: &NavigationData,
    path: &Path,
    start_node: NodeRef,
    end_node: NodeRef,
) -> bool {
    path.valid_in(nav) && locate(path, start_node, end_node) is Some
}

/// What an agent on `path` does and how it should move: having reached its
/// target it rests; else it moves as avoidance has it, given the velocity
/// that takes it towards the next corner of its straight path at the speed
/// it would like.
pub open(crate) spec fn steer<A: Avoidance>(
    avoidance: &A,
    nav: &NavigationData,
    agent: Agent,
    path: &Path,
    places: (PathIndex, PathIndex),
    start_point: Vec3,
    target_point: Vec3,
    neighbors: Seq<AgentView>,
    characters: Seq<Character>,
    options: AgentOptions,
) -> (AgentState, Vec3) {
    let next = path.next_straight_point(nav, places.0, start_point, places.1, target_point);
    if target_reached(
        agent.position,
        agent.radius,
        agent.target_reached_condition,
        path,
        nav,
        next,
        (places.1, target_point),
    ) {
        (AgentState::ReachedTarget, Vec3 { x: 0, y: 0, z: 0 })
    } else {
        (
            AgentState::Moving,
            avoidance.avoid(
                view_of(agent),
                neighbors,
                characters,
                preferred_velocity(agent.position, next.1, agent.desired_speed),
                options,
            ),
        )
    }
}

/// The agent rests in `state`, without a path.
pub open spec fn rests(after: Agent, state: AgentState) -> bool {
    &&& after.state == state
    &&& after.current_desired_move == (Vec3 { x: 0, y: 0, z: 0 })
    &&& after.current_path is None
}

/// What an update makes of an agent. What the agent was given stays. An
/// agent without target is idle. An agent or a target too far from the
/// islands is reported so. Else the agent goes on with its path if that is
/// still a way through the archipelago, the agent is on it and it ends
/// where the target is: with what is left of it from the first place whose
/// node the agent is in. Else it gets a new path, or is reported to have
/// none where there is none. On its path it is steered.
pub open(crate) spec fn agent_ticked<A: Avoidance>(
    avoidance: &A,
    nav: &NavigationData,
    before: Agent,
    after: Agent,
    neighbors: Seq<AgentView>,
    characters: Seq<Character>,
    options: AgentOptions,
) -> bool {
    &&& after.position == before.position
    &&& after.velocity == before.velocity
    &&& after.radius == before.radius
    &&& after.desired_speed == before.desired_speed
    &&& after.max_speed == before.max_speed
    &&& after.current_target == before.current_target
    &&& after.target_reached_condition == before.target_reached_condition
    &&& after.overrides == before.overrides
    &&& match before.current_target {
        None => rests(after, AgentState::Idle),
        Some(target) => match nav.sample(before.position, options.node_sample_distance) {
            None => rests(after, AgentState::AgentNotOnNavMesh),
            Some((start_point, start_node)) => match nav.sample(
                target,
                options.node_sample_distance,
            ) {
                None => rests(after, AgentState::TargetNotOnNavMesh),
                Some((target_point, end_node)) => {
                    if before.current_path is Some && keeps(
                        nav,
                        &before.current_path->0,
                        start_node,
                        end_node,
                    ) {
                        let places = locate(&before.current_path->0, start_node, end_node)->0;
                        if places.0 == first_place() {
                            &&& after.current_path == before.current_path
                            &&& (after.state, after.current_desired_move) == steer(
                                avoidance,
                                nav,
                                before,
                                &before.current_path->0,
                                places,
                                start_point,
                                target_point,
                                neighbors,
                                characters,
                                options,
                            )
                        } else {
                            &&& after.current_path is Some
                            &&& is_rest_of(&after.current_path->0, &before.current_path->0, places.0)
                            &&& keeps(nav, &after.current_path->0, start_node, end_node)
                            &&& (locate(&after.current_path->0, start_node, end_node)->0).0
                                == first_place()
                            &&& (after.state, after.current_desired_move) == steer(
                                avoidance,
                                nav,
                                before,
                                &after.current_path->0,
                                locate(&after.current_path->0, start_node, end_node)->0,
                                start_point,
                                target_point,
                                neighbors,
                                characters,
                                options,
                            )
                        }
                    } else {
                        match after.current_path {
                            None => {
                                &&& rests(after, AgentState::NoPath)
                                &&& polygon_total(nav) > usize::MAX || !reachable(
                                    nav,
                                    start_node,
                                    end_node,
                                )
                            },
                            Some(path) => {
                                &&& polygon_total(nav) <= usize::MAX
                                &&& reachable(nav, start_node, end_node)
                                &&& follows_cheapest(
                                    nav,
                                    &before.overrides,
                                    &path,
                                    start_node,
                                    end_node,
                                )
                                &&& keeps(nav, &path, start_node, end_node)
                                &&& (locate(&path, start_node, end_node)->0).0 == first_place()
                                &&& (after.state, after.current_desired_move) == steer(
                                    avoidance,
                                    nav,
                                    before,
                                    &path,
                                    locate(&path, start_node, end_node)->0,
                                    start_point,
                                    target_point,
                                    neighbors,
                                    characters,
                                    options,
                                )
                            },
                        }
                    }
                },
            },
        },
    }
}

/// An agent that an update has dealt with is left as it is by the next
/// update, as long as nothing else changes: it does the same, and should
/// move the same.
pub(crate) proof fn lemma_agent_settles<A: Avoidance>(
    avoidance: &A,
    nav: &NavigationData,
    first: Agent,
    second: Agent,
    third: Agent,
    neighbors: Seq<AgentView>,
    characters: Seq<Character>,
    options: AgentOptions,
)
    requires
        agent_ticked(avoidance, nav, first, second, neighbors, characters, options),
        agent_ticked(avoidance, nav, second, third, neighbors, characters, options),
    ensures
        third.state == second.state,
        third.current_desired_move == second.current_desired_move,
        third.current_path is Some == second.current_path is Some,
{
}

/// The nodes of island segments that all have polygons begin with the first
/// node of the first segment and end with the last node of the last.
proof fn lemma_nodes_ends(segments: Seq<IslandSegment>)
    requires
        segments.len() >= 1,
        forall|s: int| 0 <= s < segments.len() ==> (#[trigger] segments[s]).corridor.len() >= 1,
    ensures
        nodes_of(segments).len() >= 1,
        nodes_of(segments)[0] == segment_node(segments[0], 0),
        nodes_of(segments).last() == segment_node(
            segments.last(),
            segments.last().corridor.len() - 1,
        ),
    decreases segments.len(),
{
    let before = segments.drop_last();
    let tail = segment_nodes(segments.last());
    assert(segments.last() == segments[segments.len() - 1]);
    assert(tail.len() >= 1);
    if segments.len() == 1 {
        assert(nodes_of(before) =~= Seq::<NodeRef>::empty());
        assert(segments.last() == segments[0]);
    } else {
        assert forall|s: int| 0 <= s < before.len() implies (#[trigger] before[s]).corridor.len()
            >= 1 by {
            assert(before[s] == segments[s]);
        }
        lemma_nodes_ends(before);
        assert(before[0] == segments[0]);
    }
}

/// The nodes of a route begin with the node it starts from and end with the
/// node it ends at.
proof fn lemma_route_ends(
    nav: &NavigationData,
    overrides: &CostOverrides,
    from: NodeRef,
    steps: Seq<int>,
)
    ensures
        route_nodes(nav, overrides, from, steps).len() == steps.len() + 1,
        route_nodes(nav, overrides, from, steps)[0] == from,
        route_nodes(nav, overrides, from, steps).last() == route_end(nav, overrides, from, steps),
    decreases steps.len(),
{
    if steps.len() > 0 {
        lemma_route_ends(nav, overrides, from, steps.drop_last());
    }
}

/// A path along a route from `start_node` to `end_node` is one that an
/// agent in `start_node` with its target in `end_node` goes on with.
pub(crate) proof fn lemma_found_path_keeps(
    nav: &NavigationData,
    overrides: &CostOverrides,
    path: &Path,
    start_node: NodeRef,
    end_node: NodeRef,
    steps: Seq<int>,
)
    requires
        path.valid_in(nav),
        path.nodes() == route_nodes(nav, overrides, start_node, steps),
        route_end(nav, overrides, start_node, steps) == end_node,
    ensures
        keeps(nav, path, start_node, end_node),
        (locate(path, start_node, end_node)->0).0 == first_place(),
{
    let segments = path.island_segments@;
    assert forall|s: int| 0 <= s < segments.len() implies (#[trigger] segments[s]).corridor.len()
        >= 1 by {
        assert(path.segment_valid(nav, s));
    }
    lemma_nodes_ends(segments);
    lemma_route_ends(nav, overrides, start_node, steps);
    assert(path.node_at(0, 0) == start_node);
    assert(path.has_index(first_place()));
    assert(path.index_of_node(start_node, first_place()) == Some(first_place()));
}

/// Lets the agent rest in `state`, without a path.
fn rest(agent: &mut Agent, state: AgentState)
    ensures
        rests(*final(agent), state),
        final(agent).position == old(agent).position,
        final(agent).velocity == old(agent).velocity,
        final(agent).radius == old(agent).radius,
        final(agent).desired_speed == old(agent).desired_speed,
        final(agent).max_speed == old(agent).max_speed,
        final(agent).current_target == old(agent).current_target,
        final(agent).target_reached_condition == old(agent).target_reached_condition,
        final(agent).overrides == old(agent).overrides,
{
    agent.state = state;
    agent.current_desired_move = Vec3::zero();
    agent.current_path = None;
}

/// Deals with one agent in an update: finds where the agent and its target
/// are on the islands, goes on with the agent's path or finds a new one,
/// and steers the agent along it.
pub fn tick_agent<A: Avoidance>(
    agent: &mut Agent,
    nav_data: &NavigationData,
    neighbors: &Vec<AgentView>,
    characters: &Vec<Character>,
    options: &AgentOptions,
    avoidance: &A,
)
    requires
        nav_data.wf(),
        !nav_data.is_dirty(),
    ensures
        agent_ticked(
            avoidance,
            nav_data,
            *old(agent),
            *final(agent),
            neighbors@,
            characters@,
            *options,
        ),
{
    let target = match agent.current_target {
        Some(target) => target,
        None => {
            rest(agent, AgentState::Idle);
            return ;
        },
    };
    let (start_point, start_node) = match nav_data.sample_point(
        agent.position,
        options.node_sample_distance,
    ) {
        Some(found) => found,
        None => {
            rest(agent, AgentState::AgentNotOnNavMesh);
            return ;
        },
    };
    let (target_point, end_node) = match nav_data.sample_point(
        target,
        options.node_sample_distance,
    ) {
        Some(found) => found,
        None => {
            rest(agent, AgentState::TargetNotOnNavMesh);
            return ;
        },
    };
    let kept: Option<(PathIndex, PathIndex)> = match &agent.current_path {
        Some(path) => {
            if path.is_valid(nav_data) {
                locate_on(path, start_node, end_node)
            } else {
                None
            }
        },
        None => None,
    };
    assert(kept is Some ==> agent.current_path is Some && agent.current_path->0.valid_in(nav_data)
        && locate(&agent.current_path->0, start_node, end_node) == kept);
    let places = match kept {
        Some(places) => {
            if places.0.segment_index == 0 && places.0.portal_index == 0 {
                places
            } else {
                let rest = match &agent.current_path {
                    Some(path) => {
                        proof {
                            path.lemma_index_of_node(start_node, first_place());
                        }
                        assert(path.has_index(places.0));
                        assert(path.segment_valid(nav_data, places.0.segment_index as int));
                        let rest = path.rest_from(places.0);
                        proof {
                            lemma_rest_valid(&rest, path, places.0, nav_data);
                            assert(rest.segment_valid(nav_data, 0));
                            assert(rest.segment_valid(nav_data, rest.island_segments.len() - 1));
                            assert(rest.has_index(first_place()));
                            assert(path.node_at(
                                places.0.segment_index as int,
                                places.0.portal_index as int,
                            ) == start_node);
                            assert(rest.index_of_node(start_node, first_place()) == Some(
                                first_place(),
                            ));
                        }
                        rest
                    },
                    None => Path { island_segments: Vec::new(), boundary_link_segments: Vec::new() },
                };
                let places = match locate_on(&rest, start_node, end_node) {
                    Some(places) => places,
                    None => places,
                };
                agent.current_path = Some(rest);
                places
            }
        },
        None => {
            proof {
                use_type_invariant(&agent.overrides);
            }
            let found = find_path(nav_data, start_node, end_node, &agent.overrides);
            match found.path {
                Some(path) => {
                    proof {
                        let steps = choose|steps: Seq<int>|
                            {
                                &&& #[trigger] route_ok(
                                    nav_data,
                                    &agent.overrides,
                                    start_node,
                                    steps,
                                )
                                &&& route_end(nav_data, &agent.overrides, start_node, steps)
                                    == end_node
                                &&& path.nodes() == route_nodes(
                                    nav_data,
                                    &agent.overrides,
                                    start_node,
                                    steps,
                                )
                            };
                        lemma_found_path_keeps(
                            nav_data,
                            &agent.overrides,
                            &path,
                            start_node,
                            end_node,
                            steps,
                        );
                    }
                    let places = match locate_on(&path, start_node, end_node) {
                        Some(places) => places,
                        None => (
                            PathIndex { segment_index: 0, portal_index: 0 },
                            PathIndex { segment_index: 0, portal_index: 0 },
                        ),
                    };
                    agent.current_path = Some(path);
                    places
                },
                None => {
                    rest(agent, AgentState::NoPath);
                    return ;
                },
            }
        },
    };
    let view = AgentView {
        position: agent.position,
        velocity: agent.velocity,
        radius: agent.radius,
        max_speed: agent.max_speed,
    };
    let outcome: (AgentState, Vec3) = match &agent.current_path {
        Some(path) => {
            let next = path.find_next_point_in_straight_path(
                nav_data,
                places.0,
                start_point,
                places.1,
                target_point,
            );
            if has_reached(
                agent.position,
                agent.radius,
                agent.target_reached_condition,
                path,
                nav_data,
                next,
                (places.1, target_point),
            ) {
                (AgentState::ReachedTarget, Vec3::zero())
            } else {
                let preferred = prefer(agent.position, next.1, agent.desired_speed);
                (
                    AgentState::Moving,
                    avoidance.desired_velocity(&view, neighbors, characters, preferred, options),
                )
            }
        },
        None => (AgentState::NoPath, Vec3::zero()),
    };
    agent.state = outcome.0;
    agent.current_desired_move = outcome.1;
}

} // verus!
