use std::collections::HashMap;
use std::sync::Arc;

use landmass::pathfinding::find_path;
use landmass::{
    Agent, AgentState, Archipelago, Character, CostOverrides, IslandId, NavigationMesh,
    NewNodeTypeError, NoAvoidance, NodeRef, Rotation, SetNodeTypeCostError,
    TargetReachedCondition, Transform, ValidNavigationMesh, Vec3,
};

fn v(x: f64, y: f64, z: f64) -> Vec3 {
    Vec3::new((x * 1000.0).round() as i32, (y * 1000.0).round() as i32, (z * 1000.0).round() as i32)
}

/// A square of the given side on the ground.
fn square(side: f64) -> Arc<ValidNavigationMesh> {
    Arc::new(
        NavigationMesh {
            mesh_bounds: None,
            vertices: vec![
                v(0.0, 0.0, 0.0),
                v(side, 0.0, 0.0),
                v(side, 0.0, side),
                v(0.0, 0.0, side),
            ],
            polygons: vec![vec![0, 1, 2, 3]],
            polygon_type_indices: vec![],
        }
        .validate()
        .expect("a square is valid"),
    )
}

fn moved(x: f64, y: f64, z: f64) -> Transform {
    Transform { translation: v(x, y, z), rotation: Rotation::identity() }
}

fn put(archipelago: &mut Archipelago, transform: Transform, mesh: Arc<ValidNavigationMesh>) -> IslandId {
    let id = archipelago.add_island();
    archipelago.get_island_mut(id).expect("the island was added").set_nav_mesh(
        transform,
        mesh,
        HashMap::new(),
    );
    id
}

fn agent_at(position: Vec3, target: Vec3) -> Agent {
    let mut agent = Agent::create(position, Vec3::zero(), 500, 1000, 1000);
    agent.current_target = Some(target);
    agent
}

#[test]
fn agent_on_a_single_polygon_moves_straight_to_its_target() {
    let mut archipelago = Archipelago::new();
    put(&mut archipelago, Transform::identity(), square(4.0));
    let id = archipelago.add_agent(agent_at(v(1.0, 0.0, 1.0), v(3.0, 0.0, 3.0)));

    archipelago.update(1000, &NoAvoidance);
    archipelago.update(1000, &NoAvoidance);

    let agent = archipelago.get_agent(id).expect("the agent is there");
    assert_eq!(agent.state(), AgentState::Moving);
    // The direction (2, 0, 2) at the speed 1.
    assert_eq!(agent.get_desired_velocity(), Vec3::new(707, 0, 707));
}

fn two_islands() -> (Archipelago, IslandId, IslandId) {
    let mut archipelago = Archipelago::new();
    let a = put(&mut archipelago, Transform::identity(), square(1.0));
    let b = put(&mut archipelago, moved(1.0, 0.0, 0.0), square(1.0));
    (archipelago, a, b)
}

#[test]
fn islands_that_touch_are_linked_and_crossed() {
    let (mut archipelago, a, b) = two_islands();
    let id = archipelago.add_agent(agent_at(v(0.5, 0.0, 0.5), v(1.5, 0.0, 0.5)));
    assert!(archipelago.get_nav_data().dirty());

    archipelago.update(1000, &NoAvoidance);

    let nav = archipelago.get_nav_data();
    assert!(!nav.dirty());
    let links = nav.get_boundary_links();
    assert_eq!(links.len(), 2);
    let (first_id, first) = links[0];
    let (second_id, second) = links[1];
    assert_eq!(first.source_node, NodeRef { island_id: a, polygon_index: 0 });
    assert_eq!(first.destination_node, NodeRef { island_id: b, polygon_index: 0 });
    assert_eq!(first.portal, (v(1.0, 0.0, 0.0), v(1.0, 0.0, 1.0)));
    assert_eq!(first.cost, 1000);
    assert_eq!(first.reverse_link, second_id);
    // The link back: from the destination to the source, at the same cost.
    assert_eq!(second.source_node, first.destination_node);
    assert_eq!(second.destination_node, first.source_node);
    assert_eq!(second.portal, (first.portal.1, first.portal.0));
    assert_eq!(second.cost, first.cost);
    assert_eq!(second.reverse_link, first_id);
    assert!(nav.are_nodes_connected(first.source_node, first.destination_node));

    let agent = archipelago.get_agent(id).expect("the agent is there");
    assert_eq!(agent.state(), AgentState::Moving);
    assert_eq!(agent.get_desired_velocity(), Vec3::new(1000, 0, 0));

    // Once the agent is nearer to the target than its radius, it has arrived.
    archipelago.get_agent_mut(id).unwrap().position = v(1.2, 0.0, 0.5);
    archipelago.update(1000, &NoAvoidance);
    let agent = archipelago.get_agent(id).unwrap();
    assert_eq!(agent.state(), AgentState::ReachedTarget);
    assert_eq!(agent.get_desired_velocity(), Vec3::zero());
}

#[test]
fn path_is_dropped_when_an_island_is_removed() {
    let (mut archipelago, _a, b) = two_islands();
    let id = archipelago.add_agent(agent_at(v(0.5, 0.0, 0.5), v(1.5, 0.0, 0.5)));
    archipelago.update(1000, &NoAvoidance);
    assert_eq!(archipelago.get_agent(id).unwrap().state(), AgentState::Moving);
    assert!(archipelago.get_agent(id).unwrap().current_path.is_some());

    assert!(archipelago.remove_island(b));
    assert!(!archipelago.remove_island(b));
    archipelago.update(1000, &NoAvoidance);

    let agent = archipelago.get_agent(id).unwrap();
    assert_eq!(agent.state(), AgentState::TargetNotOnNavMesh);
    assert_eq!(agent.get_desired_velocity(), Vec3::zero());
    assert!(agent.current_path.is_none());
    assert!(archipelago.get_nav_data().get_boundary_links().is_empty());
}

#[test]
fn islands_apart_have_no_path_between_them() {
    let mut archipelago = Archipelago::new();
    put(&mut archipelago, Transform::identity(), square(1.0));
    put(&mut archipelago, moved(5.0, 0.0, 0.0), square(1.0));
    let id = archipelago.add_agent(agent_at(v(0.5, 0.0, 0.5), v(5.5, 0.0, 0.5)));
    archipelago.update(1000, &NoAvoidance);
    assert!(archipelago.get_nav_data().get_boundary_links().is_empty());
    let agent = archipelago.get_agent(id).unwrap();
    assert_eq!(agent.state(), AgentState::NoPath);
    assert_eq!(agent.get_desired_velocity(), Vec3::zero());
}

#[test]
fn islands_at_different_heights_are_not_linked() {
    let mut archipelago = Archipelago::new();
    put(&mut archipelago, Transform::identity(), square(1.0));
    put(&mut archipelago, moved(1.0, 0.5, 0.0), square(1.0));
    archipelago.update(1000, &NoAvoidance);
    assert!(archipelago.get_nav_data().get_boundary_links().is_empty());
}

#[test]
fn islands_that_overlap_partly_share_the_stretch_that_both_have() {
    let mut archipelago = Archipelago::new();
    put(&mut archipelago, Transform::identity(), square(1.0));
    put(&mut archipelago, moved(1.0, 0.0, 0.25), square(1.0));
    archipelago.update(1000, &NoAvoidance);
    let links = archipelago.get_nav_data().get_boundary_links();
    assert_eq!(links.len(), 2);
    assert_eq!(links[0].1.portal, (v(1.0, 0.0, 0.25), v(1.0, 0.0, 1.0)));
    // From (0.5, 0, 0.5) to the middle of the portal at (1, 0, 0.625), and on
    // to (1.5, 0, 0.75), each stretch rounded up.
    assert_eq!(links[0].1.cost, 516 + 516);
}

#[test]
fn links_of_unchanged_islands_keep_their_ids() {
    let (mut archipelago, _a, _b) = two_islands();
    archipelago.update(1000, &NoAvoidance);
    let before = archipelago.get_nav_data().get_boundary_links();
    // A third island, touching neither.
    let c = put(&mut archipelago, moved(10.0, 0.0, 0.0), square(1.0));
    archipelago.update(1000, &NoAvoidance);
    assert_eq!(archipelago.get_nav_data().get_boundary_links(), before);
    // Changing the third island leaves them too.
    archipelago.get_island_mut(c).unwrap().clear_nav_mesh();
    archipelago.update(1000, &NoAvoidance);
    assert_eq!(archipelago.get_nav_data().get_boundary_links(), before);
}

#[test]
fn rotated_island_is_linked_where_it_lands() {
    let mut archipelago = Archipelago::new();
    put(&mut archipelago, Transform::identity(), square(1.0));
    // A quarter turn takes the square to x in 0..1, z in -1..0; moved to the
    // right by one and down by one it lies beside the first.
    put(
        &mut archipelago,
        Transform { translation: v(1.0, 0.0, 1.0), rotation: Rotation::quarter_turns(1) },
        square(1.0),
    );
    archipelago.update(1000, &NoAvoidance);
    let links = archipelago.get_nav_data().get_boundary_links();
    assert_eq!(links.len(), 2);
    assert_eq!(links[0].1.portal, (v(1.0, 0.0, 0.0), v(1.0, 0.0, 1.0)));
}

#[test]
fn update_of_no_duration_does_nothing() {
    let (mut archipelago, _a, _b) = two_islands();
    let id = archipelago.add_agent(agent_at(v(0.5, 0.0, 0.5), v(1.5, 0.0, 0.5)));
    archipelago.update(0, &NoAvoidance);
    assert!(archipelago.get_nav_data().dirty());
    assert_eq!(archipelago.get_agent(id).unwrap().state(), AgentState::Idle);
}

#[test]
fn a_second_update_changes_nothing() {
    let (mut archipelago, _a, _b) = two_islands();
    let ids = [
        archipelago.add_agent(agent_at(v(0.5, 0.0, 0.5), v(1.5, 0.0, 0.5))),
        archipelago.add_agent(agent_at(v(0.5, 0.0, 0.5), v(7.5, 0.0, 0.5))),
        archipelago.add_agent(agent_at(v(0.5, 3.0, 0.5), v(1.5, 0.0, 0.5))),
        archipelago.add_agent(agent_at(v(1.9, 0.0, 0.9), v(1.5, 0.0, 0.5))),
        archipelago.add_agent(Agent::create(v(0.5, 0.0, 0.5), Vec3::zero(), 500, 1000, 1000)),
    ];
    archipelago.update(1000, &NoAvoidance);
    let first: Vec<_> = ids
        .iter()
        .map(|&id| {
            let agent = archipelago.get_agent(id).unwrap();
            (agent.state(), agent.get_desired_velocity())
        })
        .collect();
    assert_eq!(
        first.iter().map(|outcome| outcome.0).collect::<Vec<_>>(),
        vec![
            AgentState::Moving,
            AgentState::TargetNotOnNavMesh,
            AgentState::AgentNotOnNavMesh,
            AgentState::Moving,
            AgentState::Idle,
        ]
    );
    archipelago.update(1000, &NoAvoidance);
    let second: Vec<_> = ids
        .iter()
        .map(|&id| {
            let agent = archipelago.get_agent(id).unwrap();
            (agent.state(), agent.get_desired_velocity())
        })
        .collect();
    assert_eq!(first, second);
}

#[test]
fn agents_and_characters_come_and_go() {
    let mut archipelago = Archipelago::new();
    let first = archipelago.add_agent(Agent::create(v(1.0, 0.0, 0.0), Vec3::zero(), 1, 2, 3));
    let second = archipelago.add_agent(Agent::create(v(2.0, 0.0, 0.0), Vec3::zero(), 4, 5, 6));
    assert_ne!(first, second);
    assert_eq!(archipelago.get_agent(first).unwrap().position, v(1.0, 0.0, 0.0));
    assert_eq!(archipelago.get_agent(second).unwrap().radius, 4);
    assert_eq!(archipelago.get_agent(second).unwrap().desired_speed, 5);
    assert_eq!(archipelago.get_agent(second).unwrap().max_speed, 6);
    assert_eq!(
        archipelago.get_agent(second).unwrap().target_reached_condition,
        TargetReachedCondition::Distance(None)
    );
    let removed = archipelago.remove_agent(first).expect("the agent was there");
    assert_eq!(removed.position, v(1.0, 0.0, 0.0));
    assert!(archipelago.remove_agent(first).is_none());
    assert!(archipelago.get_agent(first).is_none());
    assert!(archipelago.get_agent_mut(first).is_none());
    assert_eq!(archipelago.get_agent(second).unwrap().position, v(2.0, 0.0, 0.0));
    // An id that was handed out names nothing else later.
    let third = archipelago.add_agent(Agent::create(v(3.0, 0.0, 0.0), Vec3::zero(), 1, 2, 3));
    assert_ne!(third, first);
    assert_ne!(third, second);
    assert!(archipelago.get_agent(first).is_none());

    let someone = archipelago.add_character(Character::with_radius(7));
    assert_eq!(archipelago.get_character(someone).unwrap().radius, 7);
    archipelago.get_character_mut(someone).unwrap().position = v(1.0, 2.0, 3.0);
    assert_eq!(archipelago.get_character(someone).unwrap().position, v(1.0, 2.0, 3.0));
    assert_eq!(archipelago.remove_character(someone).unwrap().position, v(1.0, 2.0, 3.0));
    assert!(archipelago.get_character(someone).is_none());
    assert!(archipelago.remove_character(someone).is_none());
}

#[test]
fn islands_come_and_go() {
    let mut archipelago = Archipelago::new();
    let first = archipelago.add_island();
    let second = archipelago.add_island();
    assert_ne!(first, second);
    assert!(archipelago.get_island(first).unwrap().get_nav_mesh().is_none());
    assert!(archipelago.get_island(first).unwrap().get_transform().is_none());
    let mesh = square(1.0);
    archipelago.get_island_mut(first).unwrap().set_nav_mesh(
        moved(1.0, 2.0, 3.0),
        mesh.clone(),
        HashMap::new(),
    );
    assert_eq!(archipelago.get_island(first).unwrap().get_transform(), Some(moved(1.0, 2.0, 3.0)));
    assert!(Arc::ptr_eq(&archipelago.get_island(first).unwrap().get_nav_mesh().unwrap(), &mesh));
    archipelago.get_island_mut(first).unwrap().clear_nav_mesh();
    assert!(archipelago.get_island(first).unwrap().get_nav_mesh().is_none());
    assert!(archipelago.remove_island(first));
    assert!(archipelago.get_island(first).is_none());
    assert!(archipelago.get_island_mut(first).is_none());
    assert!(archipelago.get_island(second).is_some());
}

#[test]
fn node_types_have_costs() {
    let mut archipelago = Archipelago::new();
    assert_eq!(archipelago.add_node_type(0), Err(NewNodeTypeError::NonPositiveCost(0)));
    let slow = archipelago.add_node_type(5000).expect("the cost is positive");
    let fast = archipelago.add_node_type(500).expect("the cost is positive");
    assert_ne!(slow, fast);
    assert_eq!(archipelago.get_node_type_cost(slow), Some(5000));
    assert_eq!(archipelago.get_node_type_cost(fast), Some(500));
    assert_eq!(archipelago.set_node_type_cost(slow, 7000), Ok(()));
    assert_eq!(archipelago.get_node_type_cost(slow), Some(7000));
    assert_eq!(
        archipelago.set_node_type_cost(slow, 0),
        Err(SetNodeTypeCostError::NonPositiveCost(0))
    );
    assert_eq!(archipelago.get_node_type_cost(slow), Some(7000));

    // A node type that an island uses cannot be removed.
    let island = archipelago.add_island();
    let mut types = HashMap::new();
    types.insert(3, slow);
    archipelago.get_island_mut(island).unwrap().set_nav_mesh(
        Transform::identity(),
        square(1.0),
        types,
    );
    assert!(!archipelago.remove_node_type(slow));
    assert_eq!(archipelago.get_node_type_cost(slow), Some(7000));
    assert!(archipelago.remove_node_type(fast));
    assert!(!archipelago.remove_node_type(fast));
    assert_eq!(archipelago.get_node_type_cost(fast), None);
    assert_eq!(
        archipelago.set_node_type_cost(fast, 3),
        Err(SetNodeTypeCostError::NodeTypeDoesNotExist(fast))
    );
    archipelago.get_island_mut(island).unwrap().clear_nav_mesh();
    assert!(archipelago.remove_node_type(slow));
}

/// Three by two squares. The polygons 0, 1 and 2 are the near row, from left
/// to right; 3, 4 and 5 the far row. Polygon 1 has the type index 1.
fn grid() -> Arc<ValidNavigationMesh> {
    let mut vertices = vec![];
    for z in 0..3 {
        for x in 0..4 {
            vertices.push(v(x as f64, 0.0, z as f64));
        }
    }
    let mut polygons = vec![];
    for z in 0..2 {
        for x in 0..3 {
            let corner = x + 4 * z;
            polygons.push(vec![corner, corner + 1, corner + 5, corner + 4]);
        }
    }
    Arc::new(
        NavigationMesh {
            mesh_bounds: None,
            vertices,
            polygons,
            polygon_type_indices: vec![0, 1, 0, 0, 0, 0],
        }
        .validate()
        .expect("the grid is valid"),
    )
}

fn corridor_across_grid(cost: u32, own_cost: Option<u32>) -> Vec<usize> {
    let mut archipelago = Archipelago::new();
    let mud = archipelago.add_node_type(cost).unwrap();
    let island = archipelago.add_island();
    let mut types = HashMap::new();
    types.insert(1, mud);
    archipelago.get_island_mut(island).unwrap().set_nav_mesh(Transform::identity(), grid(), types);
    archipelago.update(1000, &NoAvoidance);
    let mut overrides = CostOverrides::new();
    if let Some(own_cost) = own_cost {
        assert!(overrides.set(mud, own_cost));
    }
    let found = find_path(
        archipelago.get_nav_data(),
        NodeRef { island_id: island, polygon_index: 0 },
        NodeRef { island_id: island, polygon_index: 2 },
        &overrides,
    );
    let path = found.path.expect("there is a way");
    assert_eq!(path.island_segments.len(), 1);
    assert!(path.boundary_link_segments.is_empty());
    assert!(path.is_valid(archipelago.get_nav_data()));
    path.island_segments[0].corridor.clone()
}

#[test]
fn costly_polygons_are_walked_around() {
    // The short way costs 0.5 + 0.5 * c on entering polygon 1 and as much on
    // leaving it; the long way costs 4.
    assert_eq!(corridor_across_grid(1000, None), vec![0, 1, 2]);
    assert_eq!(corridor_across_grid(2900, None), vec![0, 1, 2]);
    assert_eq!(corridor_across_grid(3100, None), vec![0, 3, 4, 5, 2]);
    assert_eq!(corridor_across_grid(5000, None), vec![0, 3, 4, 5, 2]);
    // An agent's own cost counts before that of the archipelago.
    assert_eq!(corridor_across_grid(5000, Some(1000)), vec![0, 1, 2]);
    assert_eq!(corridor_across_grid(1000, Some(5000)), vec![0, 3, 4, 5, 2]);
}

#[test]
fn agents_override_costs() {
    let mut archipelago = Archipelago::new();
    let mud = archipelago.add_node_type(5000).unwrap();
    let ice = archipelago.add_node_type(2000).unwrap();
    let mut agent = Agent::create(Vec3::zero(), Vec3::zero(), 1, 1, 1);
    assert!(agent.get_node_type_cost_overrides().is_empty());
    assert!(!agent.override_node_type_cost(mud, 0));
    assert!(agent.get_node_type_cost_overrides().is_empty());
    assert!(agent.override_node_type_cost(mud, 1500));
    assert!(agent.override_node_type_cost(ice, 700));
    assert!(agent.override_node_type_cost(mud, 1600));
    assert_eq!(agent.get_node_type_cost_overrides().clone(), vec![(mud, 1600), (ice, 700)]);
    assert!(agent.remove_overridden_node_type_cost(mud));
    assert!(!agent.remove_overridden_node_type_cost(mud));
    assert_eq!(agent.get_node_type_cost_overrides().clone(), vec![(ice, 700)]);
}

#[test]
fn costs_below_the_default_can_hide_the_cheapest_way() {
    // The far row of the grid costs a tenth of the default, so that the way
    // through it costs 1.3 where the way along the near row costs 2. The
    // estimate counts every unit of distance at the default cost; with costs
    // below that it is too high for the far row, and the search ends on the
    // near row without having looked there.
    let mut vertices = vec![];
    for z in 0..3 {
        for x in 0..4 {
            vertices.push(v(x as f64, 0.0, z as f64));
        }
    }
    let mut polygons = vec![];
    for z in 0..2 {
        for x in 0..3 {
            let corner = x + 4 * z;
            polygons.push(vec![corner, corner + 1, corner + 5, corner + 4]);
        }
    }
    let mesh = Arc::new(
        NavigationMesh {
            mesh_bounds: None,
            vertices,
            polygons,
            polygon_type_indices: vec![0, 0, 0, 1, 1, 1],
        }
        .validate()
        .expect("the grid is valid"),
    );
    let corridor = |cost: u32| {
        let mut archipelago = Archipelago::new();
        let ice = archipelago.add_node_type(cost).unwrap();
        let island = archipelago.add_island();
        let mut types = HashMap::new();
        types.insert(1, ice);
        archipelago.get_island_mut(island).unwrap().set_nav_mesh(
            Transform::identity(),
            mesh.clone(),
            types,
        );
        archipelago.update(1000, &NoAvoidance);
        let found = find_path(
            archipelago.get_nav_data(),
            NodeRef { island_id: island, polygon_index: 0 },
            NodeRef { island_id: island, polygon_index: 2 },
            &CostOverrides::new(),
        );
        found.path.expect("there is a way").island_segments[0].corridor.clone()
    };
    assert_eq!(corridor(100), vec![0, 1, 2]);
    // At the default cost and above the near row is the cheapest way anyway.
    assert_eq!(corridor(1000), vec![0, 1, 2]);
}

#[test]
fn a_kept_path_loses_what_lies_behind_the_agent() {
    let mut archipelago = Archipelago::new();
    put(&mut archipelago, Transform::identity(), grid());
    let id = archipelago.add_agent(agent_at(v(0.5, 0.0, 0.5), v(2.5, 0.0, 1.5)));
    archipelago.update(1000, &NoAvoidance);
    let path = archipelago.get_agent(id).unwrap().current_path.clone().expect("there is a way");
    assert_eq!(path.island_segments.len(), 1);
    let corridor = path.island_segments[0].corridor.clone();
    let portals = path.island_segments[0].portal_edge_index.clone();
    assert_eq!(corridor.len(), 4);
    assert_eq!(portals.len(), 3);
    assert_eq!((corridor[0], corridor[3]), (0, 5));

    // An agent that has not left its polygon keeps the whole path.
    archipelago.get_agent_mut(id).unwrap().position = v(0.75, 0.0, 0.75);
    archipelago.update(1000, &NoAvoidance);
    let same = archipelago.get_agent(id).unwrap().current_path.clone().unwrap();
    assert_eq!(same.island_segments[0].corridor, corridor);
    assert_eq!(same.island_segments[0].portal_edge_index, portals);

    // In the third polygon of the corridor the first two are gone.
    let third = corridor[2];
    let x = (third % 3) as f64 + 0.5;
    let z = (third / 3) as f64 + 0.5;
    archipelago.get_agent_mut(id).unwrap().position = v(x, 0.0, z);
    archipelago.update(1000, &NoAvoidance);
    let agent = archipelago.get_agent(id).unwrap();
    assert_eq!(agent.state(), AgentState::Moving);
    let rest = agent.current_path.clone().unwrap();
    assert_eq!(rest.island_segments.len(), 1);
    assert!(rest.boundary_link_segments.is_empty());
    assert_eq!(rest.island_segments[0].corridor, corridor[2..].to_vec());
    assert_eq!(rest.island_segments[0].portal_edge_index, portals[2..].to_vec());
    assert!(rest.is_valid(archipelago.get_nav_data()));
}

#[test]
fn a_kept_path_loses_the_islands_behind_the_agent() {
    let mut archipelago = Archipelago::new();
    let _a = put(&mut archipelago, Transform::identity(), square(1.0));
    let b = put(&mut archipelago, moved(1.0, 0.0, 0.0), square(1.0));
    let c = put(&mut archipelago, moved(2.0, 0.0, 0.0), square(1.0));
    let id = archipelago.add_agent(agent_at(v(0.5, 0.0, 0.5), v(2.5, 0.0, 0.5)));
    archipelago.update(1000, &NoAvoidance);
    let path = archipelago.get_agent(id).unwrap().current_path.clone().expect("there is a way");
    assert_eq!(path.island_segments.len(), 3);
    assert_eq!(path.boundary_link_segments.len(), 2);

    archipelago.get_agent_mut(id).unwrap().position = v(1.5, 0.0, 0.5);
    archipelago.update(1000, &NoAvoidance);
    let agent = archipelago.get_agent(id).unwrap();
    assert_eq!(agent.state(), AgentState::Moving);
    assert_eq!(agent.get_desired_velocity(), Vec3::new(1000, 0, 0));
    let rest = agent.current_path.clone().unwrap();
    assert_eq!(rest.island_segments.len(), 2);
    assert_eq!(rest.island_segments[0].island_id, b);
    assert_eq!(rest.island_segments[1].island_id, c);
    assert_eq!(rest.boundary_link_segments.len(), 1);
    assert_eq!(
        rest.boundary_link_segments[0].boundary_link,
        path.boundary_link_segments[1].boundary_link
    );
    assert!(rest.is_valid(archipelago.get_nav_data()));
}

#[test]
fn nodes_are_connected_exactly_where_ways_lead() {
    let mut archipelago = Archipelago::new();
    // Three squares in a row, a grid far away, and a square on its own.
    let a = put(&mut archipelago, Transform::identity(), square(1.0));
    let b = put(&mut archipelago, moved(1.0, 0.0, 0.0), square(1.0));
    let c = put(&mut archipelago, moved(2.0, 0.0, 0.0), square(1.0));
    let g = put(&mut archipelago, moved(10.0, 0.0, 0.0), grid());
    let lone = put(&mut archipelago, moved(30.0, 0.0, 0.0), square(1.0));
    archipelago.update(1000, &NoAvoidance);
    let nav = archipelago.get_nav_data();
    let node = |island_id: IslandId, polygon_index: usize| NodeRef { island_id, polygon_index };

    assert!(nav.are_nodes_connected(node(a, 0), node(a, 0)));
    assert!(nav.are_nodes_connected(node(a, 0), node(b, 0)));
    assert!(nav.are_nodes_connected(node(a, 0), node(c, 0)));
    assert!(nav.are_nodes_connected(node(c, 0), node(a, 0)));
    for p in 0..6 {
        for q in 0..6 {
            assert!(nav.are_nodes_connected(node(g, p), node(g, q)));
        }
        assert!(!nav.are_nodes_connected(node(g, p), node(a, 0)));
        assert!(!nav.are_nodes_connected(node(c, 0), node(g, p)));
        assert!(!nav.are_nodes_connected(node(lone, 0), node(g, p)));
    }
    assert!(!nav.are_nodes_connected(node(lone, 0), node(c, 0)));

    // Without the square in the middle the row falls apart.
    assert!(archipelago.remove_island(b));
    archipelago.update(1000, &NoAvoidance);
    let nav = archipelago.get_nav_data();
    assert!(!nav.are_nodes_connected(node(a, 0), node(c, 0)));
    assert!(nav.are_nodes_connected(node(c, 0), node(c, 0)));
}

#[test]
fn every_meeting_pair_of_edges_is_linked_both_ways() {
    // A square with a square on each of its four sides.
    let mut archipelago = Archipelago::new();
    let middle = put(&mut archipelago, Transform::identity(), square(1.0));
    let sides = [
        put(&mut archipelago, moved(1.0, 0.0, 0.0), square(1.0)),
        put(&mut archipelago, moved(-1.0, 0.0, 0.0), square(1.0)),
        put(&mut archipelago, moved(0.0, 0.0, 1.0), square(1.0)),
        put(&mut archipelago, moved(0.0, 0.0, -1.0), square(1.0)),
    ];
    archipelago.update(1000, &NoAvoidance);
    let links = archipelago.get_nav_data().get_boundary_links();
    assert_eq!(links.len(), 8);
    for side in sides {
        let forth = links
            .iter()
            .filter(|(_, link)| {
                link.source_node.island_id == middle && link.destination_node.island_id == side
            })
            .count();
        let back = links
            .iter()
            .filter(|(_, link)| {
                link.source_node.island_id == side && link.destination_node.island_id == middle
            })
            .count();
        assert_eq!((forth, back), (1, 1));
    }
    for (_, link) in &links {
        assert_eq!(link.cost, 1000);
    }
}
