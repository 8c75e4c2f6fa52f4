use std::collections::HashMap;
use std::sync::Arc;

use landmass::{
    Agent, AgentId, AgentState, Archipelago, IslandId, NavigationMesh, NoAvoidance, Rotation,
    Transform, Vec3,
};

fn v(x: f64, y: f64, z: f64) -> Vec3 {
    Vec3::new((x * 1000.0).round() as i32, (y * 1000.0).round() as i32, (z * 1000.0).round() as i32)
}

fn sorted<T: Ord>(mut ids: Vec<T>) -> Vec<T> {
    ids.sort();
    ids
}

#[test]
fn computes_path_for_agent_and_updates_desired_velocity() {
    let mut archipelago = Archipelago::new();

    let nav_mesh = Arc::new(
        NavigationMesh {
            mesh_bounds: None,
            vertices: vec![
                v(1.0, 0.0, 1.0),
                v(4.0, 0.0, 1.0),
                v(4.0, 0.0, 4.0),
                v(3.0, 0.0, 4.0),
                v(3.0, 0.0, 2.0),
                v(1.0, 0.0, 2.0),
            ],
            polygons: vec![vec![0, 1, 4, 5], vec![1, 2, 3, 4]],
            polygon_type_indices: vec![],
        }
        .validate()
        .expect("is valid"),
    );

    let island_id = archipelago.add_island();
    archipelago.get_island_mut(island_id).expect("the island was added").set_nav_mesh(
        Transform { translation: v(1.0, 1.0, 1.0), rotation: Rotation::identity() },
        nav_mesh,
        HashMap::new(),
    );

    // The radius 0.5, the greatest speed 1.
    let mut agent = Agent::create(v(2.5, 1.0, 2.5), Vec3::zero(), 500, 1000, 1000);
    agent.current_target = Some(v(4.5, 1.0, 4.5));
    let agent_id = archipelago.add_agent(agent);

    // The first update has no duration, the second does the work.
    archipelago.update(0, &NoAvoidance);
    archipelago.update(16, &NoAvoidance);

    let agent = archipelago.get_agent(agent_id).expect("the agent is there");
    assert_eq!(agent.state(), AgentState::Moving);
    // The direction (1.5, 0, 0.5), at the speed 1.
    let length = (1.5f64 * 1.5 + 0.5 * 0.5).sqrt();
    assert_eq!(agent.get_desired_velocity(), v(1.5 / length, 0.0, 0.5 / length));
}

#[test]
fn adds_and_removes_agents() {
    let mut archipelago = Archipelago::new();
    let make = || Agent::create(Vec3::zero(), Vec3::zero(), 500, 1000, 1000);

    let agent_id_1 = archipelago.add_agent(make());
    let agent_id_2 = archipelago.add_agent(make());
    archipelago.update(16, &NoAvoidance);

    assert_eq!(sorted(archipelago.get_agent_ids()), sorted(vec![agent_id_1, agent_id_2]));
    assert_eq!(archipelago.get_agent_ids().len(), 2);

    let agent_id_3 = archipelago.add_agent(make());
    archipelago.update(16, &NoAvoidance);

    assert_eq!(
        sorted(archipelago.get_agent_ids()),
        sorted(vec![agent_id_1, agent_id_2, agent_id_3])
    );
    assert_eq!(archipelago.get_agent_ids().len(), 3);

    assert!(archipelago.remove_agent(agent_id_2).is_some());
    archipelago.update(16, &NoAvoidance);

    assert_eq!(sorted(archipelago.get_agent_ids()), sorted(vec![agent_id_1, agent_id_3]));
    assert_eq!(archipelago.get_agent_ids().len(), 2);

    assert!(archipelago.remove_agent(agent_id_1).is_some());
    assert!(archipelago.remove_agent(agent_id_3).is_some());
    archipelago.update(16, &NoAvoidance);

    assert_eq!(archipelago.get_agent_ids(), Vec::<AgentId>::new());
    assert_eq!(archipelago.get_agent_ids().len(), 0);
}

#[test]
fn adds_and_removes_islands() {
    let mut archipelago = Archipelago::new();
    let ids = |archipelago: &Archipelago| archipelago.get_nav_data().get_island_ids();

    let island_id_1 = archipelago.add_island();
    let island_id_2 = archipelago.add_island();
    archipelago.update(16, &NoAvoidance);

    assert_eq!(
        sorted(ids(&archipelago).iter().map(|id| id.0).collect()),
        sorted(vec![island_id_1.0, island_id_2.0])
    );
    assert_eq!(ids(&archipelago).len(), 2);

    let island_id_3 = archipelago.add_island();
    archipelago.update(16, &NoAvoidance);

    assert_eq!(
        sorted(ids(&archipelago).iter().map(|id| id.0).collect()),
        sorted(vec![island_id_1.0, island_id_2.0, island_id_3.0])
    );
    assert_eq!(ids(&archipelago).len(), 3);

    assert!(archipelago.remove_island(island_id_2));
    archipelago.update(16, &NoAvoidance);

    assert_eq!(
        sorted(ids(&archipelago).iter().map(|id| id.0).collect()),
        sorted(vec![island_id_1.0, island_id_3.0])
    );
    assert_eq!(ids(&archipelago).len(), 2);

    assert!(archipelago.remove_island(island_id_1));
    assert!(archipelago.remove_island(island_id_3));
    archipelago.update(16, &NoAvoidance);

    assert_eq!(ids(&archipelago), Vec::<IslandId>::new());
    assert_eq!(archipelago.get_agent_ids().len(), 0);
}
