use std::collections::HashMap;
use std::sync::Arc;

use landmass::{
    Agent, Archipelago, IslandSegment, NavigationMesh, NoAvoidance, Path, PathIndex,
    TargetReachedCondition, Transform, Vec3,
};

fn v(x: f64, y: f64, z: f64) -> Vec3 {
    Vec3::new((x * 1000.0).round() as i32, (y * 1000.0).round() as i32, (z * 1000.0).round() as i32)
}

/// An L of three squares: from the origin two to the right, then one up.
fn corner() -> (Archipelago, Path) {
    let mesh = NavigationMesh {
        mesh_bounds: None,
        vertices: vec![
            v(0.0, 0.0, 0.0),
            v(2.0, 0.0, 0.0),
            v(2.0, 0.0, 2.0),
            v(0.0, 0.0, 2.0),
            v(4.0, 0.0, 0.0),
            v(4.0, 0.0, 2.0),
            v(4.0, 0.0, 4.0),
            v(2.0, 0.0, 4.0),
        ],
        polygons: vec![vec![0, 1, 2, 3], vec![1, 4, 5, 2], vec![2, 5, 6, 7]],
        polygon_type_indices: vec![],
    }
    .validate()
    .expect("the mesh is valid");
    let mut archipelago = Archipelago::new();
    let island_id = archipelago.add_island();
    archipelago.get_island_mut(island_id).unwrap().set_nav_mesh(
        Transform::identity(),
        Arc::new(mesh),
        HashMap::new(),
    );
    archipelago.update(1000, &NoAvoidance);
    let path = Path {
        island_segments: vec![IslandSegment {
            island_id,
            corridor: vec![0, 1, 2],
            portal_edge_index: vec![1, 2],
        }],
        boundary_link_segments: vec![],
    };
    assert!(path.is_valid(archipelago.get_nav_data()));
    (archipelago, path)
}

fn reached(
    condition: TargetReachedCondition,
    position: Vec3,
    next: (usize, Vec3),
    target: (usize, Vec3),
) -> bool {
    let (archipelago, path) = corner();
    let mut agent = Agent::create(position, Vec3::zero(), 500, 1000, 1000);
    agent.target_reached_condition = condition;
    agent.has_reached_target(
        &path,
        archipelago.get_nav_data(),
        (PathIndex::from_corridor_index(0, next.0), next.1),
        (PathIndex::from_corridor_index(0, target.0), target.1),
    )
}

#[test]
fn target_is_reached_by_distance() {
    let position = v(0.0, 0.0, 0.0);
    let next = (1, v(1.5, 0.0, 0.0));
    let target = (2, v(3.0, 0.0, 0.0));
    assert!(!reached(TargetReachedCondition::Distance(Some(2000)), position, next, target));
    assert!(reached(TargetReachedCondition::Distance(Some(4000)), position, next, target));
    // Nearer than the distance, not as near as the distance.
    assert!(!reached(TargetReachedCondition::Distance(Some(3000)), position, next, target));
    assert!(reached(TargetReachedCondition::Distance(Some(3001)), position, next, target));
}

#[test]
fn target_is_reached_when_visible_at_distance() {
    let position = v(0.0, 0.0, 0.0);
    let next = v(1.5, 0.0, 0.0);
    let target = v(3.0, 0.0, 0.0);
    assert!(reached(
        TargetReachedCondition::VisibleAtDistance(Some(2000)),
        position,
        (2, next),
        (2, target)
    ));
    assert!(!reached(
        TargetReachedCondition::VisibleAtDistance(Some(2000)),
        position,
        (1, next),
        (2, target)
    ));
    assert!(!reached(
        TargetReachedCondition::VisibleAtDistance(Some(1500)),
        position,
        (2, next),
        (2, target)
    ));
}

#[test]
fn no_distance_means_the_radius() {
    let target = (2, v(0.3, 0.0, 0.4));
    // The radius is 0.5, and so is the distance to the target.
    assert!(!reached(TargetReachedCondition::Distance(None), v(0.0, 0.0, 0.0), target, target));
    assert!(reached(TargetReachedCondition::Distance(None), v(0.001, 0.0, 0.0), target, target));
    assert!(reached(
        TargetReachedCondition::VisibleAtDistance(None),
        v(0.001, 0.0, 0.0),
        target,
        target
    ));
    assert!(reached(
        TargetReachedCondition::StraightPathDistance(None),
        v(0.001, 0.0, 0.0),
        target,
        target
    ));
}

#[test]
fn target_is_reached_by_the_length_of_the_straight_path() {
    // From (1, 0, 1) around the corner at (2, 0, 2) to (2.5, 0, 3.5): first
    // 1.414, then 1.581, each stretch rounded down to the lattice.
    let position = v(1.0, 0.0, 1.0);
    let next = (1, v(2.0, 0.0, 2.0));
    let target = (2, v(2.5, 0.0, 3.5));
    let along = |d| {
        reached(TargetReachedCondition::StraightPathDistance(Some(d)), position, next, target)
    };
    assert!(!along(2000));
    assert!(!along(2995));
    assert!(along(2996));
    assert!(along(4000));
    // As the crow flies the target is 2.915 away.
    assert!(reached(TargetReachedCondition::Distance(Some(2916)), position, next, target));
    assert!(!reached(TargetReachedCondition::Distance(Some(2915)), position, next, target));
}
