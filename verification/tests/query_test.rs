use std::collections::HashMap;
use std::sync::Arc;

use landmass::query::{find_path, sample_point};
use landmass::{
    Archipelago, FindPathError, NavigationMesh, NoAvoidance, NodeRef, Rotation, SamplePointError,
    SampledPoint, Transform, Vec3,
};

fn v(x: f64, y: f64, z: f64) -> Vec3 {
    Vec3::new((x * 1000.0).round() as i32, (y * 1000.0).round() as i32, (z * 1000.0).round() as i32)
}

/// An L of three squares on one island, and a square on another island that
/// continues the L upwards.
fn islands() -> Archipelago {
    let corner = NavigationMesh {
        mesh_bounds: None,
        vertices: vec![
            v(0.0, 0.0, 0.0),
            v(2.0, 0.0, 0.0),
            v(2.0, 0.0, 2.0),
            v(0.0, 0.0, 2.0),
            v(4.0, 0.0, 0.0),
            v(4.0, 0.0, 2.0),
            v(4.0, 0.0, 4.0),
            v(2.0, 0.0, 4.0),
        ],
        polygons: vec![vec![0, 1, 2, 3], vec![1, 4, 5, 2], vec![2, 5, 6, 7]],
        polygon_type_indices: vec![],
    }
    .validate()
    .expect("the mesh is valid");
    let square = NavigationMesh {
        mesh_bounds: None,
        vertices: vec![v(0.0, 0.0, 0.0), v(2.0, 0.0, 0.0), v(2.0, 0.0, 2.0), v(0.0, 0.0, 2.0)],
        polygons: vec![vec![0, 1, 2, 3]],
        polygon_type_indices: vec![],
    }
    .validate()
    .expect("the mesh is valid");
    let mut archipelago = Archipelago::new();
    let first = archipelago.add_island();
    archipelago.get_island_mut(first).unwrap().set_nav_mesh(
        Transform::identity(),
        Arc::new(corner),
        HashMap::new(),
    );
    let second = archipelago.add_island();
    archipelago.get_island_mut(second).unwrap().set_nav_mesh(
        Transform { translation: v(2.0, 0.0, 4.0), rotation: Rotation::identity() },
        Arc::new(square),
        HashMap::new(),
    );
    archipelago
}

#[test]
fn sampling_needs_up_to_date_islands() {
    let mut archipelago = islands();
    assert_eq!(
        sample_point(&archipelago, v(1.0, 0.0, 1.0), 100).err(),
        Some(SamplePointError::NavDataDirty)
    );
    archipelago.update(1000, &NoAvoidance);
    let sampled = sample_point(&archipelago, v(1.0, 0.05, 1.0), 100).expect("the point is near");
    assert_eq!(sampled.point(), v(1.0, 0.0, 1.0));
    assert_eq!(sampled.island(), archipelago.get_nav_data().get_island_ids()[0]);
    assert_eq!(sampled.node_ref.polygon_index, 0);
    assert_eq!(
        sample_point(&archipelago, v(1.0, 1.0, 1.0), 100).err(),
        Some(SamplePointError::OutOfRange)
    );
    // A point on the other island, found in that island's frame.
    let other = sample_point(&archipelago, v(3.0, -0.05, 5.0), 100).expect("the point is near");
    assert_eq!(other.point(), v(3.0, 0.0, 5.0));
    assert_eq!(other.island(), archipelago.get_nav_data().get_island_ids()[1]);
    // Sampling a sample finds the same node, whatever the distance.
    for distance in [1, 50, 3000] {
        let again = sample_point(&archipelago, other.point(), distance).unwrap();
        assert_eq!(again, other);
    }
}

#[test]
fn straight_path_goes_round_the_corner_and_across_the_link() {
    let mut archipelago = islands();
    archipelago.update(1000, &NoAvoidance);
    let start = sample_point(&archipelago, v(1.0, 0.0, 1.0), 100).unwrap();
    let end = sample_point(&archipelago, v(2.5, 0.0, 5.5), 100).unwrap();
    assert_eq!(
        find_path(&archipelago, &start, &end, &vec![]),
        Ok(vec![v(1.0, 0.0, 1.0), v(2.0, 0.0, 2.0), v(2.5, 0.0, 5.5)])
    );
    // Within one polygon the path is the two points.
    let near = sample_point(&archipelago, v(0.5, 0.0, 1.5), 100).unwrap();
    assert_eq!(
        find_path(&archipelago, &start, &near, &vec![]),
        Ok(vec![v(1.0, 0.0, 1.0), v(0.5, 0.0, 1.5)])
    );
    assert_eq!(
        find_path(&archipelago, &start, &start, &vec![]),
        Ok(vec![v(1.0, 0.0, 1.0), v(1.0, 0.0, 1.0)])
    );
}

#[test]
fn costs_handed_over_must_be_positive() {
    let mut archipelago = islands();
    let mud = archipelago.add_node_type(5000).unwrap();
    let ice = archipelago.add_node_type(2000).unwrap();
    archipelago.update(1000, &NoAvoidance);
    let start = sample_point(&archipelago, v(1.0, 0.0, 1.0), 100).unwrap();
    let end = sample_point(&archipelago, v(2.5, 0.0, 5.5), 100).unwrap();
    assert_eq!(
        find_path(&archipelago, &start, &end, &vec![(mud, 3), (ice, 0), (mud, 0)]),
        Err(FindPathError::NonPositiveNodeTypeCost(ice, 0))
    );
    assert!(find_path(&archipelago, &start, &end, &vec![(mud, 3), (ice, 1), (mud, 4)]).is_ok());
}

#[test]
fn no_path_between_islands_apart() {
    let mut archipelago = islands();
    let ids = archipelago.get_nav_data().get_island_ids();
    let mesh = archipelago.get_island(ids[1]).unwrap().get_nav_mesh().unwrap();
    archipelago.get_island_mut(ids[1]).unwrap().set_nav_mesh(
        Transform { translation: v(20.0, 0.0, 4.0), rotation: Rotation::identity() },
        mesh,
        HashMap::new(),
    );
    archipelago.update(1000, &NoAvoidance);
    let start = sample_point(&archipelago, v(1.0, 0.0, 1.0), 100).unwrap();
    let end = sample_point(&archipelago, v(21.0, 0.0, 5.0), 100).unwrap();
    assert_eq!(find_path(&archipelago, &start, &end, &vec![]), Err(FindPathError::NoPathFound));
    // A point that was sampled on an island that is gone leads nowhere.
    let stale = SampledPoint {
        point: v(1.0, 0.0, 1.0),
        node_ref: NodeRef { island_id: ids[0], polygon_index: 17 },
    };
    assert_eq!(find_path(&archipelago, &start, &stale, &vec![]), Err(FindPathError::NoPathFound));
}
