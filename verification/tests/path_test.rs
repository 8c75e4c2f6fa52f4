use std::collections::HashMap;
use std::sync::Arc;

use landmass::{
    Archipelago, IslandSegment, NavigationData, NavigationMesh, Path, PathIndex, Transform, Vec3,
};

/// A point given in units, on a lattice of thousandths of a unit.
fn v(x: f64, y: f64, z: f64) -> Vec3 {
    Vec3::new((x * 1000.0).round() as i32, (y * 1000.0).round() as i32, (z * 1000.0).round() as i32)
}

fn collect_straight_path(
    path: &Path,
    nav_data: &NavigationData,
    start: (PathIndex, Vec3),
    end: (PathIndex, Vec3),
    iteration_limit: u32,
) -> Vec<(PathIndex, Vec3)> {
    let mut straight_path = Vec::with_capacity(iteration_limit as usize);

    let mut current = start;
    let mut iterations = 0;
    while current.0 != end.0 && iterations < iteration_limit {
        iterations += 1;
        current =
            path.find_next_point_in_straight_path(nav_data, current.0, current.1, end.0, end.1);
        straight_path.push(current);
    }

    straight_path
}

fn at(corridor_index: usize) -> PathIndex {
    PathIndex::from_corridor_index(0, corridor_index)
}

#[test]
fn finds_next_point_for_organic_map() {
    let nav_mesh = NavigationMesh {
        mesh_bounds: None,
        vertices: vec![
            v(1.0, 0.0, 0.0),
            v(2.0, 0.0, 0.0),
            v(4.0, 0.0, 1.0),
            v(4.0, 0.0, 2.0),
            v(2.0, 0.0, 3.0),
            v(1.0, 0.0, 3.0),
            v(0.0, 0.0, 2.0),
            v(0.0, 0.0, 1.0),
            v(1.0, 0.0, 5.0),
            v(2.0, 0.0, 5.0),
            v(2.0, 0.0, 4.0),
            v(3.0, 1.0, 5.0),
            v(3.0, 1.0, 4.0),
            v(3.0, -2.0, 4.0),
            v(3.0, -2.0, 3.0),
        ],
        polygons: vec![
            vec![0, 1, 2, 3, 4, 5, 6, 7],
            vec![5, 4, 10, 9, 8],
            vec![9, 10, 12, 11],
            vec![10, 4, 14, 13],
        ],
        polygon_type_indices: vec![],
    }
    .validate()
    .expect("Mesh is valid.");

    let mut archipelago = Archipelago::new();
    let island_id = archipelago.add_island();
    archipelago.get_island_mut(island_id).unwrap().set_nav_mesh(
        Transform::identity(),
        Arc::new(nav_mesh),
        HashMap::new(),
    );

    let path = Path {
        island_segments: vec![IslandSegment {
            island_id,
            corridor: vec![0, 1, 2],
            portal_edge_index: vec![4, 2],
        }],
        boundary_link_segments: vec![],
    };

    assert_eq!(
        collect_straight_path(
            &path,
            archipelago.get_nav_data(),
            /* start= */ (at(0), v(3.0, 0.0, 1.5)),
            /* end= */ (at(2), v(2.5, 0.5, 4.5)),
            /* iteration_limit= */ 3,
        ),
        [(at(0), v(2.0, 0.0, 3.0)), (at(1), v(2.0, 0.0, 4.0)), (at(2), v(2.5, 0.5, 4.5)),]
    );
}

#[test]
fn finds_next_point_in_zig_zag() {
    let nav_mesh = NavigationMesh {
        mesh_bounds: None,
        vertices: vec![
            v(0.0, 0.0, 0.0),
            v(1.0, 0.0, 0.0),
            v(1.0, 0.0, 1.0),
            v(0.0, 0.0, 1.0),
            v(1.0, 0.0, 2.0),
            v(0.0, 0.0, 2.0),
            v(1.0, 0.0, 3.0),
            v(0.0, 0.0, 3.0),
            v(1.0, 0.0, 4.0),
            v(0.0, 0.0, 4.0),
            v(1.0, 0.0, 5.0), // Turn right
            v(2.0, 0.0, 4.0),
            v(2.0, 0.0, 5.0),
            v(3.0, 0.0, 4.0),
            v(3.0, 0.0, 5.0),
            v(4.0, 0.0, 4.0),
            v(4.0, 0.0, 5.0),
            v(5.0, 0.0, 5.0), // Turn left
            v(5.0, 0.0, 6.0),
            v(4.0, 0.0, 6.0),
            v(5.0, 0.0, 7.0),
            v(4.0, 0.0, 7.0),
            v(4.0, 0.0, 8.0), // Turn left
            v(-3.0, 0.0, 8.0),
            v(-3.0, 0.0, 7.0),
            v(-4.0, 0.0, 8.0), // Turn right
            v(-3.0, 0.0, 15.0),
            v(-4.0, 0.0, 15.0),
        ],
        polygons: vec![
            vec![0, 1, 2, 3],
            vec![3, 2, 4, 5],
            vec![5, 4, 6, 7],
            vec![7, 6, 8, 9],
            vec![9, 8, 10],
            vec![10, 8, 11, 12],
            vec![12, 11, 13, 14],
            vec![14, 13, 15, 16],
            vec![16, 15, 17],
            vec![16, 17, 18, 19],
            vec![19, 18, 20, 21],
            vec![21, 20, 22],
            vec![21, 22, 23, 24],
            vec![24, 23, 25],
            vec![25, 23, 26, 27],
        ],
        polygon_type_indices: vec![],
    }
    .validate()
    .expect("Mesh is valid.");

    let mut archipelago = Archipelago::new();
    let island_id = archipelago.add_island();
    archipelago.get_island_mut(island_id).unwrap().set_nav_mesh(
        Transform::identity(),
        Arc::new(nav_mesh),
        HashMap::new(),
    );

    let path = Path {
        island_segments: vec![IslandSegment {
            island_id,
            corridor: vec![0, 1, 2, 3, 4, 5, 6, 7, 8, 9, 10, 11, 12, 13, 14],
            portal_edge_index: vec![2, 2, 2, 2, 1, 2, 2, 2, 2, 2, 2, 2, 2, 1],
        }],
        boundary_link_segments: vec![],
    };

    assert_eq!(
        collect_straight_path(
            &path,
            archipelago.get_nav_data(),
            /* start= */ (at(0), v(0.5, 0.0, 0.5)),
            /* end= */ (at(14), v(-3.5, 0.0, 14.0)),
            /* iteration_limit= */ 5,
        ),
        [
            (at(4), v(1.0, 0.0, 4.0)),
            (at(8), v(4.0, 0.0, 5.0)),
            (at(11), v(4.0, 0.0, 7.0)),
            (at(13), v(-3.0, 0.0, 8.0)),
            (at(14), v(-3.5, 0.0, 14.0)),
        ]
    );
}

#[test]
fn starts_at_end_index_goes_to_end_point() {
    let nav_mesh = NavigationMesh {
        mesh_bounds: None,
        vertices: vec![
            v(0.0, 0.0, 0.0),
            v(1.0, 0.0, 0.0),
            v(1.0, 0.0, 1.0),
            v(0.0, 0.0, 1.0),
            v(1.0, 0.0, 2.0),
            v(0.0, 0.0, 2.0),
        ],
        polygons: vec![vec![0, 1, 2, 3], vec![3, 2, 4, 5]],
        polygon_type_indices: vec![],
    }
    .validate()
    .expect("Mesh is valid.");

    let mut archipelago = Archipelago::new();
    let island_id = archipelago.add_island();
    archipelago.get_island_mut(island_id).unwrap().set_nav_mesh(
        Transform::identity(),
        Arc::new(nav_mesh),
        HashMap::new(),
    );

    let path = Path {
        island_segments: vec![IslandSegment {
            island_id,
            corridor: vec![0, 1],
            portal_edge_index: vec![2],
        }],
        boundary_link_segments: vec![],
    };

    assert_eq!(
        path.find_next_point_in_straight_path(
            archipelago.get_nav_data(),
            /* start_index= */ at(1),
            /* start_point= */ v(0.25, 0.0, 1.1),
            /* end_index= */ at(1),
            /* end_point= */ v(0.75, 0.0, 1.9),
        ),
        (at(1), v(0.75, 0.0, 1.9))
    );
}

fn column() -> (Archipelago, landmass::IslandId) {
    let nav_mesh = NavigationMesh {
        mesh_bounds: None,
        vertices: vec![
            v(0.0, 0.0, 0.0),
            v(1.0, 0.0, 0.0),
            v(1.0, 0.0, 1.0),
            v(0.0, 0.0, 1.0),
            v(1.0, 0.0, 2.0),
            v(0.0, 0.0, 2.0),
            v(1.0, 0.0, 3.0),
            v(0.0, 0.0, 3.0),
        ],
        polygons: vec![vec![0, 1, 2, 3], vec![3, 2, 4, 5], vec![5, 4, 6, 7]],
        polygon_type_indices: vec![],
    }
    .validate()
    .expect("Mesh is valid.");
    let mut archipelago = Archipelago::new();
    let island_id = archipelago.add_island();
    archipelago.get_island_mut(island_id).unwrap().set_nav_mesh(
        Transform::identity(),
        Arc::new(nav_mesh),
        HashMap::new(),
    );
    (archipelago, island_id)
}

#[test]
fn straight_corridor_leads_directly_to_the_end() {
    let (archipelago, island_id) = column();
    let path = Path {
        island_segments: vec![IslandSegment {
            island_id,
            corridor: vec![0, 1, 2],
            portal_edge_index: vec![2, 2],
        }],
        boundary_link_segments: vec![],
    };
    assert!(path.is_valid(archipelago.get_nav_data()));
    for (start, end) in [
        (v(0.5, 0.0, 0.5), v(0.5, 0.0, 2.5)),
        (v(0.1, 0.0, 0.1), v(0.9, 0.0, 2.9)),
        (v(0.9, 0.3, 0.5), v(0.2, -0.2, 2.2)),
    ] {
        assert_eq!(
            path.find_next_point_in_straight_path(
                archipelago.get_nav_data(),
                at(0),
                start,
                at(2),
                end
            ),
            (at(2), end)
        );
    }
}

#[test]
fn paths_are_checked_against_the_islands() {
    let (mut archipelago, island_id) = column();
    let nav = archipelago.get_nav_data();
    let path = |corridor: Vec<usize>, portal_edge_index: Vec<usize>| Path {
        island_segments: vec![IslandSegment { island_id, corridor, portal_edge_index }],
        boundary_link_segments: vec![],
    };
    assert!(path(vec![0, 1, 2], vec![2, 2]).is_valid(nav));
    assert!(path(vec![2, 1], vec![0]).is_valid(nav));
    assert!(path(vec![1], vec![]).is_valid(nav));
    // An edge that leads elsewhere, or nowhere, or does not exist.
    assert!(!path(vec![0, 2], vec![2]).is_valid(nav));
    assert!(!path(vec![0, 1], vec![1]).is_valid(nav));
    assert!(!path(vec![0, 1], vec![4]).is_valid(nav));
    // A polygon that does not exist.
    assert!(!path(vec![0, 3], vec![2]).is_valid(nav));
    // Too many or too few edges.
    assert!(!path(vec![0, 1], vec![2, 2]).is_valid(nav));
    assert!(!path(vec![0, 1], vec![]).is_valid(nav));
    assert!(!path(vec![], vec![]).is_valid(nav));
    // No island segments, or a step from nowhere.
    assert!(!Path { island_segments: vec![], boundary_link_segments: vec![] }.is_valid(nav));
    // Places on the path, and the nodes at them.
    let whole = path(vec![0, 1, 2], vec![2, 2]);
    assert_eq!(whole.last_index(), at(2));
    assert_eq!(whole.next(at(0)), Some(at(1)));
    assert_eq!(whole.next(at(2)), None);
    assert_eq!(whole.next(at(7)), None);
    assert_eq!(whole.count_places(), 3);
    let node = |polygon_index| landmass::NodeRef { island_id, polygon_index };
    assert_eq!(whole.find_index_of_node(node(1), at(0)), Some(at(1)));
    assert_eq!(whole.find_index_of_node(node(1), at(2)), None);
    assert_eq!(whole.find_index_of_node(node(5), at(0)), None);
    assert_eq!(
        whole.get_portal_endpoints(at(1), nav),
        (v(1.0, 0.0, 2.0), v(0.0, 0.0, 2.0))
    );
    // Once the island is gone, so is the path.
    archipelago.remove_island(island_id);
    assert!(!whole.is_valid(archipelago.get_nav_data()));
}

fn area2(a: Vec3, b: Vec3, c: Vec3) -> i64 {
    (b.x as i64 - a.x as i64) * (c.z as i64 - a.z as i64)
        - (b.z as i64 - a.z as i64) * (c.x as i64 - a.x as i64)
}

#[test]
fn each_stretch_passes_through_the_portals_on_its_way() {
    // Three by two squares; the path leaves the first square of the near row
    // for the far row, follows it, and comes back to the last square of the
    // near row.
    let mut vertices = vec![];
    for z in 0..3 {
        for x in 0..4 {
            vertices.push(v(x as f64, 0.0, z as f64));
        }
    }
    let mut polygons = vec![];
    for z in 0..2 {
        for x in 0..3 {
            let corner = x + 4 * z;
            polygons.push(vec![corner, corner + 1, corner + 5, corner + 4]);
        }
    }
    let nav_mesh =
        NavigationMesh { mesh_bounds: None, vertices, polygons, polygon_type_indices: vec![] }
            .validate()
            .expect("the grid is valid");
    let mut archipelago = Archipelago::new();
    let island_id = archipelago.add_island();
    archipelago.get_island_mut(island_id).unwrap().set_nav_mesh(
        Transform::identity(),
        Arc::new(nav_mesh),
        HashMap::new(),
    );
    let path = Path {
        island_segments: vec![IslandSegment {
            island_id,
            corridor: vec![0, 3, 4, 5, 2],
            portal_edge_index: vec![2, 1, 1, 0],
        }],
        boundary_link_segments: vec![],
    };
    let nav_data = archipelago.get_nav_data();
    assert!(path.is_valid(nav_data));

    let end = (at(4), v(2.5, 0.0, 0.2));
    let mut current = (at(0), v(0.5, 0.0, 0.2));
    let mut corners = vec![];
    while current.0 != end.0 {
        let next =
            path.find_next_point_in_straight_path(nav_data, current.0, current.1, end.0, end.1);
        // Every portal from the start of the stretch up to its end has its
        // left end on the left of the stretch or on it, and its right end on
        // the right or on it.
        let mut place = current.0;
        while place != next.0 {
            let (left, right) = path.get_portal_endpoints(place, nav_data);
            assert!(area2(current.1, left, next.1) >= 0);
            assert!(area2(current.1, next.1, right) >= 0);
            place = path.next(place).expect("the corner is on the path");
        }
        corners.push(next);
        current = next;
    }
    assert_eq!(
        corners,
        [(at(1), v(1.0, 0.0, 1.0)), (at(3), v(2.0, 0.0, 1.0)), (at(4), v(2.5, 0.0, 0.2))]
    );
}
