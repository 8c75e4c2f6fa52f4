use landmass::{
    BoundingBox, MeshEdgeRef, NavigationMesh, ValidationError, Vec3,
};

fn v(x: f64, y: f64, z: f64) -> Vec3 {
    Vec3::new((x * 1000.0).round() as i32, (y * 1000.0).round() as i32, (z * 1000.0).round() as i32)
}

fn two_squares() -> NavigationMesh {
    NavigationMesh {
        mesh_bounds: None,
        vertices: vec![
            v(0.0, 0.0, 0.0),
            v(1.0, 0.0, 0.0),
            v(1.0, 0.0, 1.0),
            v(0.0, 0.0, 1.0),
            v(1.0, 0.0, 2.0),
            v(0.0, 0.0, 2.0),
        ],
        polygons: vec![vec![0, 1, 2, 3], vec![3, 2, 4, 5]],
        polygon_type_indices: vec![7],
    }
}

#[test]
fn validation_derives_connectivity_bounds_and_centers() {
    let mesh = two_squares().validate().expect("the mesh is valid");
    assert_eq!(mesh.polygon_count(), 2);
    assert_eq!(
        mesh.get_bounds(),
        BoundingBox::Box { min: v(0.0, 0.0, 0.0), max: v(1.0, 0.0, 2.0) }
    );
    // The shared edge connects the two polygons, both ways.
    let forth = mesh.get_connectivity(0, 2).expect("edge 2 of polygon 0 is shared");
    assert_eq!(forth.polygon_index, 1);
    assert_eq!(forth.travel_distances, (500, 500));
    let back = mesh.get_connectivity(1, 0).expect("edge 0 of polygon 1 is shared");
    assert_eq!(back.polygon_index, 0);
    assert_eq!(back.travel_distances, (500, 500));
    // Every other edge is on the boundary, in order.
    assert_eq!(
        mesh.get_boundary_edges().clone(),
        vec![
            MeshEdgeRef { polygon_index: 0, edge_index: 0 },
            MeshEdgeRef { polygon_index: 0, edge_index: 1 },
            MeshEdgeRef { polygon_index: 0, edge_index: 3 },
            MeshEdgeRef { polygon_index: 1, edge_index: 1 },
            MeshEdgeRef { polygon_index: 1, edge_index: 2 },
            MeshEdgeRef { polygon_index: 1, edge_index: 3 },
        ]
    );
    for &(p, e) in &[(0usize, 0usize), (0, 1), (0, 3), (1, 1), (1, 2), (1, 3)] {
        assert!(mesh.get_connectivity(p, e).is_none());
    }
    assert_eq!(mesh.get_center(0), v(0.5, 0.0, 0.5));
    assert_eq!(mesh.get_center(1), v(0.5, 0.0, 1.5));
    assert_eq!(mesh.get_type_index(0), Some(7));
    assert_eq!(mesh.get_type_index(1), None);
    assert_eq!(
        mesh.get_edge_points(MeshEdgeRef { polygon_index: 1, edge_index: 3 }),
        (v(0.0, 0.0, 2.0), v(0.0, 0.0, 1.0))
    );
}

#[test]
fn given_bounds_are_kept() {
    let mut mesh = two_squares();
    let bounds = BoundingBox::Box { min: v(-1.0, -1.0, -1.0), max: v(5.0, 5.0, 5.0) };
    mesh.mesh_bounds = Some(bounds);
    assert_eq!(mesh.validate().expect("the mesh is valid").get_bounds(), bounds);
}

#[test]
fn empty_mesh_is_valid_and_empty() {
    let mesh = NavigationMesh {
        mesh_bounds: None,
        vertices: vec![],
        polygons: vec![],
        polygon_type_indices: vec![],
    }
    .validate()
    .expect("nothing is wrong with nothing");
    assert_eq!(mesh.polygon_count(), 0);
    assert_eq!(mesh.get_bounds(), BoundingBox::Empty);
    assert!(mesh.get_boundary_edges().is_empty());
}

#[test]
fn too_few_vertices_are_refused() {
    let mut mesh = two_squares();
    mesh.polygons[1] = vec![3, 2];
    assert_eq!(mesh.validate().err(), Some(ValidationError::NotEnoughVerticesInPolygon(1)));
}

#[test]
fn missing_vertices_are_refused() {
    let mut mesh = two_squares();
    mesh.polygons[1] = vec![3, 2, 4, 6];
    assert_eq!(mesh.validate().err(), Some(ValidationError::InvalidVertexIndexInPolygon(1)));
}

#[test]
fn degenerate_edges_are_refused() {
    let mut mesh = two_squares();
    mesh.polygons[0] = vec![0, 1, 1, 3];
    assert_eq!(mesh.validate().err(), Some(ValidationError::DegenerateEdgeInPolygon(0)));
}

#[test]
fn concave_polygons_are_refused() {
    // The second polygon runs clockwise.
    let mut mesh = two_squares();
    mesh.polygons[1] = vec![5, 4, 2, 3];
    assert_eq!(mesh.validate().err(), Some(ValidationError::ConcavePolygon(1)));
}

#[test]
fn edges_used_three_times_are_refused() {
    let mut mesh = two_squares();
    mesh.vertices.push(v(0.5, 0.0, 3.0));
    // A third polygon on the edge between the vertices 2 and 3.
    mesh.polygons.push(vec![3, 2, 6]);
    assert_eq!(mesh.validate().err(), Some(ValidationError::DoublyConnectedEdge(2, 3)));
}

#[test]
fn the_first_fault_in_reading_order_is_reported() {
    // Polygon 0 is concave and polygon 1 too short: the concave one comes
    // first.
    let mut mesh = two_squares();
    mesh.polygons[0] = vec![3, 2, 1, 0];
    mesh.polygons[1] = vec![3, 2];
    assert_eq!(mesh.validate().err(), Some(ValidationError::ConcavePolygon(0)));
}

#[test]
fn samples_the_nearest_point_of_the_mesh() {
    let mesh = two_squares().validate().expect("the mesh is valid");
    // Straight above a polygon: the point below.
    assert_eq!(mesh.sample_point(v(0.25, 0.05, 1.5), 100), Some((v(0.25, 0.0, 1.5), 1)));
    // Beside the mesh: the nearest point of the boundary.
    assert_eq!(mesh.sample_point(v(1.05, 0.0, 0.5), 100), Some((v(1.0, 0.0, 0.5), 0)));
    // Too far away.
    assert_eq!(mesh.sample_point(v(1.5, 0.0, 0.5), 100), None);
    assert_eq!(mesh.sample_point(v(0.5, 0.2, 0.5), 100), None);
    // On the shared edge both polygons are as near: the first wins.
    assert_eq!(mesh.sample_point(v(0.5, 0.0, 1.0), 100), Some((v(0.5, 0.0, 1.0), 0)));
}

#[test]
fn sampling_a_sample_gives_the_same_polygon() {
    let mesh = two_squares().validate().expect("the mesh is valid");
    for point in [v(0.25, 0.05, 1.5), v(1.05, 0.0, 0.5), v(0.5, 0.0, 1.0), v(-0.05, 0.02, 1.95)] {
        let (sample, polygon) = mesh.sample_point(point, 100).expect("the point is near");
        for distance in [1, 10, 100, 5000] {
            assert_eq!(mesh.sample_point(sample, distance), Some((sample, polygon)));
        }
    }
}
