use std::cmp::Ordering;
use std::collections::HashMap;
use std::sync::Arc;

use landmass::{
    draw_archipelago_debug, Agent, Archipelago, LineType, NavigationMesh, NoAvoidance, PointType,
    RecordingDrawer, Rotation, Shape, Transform, TriangleType, Vec3,
};

/// A point given with `z` up, in units; inside `y` is up, on a lattice of
/// thousandths of a unit.
fn xyz(x: f64, y: f64, z: f64) -> Vec3 {
    Vec3::new((x * 1000.0).round() as i32, (z * 1000.0).round() as i32, (y * 1000.0).round() as i32)
}

/// The coordinates of a point, with `z` up.
fn key(p: Vec3) -> (i32, i32, i32) {
    (p.x, p.z, p.y)
}

struct FakeDrawer {
    points: Vec<(PointType, Vec3)>,
    lines: Vec<(LineType, [Vec3; 2])>,
    triangles: Vec<(TriangleType, [Vec3; 3])>,
}

impl FakeDrawer {
    fn new(drawer: RecordingDrawer) -> Self {
        let mut fake = Self { points: vec![], lines: vec![], triangles: vec![] };
        for shape in drawer.shapes {
            match shape {
                Shape::Point(point_type, point) => fake.points.push((point_type, point)),
                Shape::Line(line_type, from, to) => fake.lines.push((line_type, [from, to])),
                Shape::Triangle(triangle_type, a, b, c) => {
                    fake.triangles.push((triangle_type, [a, b, c]))
                }
            }
        }
        fake
    }

    fn sort(&mut self) {
        fn lex_order_points(a: Vec3, b: Vec3) -> Ordering {
            key(a).cmp(&key(b))
        }
        self.points.sort_by(|a, b| a.0.cmp(&b.0).then(lex_order_points(a.1, b.1)));
        self.lines.sort_by(|a, b| {
            a.0.cmp(&b.0)
                .then(lex_order_points(a.1[0], b.1[0]))
                .then(lex_order_points(a.1[1], b.1[1]))
        });
        self.triangles.sort_by(|a, b| {
            a.0.cmp(&b.0)
                .then(lex_order_points(a.1[0], b.1[0]))
                .then(lex_order_points(a.1[1], b.1[1]))
                .then(lex_order_points(a.1[2], b.1[2]))
        });
    }
}

#[test]
fn draws_island_meshes_and_agents() {
    let nav_mesh = NavigationMesh {
        mesh_bounds: None,
        vertices: vec![
            xyz(1.0, 0.0, 0.0),
            xyz(2.0, 0.0, 0.0),
            xyz(4.0, 1.0, 0.0),
            xyz(4.0, 2.0, 0.0),
            xyz(2.0, 3.0, 0.0),
            xyz(1.0, 3.0, 0.0),
            xyz(0.0, 2.0, 0.0),
            xyz(0.0, 1.0, 0.0),
            xyz(1.0, 5.0, 0.0),
            xyz(2.0, 5.0, 0.0),
            xyz(2.0, 4.0, 0.0),
            xyz(3.0, 5.0, 1.0),
            xyz(3.0, 4.0, 1.0),
            xyz(3.0, 4.0, -2.0),
            xyz(3.0, 3.0, -2.0),
        ],
        polygons: vec![
            vec![0, 1, 2, 3, 4, 5, 6, 7],
            vec![5, 4, 10, 9, 8],
            vec![9, 10, 12, 11],
            vec![10, 4, 14, 13],
        ],
        polygon_type_indices: vec![],
    }
    .validate()
    .expect("Mesh is valid.");

    let mut archipelago = Archipelago::new();
    let island_id = archipelago.add_island();
    let translation = xyz(1.0, 1.0, 1.0);
    archipelago.get_island_mut(island_id).unwrap().set_nav_mesh(
        Transform { translation, rotation: Rotation::identity() },
        Arc::new(nav_mesh),
        HashMap::new(),
    );

    let agent_id = archipelago.add_agent(Agent::create(
        /* position= */ xyz(3.9, 1.5, 0.0).plus(translation),
        /* velocity= */ Vec3::zero(),
        /* radius= */ 1000,
        /* desired_speed= */ 1000,
        /* max_speed= */ 1000,
    ));
    archipelago.get_agent_mut(agent_id).unwrap().current_target =
        Some(xyz(1.5, 4.5, 0.0).plus(translation));

    // Update so everything is in sync.
    archipelago.update(1000, &NoAvoidance);

    let mut drawer = RecordingDrawer::new();
    draw_archipelago_debug(&archipelago, &mut drawer);
    let mut fake_drawer = FakeDrawer::new(drawer);

    fake_drawer.sort();

    assert_eq!(
        fake_drawer.points,
        [
            (PointType::AgentPosition(agent_id), xyz(3.9, 1.5, 0.0)),
            (PointType::TargetPosition(agent_id), xyz(1.5, 4.5, 0.0)),
            (PointType::Waypoint(agent_id), xyz(2.0, 3.0, 0.0)),
        ]
        .iter()
        .copied()
        .map(|(t, p)| (t, p.plus(translation)))
        .collect::<Vec<_>>()
    );
    assert_eq!(
        fake_drawer.lines,
        [
            (LineType::BoundaryEdge, [xyz(0.0, 1.0, 0.0), xyz(1.0, 0.0, 0.0)]),
            (LineType::BoundaryEdge, [xyz(0.0, 2.0, 0.0), xyz(0.0, 1.0, 0.0)]),
            (LineType::BoundaryEdge, [xyz(1.0, 0.0, 0.0), xyz(2.0, 0.0, 0.0)]),
            (LineType::BoundaryEdge, [xyz(1.0, 3.0, 0.0), xyz(0.0, 2.0, 0.0)]),
            (LineType::BoundaryEdge, [xyz(1.0, 5.0, 0.0), xyz(1.0, 3.0, 0.0)]),
            (LineType::BoundaryEdge, [xyz(2.0, 0.0, 0.0), xyz(4.0, 1.0, 0.0)]),
            (LineType::BoundaryEdge, [xyz(2.0, 3.0, 0.0), xyz(3.0, 3.0, -2.0)]),
            (LineType::BoundaryEdge, [xyz(2.0, 4.0, 0.0), xyz(3.0, 4.0, 1.0)]),
            (LineType::BoundaryEdge, [xyz(2.0, 5.0, 0.0), xyz(1.0, 5.0, 0.0)]),
            (LineType::BoundaryEdge, [xyz(3.0, 3.0, -2.0), xyz(3.0, 4.0, -2.0)]),
            (LineType::BoundaryEdge, [xyz(3.0, 4.0, -2.0), xyz(2.0, 4.0, 0.0)]),
            (LineType::BoundaryEdge, [xyz(3.0, 4.0, 1.0), xyz(3.0, 5.0, 1.0)]),
            (LineType::BoundaryEdge, [xyz(3.0, 5.0, 1.0), xyz(2.0, 5.0, 0.0)]),
            (LineType::BoundaryEdge, [xyz(4.0, 1.0, 0.0), xyz(4.0, 2.0, 0.0)]),
            (LineType::BoundaryEdge, [xyz(4.0, 2.0, 0.0), xyz(2.0, 3.0, 0.0)]),
            //
            (LineType::ConnectivityEdge, [xyz(2.0, 3.0, 0.0), xyz(1.0, 3.0, 0.0)]),
            (LineType::ConnectivityEdge, [xyz(2.0, 3.0, 0.0), xyz(2.0, 4.0, 0.0)]),
            (LineType::ConnectivityEdge, [xyz(2.0, 4.0, 0.0), xyz(2.0, 5.0, 0.0)]),
            //
            (LineType::AgentCorridor(agent_id), [xyz(1.75, 1.5, 0.0), xyz(1.6, 4.0, 0.0)]),
            //
            (LineType::Target(agent_id), [xyz(3.9, 1.5, 0.0), xyz(1.5, 4.5, 0.0)]),
            //
            (LineType::Waypoint(agent_id), [xyz(3.9, 1.5, 0.0), xyz(2.0, 3.0, 0.0)]),
        ]
        .iter()
        .copied()
        .map(|(t, [from, to])| (t, [from.plus(translation), to.plus(translation)]))
        .collect::<Vec<_>>()
    );
    assert_eq!(
        fake_drawer.triangles,
        [
            (TriangleType::Node, [xyz(0.0, 1.0, 0.0), xyz(1.0, 0.0, 0.0), xyz(1.75, 1.5, 0.0)]),
            (TriangleType::Node, [xyz(0.0, 2.0, 0.0), xyz(0.0, 1.0, 0.0), xyz(1.75, 1.5, 0.0)]),
            (TriangleType::Node, [xyz(1.0, 0.0, 0.0), xyz(2.0, 0.0, 0.0), xyz(1.75, 1.5, 0.0)]),
            (TriangleType::Node, [xyz(1.0, 3.0, 0.0), xyz(0.0, 2.0, 0.0), xyz(1.75, 1.5, 0.0)]),
            (TriangleType::Node, [xyz(1.0, 3.0, 0.0), xyz(2.0, 3.0, 0.0), xyz(1.6, 4.0, 0.0)]),
            (TriangleType::Node, [xyz(1.0, 5.0, 0.0), xyz(1.0, 3.0, 0.0), xyz(1.6, 4.0, 0.0)]),
            (TriangleType::Node, [xyz(2.0, 0.0, 0.0), xyz(4.0, 1.0, 0.0), xyz(1.75, 1.5, 0.0)]),
            (TriangleType::Node, [xyz(2.0, 3.0, 0.0), xyz(1.0, 3.0, 0.0), xyz(1.75, 1.5, 0.0)]),
            (TriangleType::Node, [xyz(2.0, 3.0, 0.0), xyz(2.0, 4.0, 0.0), xyz(1.6, 4.0, 0.0)]),
            (TriangleType::Node, [xyz(2.0, 3.0, 0.0), xyz(3.0, 3.0, -2.0), xyz(2.5, 3.5, -1.0)]),
            (TriangleType::Node, [xyz(2.0, 4.0, 0.0), xyz(2.0, 3.0, 0.0), xyz(2.5, 3.5, -1.0)]),
            (TriangleType::Node, [xyz(2.0, 4.0, 0.0), xyz(2.0, 5.0, 0.0), xyz(1.6, 4.0, 0.0)]),
            (TriangleType::Node, [xyz(2.0, 4.0, 0.0), xyz(3.0, 4.0, 1.0), xyz(2.5, 4.5, 0.5)]),
            (TriangleType::Node, [xyz(2.0, 5.0, 0.0), xyz(1.0, 5.0, 0.0), xyz(1.6, 4., 0.00)]),
            (TriangleType::Node, [xyz(2.0, 5.0, 0.0), xyz(2.0, 4.0, 0.0), xyz(2.5, 4.5, 0.5)]),
            (TriangleType::Node, [xyz(3.0, 3.0, -2.0), xyz(3.0, 4.0, -2.0), xyz(2.5, 3.5, -1.0)]),
            (TriangleType::Node, [xyz(3.0, 4.0, -2.0), xyz(2.0, 4.0, 0.0), xyz(2.5, 3.5, -1.0)]),
            (TriangleType::Node, [xyz(3.0, 4.0, 1.0), xyz(3.0, 5.0, 1.0), xyz(2.5, 4.5, 0.5)]),
            (TriangleType::Node, [xyz(3.0, 5.0, 1.0), xyz(2.0, 5.0, 0.0), xyz(2.5, 4.5, 0.5)]),
            (TriangleType::Node, [xyz(4.0, 1.0, 0.0), xyz(4.0, 2.0, 0.0), xyz(1.75, 1.5, 0.0)]),
            (TriangleType::Node, [xyz(4.0, 2.0, 0.0), xyz(2.0, 3.0, 0.0), xyz(1.75, 1.5, 0.0)]),
        ]
        .iter()
        .copied()
        .map(|(t, [a, b, c])| (
            t,
            [a.plus(translation), b.plus(translation), c.plus(translation)]
        ))
        .collect::<Vec<_>>()
    );
}

#[test]
fn draws_boundary_links() {
    let nav_mesh = Arc::new(
        NavigationMesh {
            mesh_bounds: None,
            vertices: vec![
                xyz(1.0, 1.0, 1.0),
                xyz(2.0, 1.0, 1.0),
                xyz(2.0, 2.0, 1.0),
                xyz(1.0, 2.0, 1.0),
            ],
            polygons: vec![vec![0, 1, 2, 3]],
            polygon_type_indices: vec![],
        }
        .validate()
        .expect("The mesh is valid."),
    );

    let mut archipelago = Archipelago::new();
    let island_id_1 = archipelago.add_island();
    let island_id_2 = archipelago.add_island();
    archipelago.get_island_mut(island_id_1).unwrap().set_nav_mesh(
        Transform::identity(),
        nav_mesh.clone(),
        HashMap::new(),
    );
    archipelago.get_island_mut(island_id_2).unwrap().set_nav_mesh(
        Transform { translation: xyz(1.0, 0.0, 0.0), rotation: Rotation::identity() },
        nav_mesh.clone(),
        HashMap::new(),
    );

    // Update so everything is in sync.
    archipelago.update(1000, &NoAvoidance);

    let mut drawer = RecordingDrawer::new();
    draw_archipelago_debug(&archipelago, &mut drawer);
    let mut fake_drawer = FakeDrawer::new(drawer);
    fake_drawer.sort();

    let lines = fake_drawer
        .lines
        .iter()
        .filter(|(line_type, _)| *line_type == LineType::BoundaryLink)
        .map(|(_, edge)| *edge)
        .collect::<Vec<_>>();

    assert_eq!(lines, [[xyz(2.0, 1.0, 1.0), xyz(2.0, 2.0, 1.0)]]);
}
