//! Drawing an archipelago, to look at what it holds.

use vstd::prelude::*;
use crate::agent::{Agent, AgentId};
use crate::archipelago::Archipelago;
use crate::island::{IslandId, IslandNavigationData};
use crate::math::Vec3;
use crate::nav_data::{
    island_of, node_in, world_center, BoundaryLink, NavigationData, NodeRef,
};
use crate::nav_mesh::{is_position, next_index};
use crate::path::{nodes_of, segment_node, segment_nodes, segment_ok, IslandSegment, Path};
use crate::steering::{keeps, locate, locate_on};

verus! {

/// What a point that is drawn stands for.
#[derive(Clone, Copy, PartialEq, Eq, PartialOrd, Ord, Structural, Debug)]
pub enum PointType {
    /// Where an agent is.
    AgentPosition(AgentId),
    /// Where an agent is to go.
    TargetPosition(AgentId),
    /// The next corner of the straight path of an agent.
    Waypoint(AgentId),
}

/// What a line that is drawn stands for.
#[derive(Clone, Copy, PartialEq, Eq, PartialOrd, Ord, Structural, Debug)]
pub enum LineType {
    /// An edge of a polygon on the boundary of its mesh.
    BoundaryEdge,
    /// An edge between two polygons of a mesh.
    ConnectivityEdge,
    /// The portal of a link between two islands.
    BoundaryLink,
    /// A step of the path of an agent, from the center of one polygon to the
    /// center of the next.
    AgentCorridor(AgentId),
    /// From an agent to its target.
    Target(AgentId),
    /// From an agent to the next corner of its straight path.
    Waypoint(AgentId),
}

/// What a triangle that is drawn stands for.
#[derive(Clone, Copy, PartialEq, Eq, PartialOrd, Ord, Structural, Debug)]
pub enum TriangleType {
    /// A part of a polygon: an edge and the center.
    Node,
}

/// Something that is drawn.
#[derive(Clone, Copy, PartialEq, Eq, Structural, Debug)]
pub enum Shape {
    Point(PointType, Vec3),
    Line(LineType, Vec3, Vec3),
    Triangle(TriangleType, Vec3, Vec3, Vec3),
}

/// Something to draw on. What has been drawn is kept in order.
pub trait DebugDrawer {
    /// What has been drawn so far.
    spec fn drawn(&self) -> Seq<Shape>;

    /// Draws a point.
    fn add_point(&mut self, point_type: PointType, point: Vec3)
        ensures
            final(self).drawn() == old(self).drawn().push(Shape::Point(point_type, point)),
    ;

    /// Draws a line.
    fn add_line(&mut self, line_type: LineType, line: [Vec3; 2])
        ensures
            final(self).drawn() == old(self).drawn().push(Shape::Line(line_type, line[0], line[1])),
    ;

    /// Draws a triangle.
    fn add_triangle(&mut self, triangle_type: TriangleType, triangle: [Vec3; 3])
        ensures
            final(self).drawn() == old(self).drawn().push(
                Shape::Triangle(triangle_type, triangle[0], triangle[1], triangle[2]),
            ),
    ;
}

/// A drawer that keeps what is drawn.
pub struct RecordingDrawer {
    /// What has been drawn, in order.
    pub shapes: Vec<Shape>,
}

impl RecordingDrawer {
    /// A drawer on which nothing has been drawn.
    pub fn new() -> (r: RecordingDrawer)
        ensures
            r.drawn() == Seq::<Shape>::empty(),
    {
        RecordingDrawer { shapes: Vec::new() }
    }
}

impl DebugDrawer for RecordingDrawer {
    open spec fn drawn(&self) -> Seq<Shape> {
        self.shapes@
    }

    fn add_point(&mut self, point_type: PointType, point: Vec3) {
        self.shapes.push(Shape::Point(point_type, point));
    }

    fn add_line(&mut self, line_type: LineType, line: [Vec3; 2]) {
        self.shapes.push(Shape::Line(line_type, line[0], line[1]));
    }

    fn add_triangle(&mut self, triangle_type: TriangleType, triangle: [Vec3; 3]) {
        self.shapes.push(Shape::Triangle(triangle_type, triangle[0], triangle[1], triangle[2]));
    }
}

/// Corner `i` of polygon `p` of the island with the navigation data `data`,
/// in the world.
pub open(crate) spec fn corner_in_world(data: IslandNavigationData, p: int, i: int) -> Vec3 {
    data.transform.apply_spec(data.nav_mesh.points()[data.nav_mesh.polys()[p][i] as int])
}

/// What is drawn for edge `i` of polygon `p`: the triangle of the edge and
/// the center of the polygon; and the edge, as a boundary edge or as an edge
/// between polygons, unless it leads to a polygon with a lesser index, with
/// which it has been drawn.
pub open(crate) spec fn edge_shapes(data: IslandNavigationData, p: int, i: int) -> Seq<Shape> {
    let n = data.nav_mesh.polys()[p].len() as int;
    let from = corner_in_world(data, p, i);
    let to = corner_in_world(data, p, next_index(n, i));
    let center = data.transform.apply_spec(data.nav_mesh.center(p));
    let triangle = seq![Shape::Triangle(TriangleType::Node, from, to, center)];
    match data.nav_mesh.link(p, i) {
        None => triangle.push(Shape::Line(LineType::BoundaryEdge, from, to)),
        Some(way) => {
            if p > way.polygon_index {
                triangle
            } else {
                triangle.push(Shape::Line(LineType::ConnectivityEdge, from, to))
            }
        },
    }
}

/// What is drawn for the first `n` edges of polygon `p`.
pub open(crate) spec fn polygon_shapes(data: IslandNavigationData, p: int, n: int) -> Seq<Shape>
    decreases n,
{
    if n <= 0 {
        Seq::empty()
    } else {
        polygon_shapes(data, p, n - 1) + edge_shapes(data, p, n - 1)
    }
}

/// What is drawn for the first `n` polygons of a mesh.
pub open(crate) spec fn mesh_shapes(data: IslandNavigationData, n: int) -> Seq<Shape>
    decreases n,
{
    if n <= 0 {
        Seq::empty()
    } else {
        mesh_shapes(data, n - 1) + polygon_shapes(
            data,
            n - 1,
            data.nav_mesh.polys()[n - 1].len() as int,
        )
    }
}

/// What is drawn for the first `n` islands.
pub open(crate) spec fn island_shapes(nav: &NavigationData, n: int) -> Seq<Shape>
    decreases n,
{
    if n <= 0 {
        Seq::empty()
    } else {
        let island = nav.islands.values()[n - 1].island;
        island_shapes(nav, n - 1) + (if island.has_nav_data() {
            mesh_shapes(island.nav_data->0, island.mesh().polys().len() as int)
        } else {
            Seq::empty()
        })
    }
}

/// Whether `a` comes after `b`: on an island with a greater id, or on the
/// same island with a greater index.
pub open spec fn node_after(a: NodeRef, b: NodeRef) -> bool {
    a.island_id.0 > b.island_id.0 || (a.island_id.0 == b.island_id.0 && a.polygon_index
        > b.polygon_index)
}

/// What is drawn for the first `n` links: the portal of every link but
/// those that lead to a node that comes before their source, whose portal
/// is drawn with the link back.
pub open(crate) spec fn link_shapes(nav: &NavigationData, n: int) -> Seq<Shape>
    decreases n,
{
    if n <= 0 {
        Seq::empty()
    } else {
        let link = nav.boundary_links.values()[n - 1];
        if node_after(link.source_node, link.destination_node) {
            link_shapes(nav, n - 1)
        } else {
            link_shapes(nav, n - 1).push(
                Shape::Line(LineType::BoundaryLink, link.portal.0, link.portal.1),
            )
        }
    }
}

/// The steps of a path through the nodes `nodes`, as lines from center to
/// center: the first `n` of them.
pub open(crate) spec fn corridor_shapes(
    nav: &NavigationData,
    id: AgentId,
    nodes: Seq<NodeRef>,
    n: int,
) -> Seq<Shape>
    decreases n,
{
    if n <= 0 {
        Seq::empty()
    } else {
        corridor_shapes(nav, id, nodes, n - 1).push(
            Shape::Line(
                LineType::AgentCorridor(id),
                world_center(nav.islands, nodes[n - 1]),
                world_center(nav.islands, nodes[n]),
            ),
        )
    }
}

/// The next corner of the straight path of an agent along `path`, where the
/// agent has a target, both are on the islands, and the agent goes on with
/// the path.
pub open(crate) spec fn next_corner(
    nav: &NavigationData,
    agent: Agent,
    path: &Path,
    distance: u32,
) -> Option<Vec3> {
    if agent.current_target is None {
        None
    } else {
        match (nav.sample(agent.position, distance), nav.sample(agent.current_target->0, distance)) {
            (Some(from), Some(to)) => match locate(path, from.1, to.1) {
                Some(places) => Some(
                    path.next_straight_point(nav, places.0, from.0, places.1, to.0).1,
                ),
                None => None,
            },
            _ => None,
        }
    }
}

/// What is drawn for the path of an agent, where the links are up to date
/// and the path is a way through the archipelago as it is: its steps; and,
/// where the agent and its target are on the islands and the agent goes on
/// with the path, the line to the next corner of its straight path, and
/// that corner.
pub open(crate) spec fn path_shapes(
    nav: &NavigationData,
    id: AgentId,
    agent: Agent,
    path: &Path,
    distance: u32,
) -> Seq<Shape> {
    let steps = corridor_shapes(nav, id, path.nodes(), path.nodes().len() - 1);
    match next_corner(nav, agent, path, distance) {
        Some(waypoint) => steps.push(
            Shape::Line(LineType::Waypoint(id), agent.position, waypoint),
        ).push(Shape::Point(PointType::Waypoint(id), waypoint)),
        None => steps,
    }
}

/// What is drawn for an agent: where it is; the line to its target, and the
/// target; and its path.
pub open(crate) spec fn agent_shapes(
    nav: &NavigationData,
    id: AgentId,
    agent: Agent,
    distance: u32,
) -> Seq<Shape> {
    let position = seq![Shape::Point(PointType::AgentPosition(id), agent.position)];
    let target = match agent.current_target {
        Some(target) => seq![
            Shape::Line(LineType::Target(id), agent.position, target),
            Shape::Point(PointType::TargetPosition(id), target),
        ],
        None => Seq::empty(),
    };
    let path = if agent.current_path is Some && !nav.is_dirty() && agent.current_path->0.valid_in(
        nav,
    ) {
        path_shapes(nav, id, agent, &agent.current_path->0, distance)
    } else {
        Seq::empty()
    };
    position + target + path
}

/// What is drawn for the first `n` agents.
pub open(crate) spec fn agents_shapes(archipelago: &Archipelago, n: int) -> Seq<Shape>
    decreases n,
{
    if n <= 0 {
        Seq::empty()
    } else {
        agents_shapes(archipelago, n - 1) + agent_shapes(
            &archipelago.nav_data,
            AgentId(archipelago.agents.ids()[n - 1]),
            archipelago.agents.values()[n - 1],
            archipelago.agent_options.node_sample_distance,
        )
    }
}

/// What is drawn for an archipelago: the islands, then the links, then the
/// agents.
pub open(crate) spec fn archipelago_shapes(archipelago: &Archipelago) -> Seq<Shape> {
    island_shapes(&archipelago.nav_data, archipelago.nav_data.islands.values().len() as int)
        + link_shapes(
        &archipelago.nav_data,
        archipelago.nav_data.boundary_links.values().len() as int,
    ) + agents_shapes(archipelago, archipelago.agents.values().len() as int)
}

/// Draws the polygons of the island with the navigation data `data`.
fn draw_mesh<D: DebugDrawer>(data: &IslandNavigationData, drawer: &mut D)
    requires
        data.wf(),
    ensures
        final(drawer).drawn() == old(drawer).drawn() + mesh_shapes(
            *data,
            data.nav_mesh.polys().len() as int,
        ),
{
    let mesh = &data.nav_mesh;
    let ghost start = drawer.drawn();
    let total: usize = mesh.polygon_count();
    let mut p: usize = 0;
    proof {
        assert(start + mesh_shapes(*data, 0) =~= start);
    }
    while p < total
        invariant
            data.wf(),
            mesh == &data.nav_mesh,
            p <= total,
            total == mesh.polys().len(),
            drawer.drawn() == start + mesh_shapes(*data, p as int),
        decreases total - p,
    {
        let n: usize = mesh.polygon_len(p);
        let center = data.transform.apply(mesh.get_center(p));
        let ghost before = drawer.drawn();
        let mut i: usize = 0;
        proof {
            assert(before + polygon_shapes(*data, p as int, 0) =~= before);
        }
        while i < n
            invariant
                data.wf(),
                mesh == &data.nav_mesh,
                p < total,
                total == mesh.polys().len(),
                i <= n,
                n == mesh.polys()[p as int].len(),
                center == data.transform.apply_spec(mesh.center(p as int)),
                drawer.drawn() == before + polygon_shapes(*data, p as int, i as int),
            decreases n - i,
        {
            let j: usize = if i + 1 >= n {
                0
            } else {
                i + 1
            };
            let from = data.transform.apply(mesh.get_corner(p, i));
            let to = data.transform.apply(mesh.get_corner(p, j));
            let ghost here = drawer.drawn();
            drawer.add_triangle(TriangleType::Node, [from, to, center]);
            match mesh.get_connectivity(p, i) {
                None => {
                    drawer.add_line(LineType::BoundaryEdge, [from, to]);
                },
                Some(way) => {
                    if p <= way.polygon_index {
                        drawer.add_line(LineType::ConnectivityEdge, [from, to]);
                    }
                },
            }
            proof {
                assert(drawer.drawn() =~= here + edge_shapes(*data, p as int, i as int));
                assert(drawer.drawn() =~= before + polygon_shapes(*data, p as int, i as int + 1));
            }
            i = i + 1;
        }
        proof {
            assert(drawer.drawn() =~= start + mesh_shapes(*data, p as int + 1));
        }
        p = p + 1;
    }
}

/// The center of `node`, in the world.
fn center_in_world(nav_data: &NavigationData, node: NodeRef) -> (r: Vec3)
    requires
        nav_data.wf(),
        nav_data.has_node(node),
    ensures
        r == world_center(nav_data.islands, node),
{
    match nav_data.islands.get(node.island_id.0) {
        Some(slot) => match &slot.island.nav_data {
            Some(data) => data.transform.apply(data.nav_mesh.get_center(node.polygon_index)),
            None => Vec3::zero(),
        },
        None => Vec3::zero(),
    }
}

/// The nodes that `path` passes through, in order.
fn collect_nodes(path: &Path, Ghost(nav): Ghost<&NavigationData>) -> (r: Vec<NodeRef>)
    requires
        path.valid_in(nav),
    ensures
        r@ == path.nodes(),
        r.len() >= 1,
        forall|k: int| 0 <= k < r.len() ==> node_in(nav.islands, #[trigger] r[k]),
{
    let mut nodes: Vec<NodeRef> = Vec::new();
    let ghost segments = path.island_segments@;
    let mut s: usize = 0;
    proof {
        assert(segments.take(0) =~= Seq::<IslandSegment>::empty());
        assert(nodes_of(Seq::<IslandSegment>::empty()) =~= Seq::<NodeRef>::empty());
    }
    while s < path.island_segments.len()
        invariant
            path.valid_in(nav),
            segments == path.island_segments@,
            s <= path.island_segments.len(),
            nodes@ == nodes_of(segments.take(s as int)),
            s >= 1 ==> nodes.len() >= 1,
            forall|k: int| 0 <= k < nodes.len() ==> node_in(nav.islands, #[trigger] nodes[k]),
        decreases path.island_segments.len() - s,
    {
        let segment = &path.island_segments[s];
        assert(path.segment_valid(nav, s as int));
        let ghost before = nodes@;
        let mut c: usize = 0;
        proof {
            assert(before + segment_nodes(*segment).take(0) =~= before);
        }
        while c < segment.corridor.len()
            invariant
                c <= segment.corridor.len(),
                segment_ok(nav, *segment),
                nodes@ == before + segment_nodes(*segment).take(c as int),
                forall|k: int| 0 <= k < before.len() ==> node_in(nav.islands, #[trigger] before[k]),
            decreases segment.corridor.len() - c,
        {
            let node = NodeRef { island_id: segment.island_id, polygon_index: segment.corridor[c] };
            nodes.push(node);
            proof {
                assert(node == segment_node(*segment, c as int));
                assert(nodes@ =~= before + segment_nodes(*segment).take(c as int + 1));
            }
            c = c + 1;
        }
        proof {
            assert(segment_nodes(*segment).take(segment.corridor.len() as int) =~= segment_nodes(
                *segment,
            ));
            assert(segments.take(s as int + 1).drop_last() =~= segments.take(s as int));
            assert(segments.take(s as int + 1).last() == *segment);
            assert forall|k: int| 0 <= k < nodes.len() implies node_in(
                nav.islands,
                #[trigger] nodes[k],
            ) by {
                if k >= before.len() {
                    assert(nodes[k] == segment_node(*segment, k - before.len()));
                }
            }
        }
        s = s + 1;
    }
    proof {
        assert(segments.take(segments.len() as int) =~= segments);
    }
    nodes
}

/// Draws the steps of the path of an agent.
fn draw_corridor<D: DebugDrawer>(nav_data: &NavigationData, id: AgentId, path: &Path, drawer: &mut D)
    requires
        nav_data.wf(),
        path.valid_in(nav_data),
    ensures
        final(drawer).drawn() == old(drawer).drawn() + corridor_shapes(
            nav_data,
            id,
            path.nodes(),
            path.nodes().len() - 1,
        ),
{
    let ghost start = drawer.drawn();
    let nodes = collect_nodes(path, Ghost(nav_data));
    let mut previous = center_in_world(nav_data, nodes[0]);
    let mut k: usize = 1;
    proof {
        assert(start + corridor_shapes(nav_data, id, nodes@, 0) =~= start);
    }
    while k < nodes.len()
        invariant
            nav_data.wf(),
            1 <= k <= nodes.len(),
            forall|j: int| 0 <= j < nodes.len() ==> node_in(nav_data.islands, #[trigger] nodes[j]),
            previous == world_center(nav_data.islands, nodes[k - 1]),
            drawer.drawn() == start + corridor_shapes(nav_data, id, nodes@, k - 1),
        decreases nodes.len() - k,
    {
        let center = center_in_world(nav_data, nodes[k]);
        drawer.add_line(LineType::AgentCorridor(id), [previous, center]);
        proof {
            assert(drawer.drawn() =~= start + corridor_shapes(nav_data, id, nodes@, k as int));
        }
        previous = center;
        k = k + 1;
    }
}

/// The next corner of the straight path of an agent along `path`, if the
/// agent is on it.
fn find_next_corner(nav_data: &NavigationData, agent: &Agent, path: &Path, distance: u32) -> (r:
    Option<Vec3>)
    requires
        nav_data.wf(),
        path.valid_in(nav_data),
    ensures
        r == next_corner(nav_data, *agent, path, distance),
{
    let target = match agent.current_target {
        Some(target) => target,
        None => {
            return None;
        },
    };
    let from = match nav_data.sample_point(agent.position, distance) {
        Some(from) => from,
        None => {
            return None;
        },
    };
    let to = match nav_data.sample_point(target, distance) {
        Some(to) => to,
        None => {
            return None;
        },
    };
    match locate_on(path, from.1, to.1) {
        Some(places) => Some(
            path.find_next_point_in_straight_path(nav_data, places.0, from.0, places.1, to.0).1,
        ),
        None => None,
    }
}

/// Draws the path of an agent.
fn draw_path<D: DebugDrawer>(
    nav_data: &NavigationData,
    id: AgentId,
    agent: &Agent,
    path: &Path,
    distance: u32,
    drawer: &mut D,
)
    requires
        nav_data.wf(),
        !nav_data.is_dirty(),
        path.valid_in(nav_data),
    ensures
        final(drawer).drawn() == old(drawer).drawn() + path_shapes(
            nav_data,
            id,
            *agent,
            path,
            distance,
        ),
{
    let ghost start = drawer.drawn();
    draw_corridor(nav_data, id, path, drawer);
    match find_next_corner(nav_data, agent, path, distance) {
        Some(waypoint) => {
            drawer.add_line(LineType::Waypoint(id), [agent.position, waypoint]);
            drawer.add_point(PointType::Waypoint(id), waypoint);
        },
        None => {},
    }
    proof {
        assert(drawer.drawn() =~= start + path_shapes(nav_data, id, *agent, path, distance));
    }
}

/// Draws an archipelago: every polygon of every island, the portals of the
/// links, and every agent with its target and its path.
pub fn draw_archipelago_debug<D: DebugDrawer>(archipelago: &Archipelago, debug_drawer: &mut D)
    requires
        archipelago.wf(),
    ensures
        final(debug_drawer).drawn() == old(debug_drawer).drawn() + archipelago_shapes(archipelago),
{
    let nav = &archipelago.nav_data;
    let ghost start = debug_drawer.drawn();
    let islands: usize = nav.islands.values.len();
    let mut k: usize = 0;
    proof {
        assert(start + island_shapes(nav, 0) =~= start);
    }
    while k < islands
        invariant
            archipelago.wf(),
            nav == &archipelago.nav_data,
            k <= islands,
            islands == nav.islands.values().len(),
            debug_drawer.drawn() == start + island_shapes(nav, k as int),
        decreases islands - k,
    {
        let ghost before = debug_drawer.drawn();
        assert(nav.islands.values()[k as int].island.wf());
        match &nav.islands.values[k].island.nav_data {
            Some(data) => {
                draw_mesh(data, debug_drawer);
            },
            None => {},
        }
        proof {
            assert(debug_drawer.drawn() =~= start + island_shapes(nav, k as int + 1));
        }
        k = k + 1;
    }
    let ghost after_islands = debug_drawer.drawn();
    let links: usize = nav.boundary_links.values.len();
    let mut l: usize = 0;
    proof {
        assert(after_islands + link_shapes(nav, 0) =~= after_islands);
    }
    while l < links
        invariant
            archipelago.wf(),
            nav == &archipelago.nav_data,
            l <= links,
            links == nav.boundary_links.values().len(),
            debug_drawer.drawn() == after_islands + link_shapes(nav, l as int),
        decreases links - l,
    {
        let link = nav.boundary_links.values[l];
        let a = link.source_node;
        let b = link.destination_node;
        let after: bool = a.island_id.0 > b.island_id.0 || (a.island_id.0 == b.island_id.0
            && a.polygon_index > b.polygon_index);
        if !after {
            debug_drawer.add_line(LineType::BoundaryLink, [link.portal.0, link.portal.1]);
        }
        proof {
            assert(debug_drawer.drawn() =~= after_islands + link_shapes(nav, l as int + 1));
        }
        l = l + 1;
    }
    let ghost after_links = debug_drawer.drawn();
    let agents: usize = archipelago.agents.values.len();
    let distance: u32 = archipelago.agent_options.node_sample_distance;
    let mut n: usize = 0;
    proof {
        assert(after_links + agents_shapes(archipelago, 0) =~= after_links);
    }
    while n < agents
        invariant
            archipelago.wf(),
            nav == &archipelago.nav_data,
            n <= agents,
            agents == archipelago.agents.values().len(),
            distance == archipelago.agent_options.node_sample_distance,
            debug_drawer.drawn() == after_links + agents_shapes(archipelago, n as int),
        decreases agents - n,
    {
        let id = AgentId(archipelago.agents.ids[n]);
        let agent = &archipelago.agents.values[n];
        let ghost before = debug_drawer.drawn();
        debug_drawer.add_point(PointType::AgentPosition(id), agent.position);
        match agent.current_target {
            Some(target) => {
                debug_drawer.add_line(LineType::Target(id), [agent.position, target]);
                debug_drawer.add_point(PointType::TargetPosition(id), target);
            },
            None => {},
        }
        let ghost middle = debug_drawer.drawn();
        match &agent.current_path {
            Some(path) => {
                if !nav.dirty() && path.is_valid(nav) {
                    draw_path(nav, id, agent, path, distance, debug_drawer);
                }
            },
            None => {},
        }
        proof {
            assert(debug_drawer.drawn() =~= before + agent_shapes(nav, id, *agent, distance));
            assert(debug_drawer.drawn() =~= after_links + agents_shapes(archipelago, n as int + 1));
        }
        n = n + 1;
    }
    proof {
        assert(debug_drawer.drawn() =~= start + archipelago_shapes(archipelago));
    }
}

} // verus!
