//! Navigation meshes: the polygons as they are given, and the validated form
//! with the connectivity and the measures derived from them.

use vstd::prelude::*;
use crate::math::{
    area2, dist_ceil, dist_sq, div_round, div_round_signed, div_rounded, mul_scaled, mul_wide,
    sat32, saturate, triangle_area_2, Vec3,
};
use crate::util::BoundingBox;

verus! {

/// A navigation mesh as it is given: vertices, and polygons that index them.
pub struct NavigationMesh {
    /// The bounds of the mesh. `None` asks for the tight bounds of the
    /// vertices.
    pub mesh_bounds: Option<BoundingBox>,
    /// The vertices that the polygons index.
    pub vertices: Vec<Vec3>,
    /// The polygons, each a list of indices into `vertices`. A polygon must be
    /// convex, and counterclockwise when seen from above.
    pub polygons: Vec<Vec<usize>>,
    /// The type index of each polygon. A polygon past the end of this list has
    /// no type index.
    pub polygon_type_indices: Vec<usize>,
}

/// Why a navigation mesh is not valid.
#[derive(Clone, Copy, PartialEq, Eq, Structural, Debug)]
pub enum ValidationError {
    /// A polygon turns right at one of its corners. Holds the polygon's index.
    ConcavePolygon(usize),
    /// A polygon has fewer than three vertices. Holds the polygon's index.
    NotEnoughVerticesInPolygon(usize),
    /// A polygon names a vertex that does not exist. Holds the polygon's
    /// index.
    InvalidVertexIndexInPolygon(usize),
    /// A polygon has an edge from a vertex to itself. Holds the polygon's
    /// index.
    DegenerateEdgeInPolygon(usize),
    /// An edge is used more than twice. Holds the two vertices of the edge,
    /// the smaller index first.
    DoublyConnectedEdge(usize, usize),
}

/// Where an edge of a polygon leads.
#[derive(Clone, Copy, PartialEq, Eq, Debug)]
pub struct Connectivity {
    /// The polygon on the other side of the edge.
    pub polygon_index: usize,
    /// The distance from this polygon's center to the middle of the edge, and
    /// from there to the center of the other polygon, each rounded up.
    pub travel_distances: (u64, u64),
}

/// An edge of a polygon of a mesh.
#[derive(Clone, Copy, PartialEq, Eq, Structural, Debug, Hash, Default)]
pub struct MeshEdgeRef {
    /// The polygon that the edge belongs to.
    pub polygon_index: usize,
    /// The index of the edge in the polygon: the edge runs from the vertex
    /// with this index to the next one.
    pub edge_index: usize,
}

/// A polygon of a validated mesh.
pub struct ValidPolygon {
    /// Indices into the mesh's vertices.
    pub(crate) vertices: Vec<usize>,
    /// For each edge, where it leads; `None` on the boundary of the mesh.
    pub(crate) connectivity: Vec<Option<Connectivity>>,
    /// The bounds of the polygon's vertices.
    pub(crate) bounds: BoundingBox,
    /// The mean of the polygon's vertices.
    pub(crate) center: Vec3,
    /// The polygon's type index, if it has one.
    pub(crate) type_index: Option<usize>,
}

impl ValidPolygon {
    /// The indices of the two vertices of edge `edge`: where it begins, and
    /// where it ends, which is where the next edge begins.
    pub(crate) fn get_edge_indices(&self, edge: usize) -> (r: (usize, usize))
        requires
            edge < self.vertices.len(),
        ensures
            r.0 == self.vertices[edge as int],
            r.1 == self.vertices[next_index(self.vertices.len() as int, edge as int)],
    {
        let next: usize = if edge == self.vertices.len() - 1 {
            0
        } else {
            edge + 1
        };
        (self.vertices[edge], self.vertices[next])
    }
}

/// A navigation mesh that has been validated, with its derived data.
pub struct ValidNavigationMesh {
    pub(crate) mesh_bounds: BoundingBox,
    pub(crate) vertices: Vec<Vec3>,
    pub(crate) polygons: Vec<ValidPolygon>,
    pub(crate) boundary_edges: Vec<MeshEdgeRef>,
}

/// The index after `i` around a polygon of `n` vertices.
pub open spec fn next_index(n: int, i: int) -> int {
    if i + 1 >= n {
        0
    } else {
        i + 1
    }
}

/// The index before `i` around a polygon of `n` vertices.
pub open spec fn prev_index(n: int, i: int) -> int {
    if i <= 0 {
        n - 1
    } else {
        i - 1
    }
}

/// The two vertices of edge `i` of `polygon`, the smaller index first: what
/// identifies an edge whatever the direction it is walked in.
pub open spec fn edge_key(polygon: Seq<usize>, i: int) -> (usize, usize) {
    let a = polygon[i];
    let b = polygon[next_index(polygon.len() as int, i)];
    if a < b {
        (a, b)
    } else {
        (b, a)
    }
}

/// `(p, i)` names an edge: polygon `p` exists and has an edge `i`.
pub open spec fn is_position(polygons: Seq<Seq<usize>>, p: int, i: int) -> bool {
    0 <= p < polygons.len() && 0 <= i < polygons[p].len()
}

/// Edge `(q, j)` comes before edge `(p, i)` when the polygons are read in
/// order, each edge by edge.
pub open spec fn precedes(q: int, j: int, p: int, i: int) -> bool {
    q < p || (q == p && j < i)
}

/// The edges `(p, i)` and `(q, j)` are two different edges between the same
/// two vertices.
pub open spec fn shares_edge(polygons: Seq<Seq<usize>>, p: int, i: int, q: int, j: int) -> bool {
    &&& is_position(polygons, p, i)
    &&& is_position(polygons, q, j)
    &&& (p != q || i != j)
    &&& edge_key(polygons[p], i) == edge_key(polygons[q], j)
}

/// Two edges before `(p, i)` already run between the vertices of `(p, i)`.
pub open spec fn doubly_connected_at(polygons: Seq<Seq<usize>>, p: int, i: int) -> bool {
    exists|q1: int, j1: int, q2: int, j2: int|
        precedes(q1, j1, q2, j2) && precedes(q2, j2, p, i) && #[trigger] shares_edge(
            polygons,
            p,
            i,
            q1,
            j1,
        ) && #[trigger] shares_edge(polygons, p, i, q2, j2)
}

/// The polygon turns right at corner `i`, seen from above.
pub open spec fn concave_at(vertices: Seq<Vec3>, polygon: Seq<usize>, i: int) -> bool {
    let n = polygon.len() as int;
    area2(
        vertices[polygon[i] as int],
        vertices[polygon[next_index(n, i)] as int],
        vertices[polygon[prev_index(n, i)] as int],
    ) < 0
}

/// Every index of the polygon names a vertex.
pub open spec fn indices_valid(vertices: Seq<Vec3>, polygon: Seq<usize>) -> bool {
    forall|k: int| 0 <= k < polygon.len() ==> (#[trigger] polygon[k]) < vertices.len()
}

/// What is wrong at edge `i` of polygon `p`, if anything: a degenerate edge,
/// else an edge used for the third time, else a right turn at its first
/// vertex.
pub open spec fn edge_fault(
    vertices: Seq<Vec3>,
    polygons: Seq<Seq<usize>>,
    p: int,
    i: int,
) -> Option<ValidationError> {
    let key = edge_key(polygons[p], i);
    if key.0 == key.1 {
        Some(ValidationError::DegenerateEdgeInPolygon(p as usize))
    } else if doubly_connected_at(polygons, p, i) {
        Some(ValidationError::DoublyConnectedEdge(key.0, key.1))
    } else if concave_at(vertices, polygons[p], i) {
        Some(ValidationError::ConcavePolygon(p as usize))
    } else {
        None
    }
}

/// The first thing wrong among the first `n` edges of polygon `p`.
pub open spec fn edges_fault(
    vertices: Seq<Vec3>,
    polygons: Seq<Seq<usize>>,
    p: int,
    n: int,
) -> Option<ValidationError>
    decreases n,
{
    if n <= 0 {
        None
    } else {
        match edges_fault(vertices, polygons, p, n - 1) {
            Some(e) => Some(e),
            None => edge_fault(vertices, polygons, p, n - 1),
        }
    }
}

/// The first thing wrong with polygon `p`: too few vertices, else a vertex
/// that does not exist, else the first fault of its edges.
pub open spec fn polygon_fault(
    vertices: Seq<Vec3>,
    polygons: Seq<Seq<usize>>,
    p: int,
) -> Option<ValidationError> {
    if polygons[p].len() < 3 {
        Some(ValidationError::NotEnoughVerticesInPolygon(p as usize))
    } else if !indices_valid(vertices, polygons[p]) {
        Some(ValidationError::InvalidVertexIndexInPolygon(p as usize))
    } else {
        edges_fault(vertices, polygons, p, polygons[p].len() as int)
    }
}

/// The first thing wrong among the first `n` polygons.
pub open spec fn mesh_fault(
    vertices: Seq<Vec3>,
    polygons: Seq<Seq<usize>>,
    n: int,
) -> Option<ValidationError>
    decreases n,
{
    if n <= 0 {
        None
    } else {
        match mesh_fault(vertices, polygons, n - 1) {
            Some(e) => Some(e),
            None => polygon_fault(vertices, polygons, n - 1),
        }
    }
}

/// The smallest box that holds the first `n` of `points`.
pub open spec fn points_bounds(points: Seq<Vec3>, n: int) -> BoundingBox
    decreases n,
{
    if n <= 0 {
        BoundingBox::Empty
    } else {
        points_bounds(points, n - 1).expanded_to_point(points[n - 1])
    }
}

/// The points that a polygon's indices name.
pub open spec fn polygon_points(vertices: Seq<Vec3>, polygon: Seq<usize>) -> Seq<Vec3> {
    Seq::new(polygon.len(), |k: int| vertices[polygon[k] as int])
}

/// The sum of the `x` coordinates of the first `n` of `points`.
pub open spec fn sum_x(points: Seq<Vec3>, n: int) -> int
    decreases n,
{
    if n <= 0 {
        0
    } else {
        sum_x(points, n - 1) + points[n - 1].x
    }
}

/// The sum of the `y` coordinates of the first `n` of `points`.
pub open spec fn sum_y(points: Seq<Vec3>, n: int) -> int
    decreases n,
{
    if n <= 0 {
        0
    } else {
        sum_y(points, n - 1) + points[n - 1].y
    }
}

/// The sum of the `z` coordinates of the first `n` of `points`.
pub open spec fn sum_z(points: Seq<Vec3>, n: int) -> int
    decreases n,
{
    if n <= 0 {
        0
    } else {
        sum_z(points, n - 1) + points[n - 1].z
    }
}

/// The mean of `points`, each coordinate rounded to the lattice. There must
/// be at least one point.
pub open spec fn mean_point(points: Seq<Vec3>) -> Vec3 {
    let n = points.len() as int;
    Vec3 {
        x: sat32(div_round(sum_x(points, n), n)) as i32,
        y: sat32(div_round(sum_y(points, n), n)) as i32,
        z: sat32(div_round(sum_z(points, n), n)) as i32,
    }
}

/// The point halfway between `a` and `b`, each coordinate rounded to the
/// lattice.
pub open spec fn midpoint(a: Vec3, b: Vec3) -> Vec3 {
    Vec3 {
        x: div_round(a.x + b.x, 2) as i32,
        y: div_round(a.y + b.y, 2) as i32,
        z: div_round(a.z + b.z, 2) as i32,
    }
}

/// The distances that crossing an edge is counted with: from the center of
/// the polygon left to the middle of the edge between `a` and `b`, and from
/// there to the center of the polygon entered, each rounded up.
pub open spec fn travel_distances(from: Vec3, a: Vec3, b: Vec3, to: Vec3) -> (u64, u64) {
    let m = midpoint(a, b);
    (dist_ceil(from, m) as u64, dist_ceil(m, to) as u64)
}

/// The tight bounds of `points`.
pub fn bounds_of_points(points: &Vec<Vec3>) -> (r: BoundingBox)
    ensures
        r == points_bounds(points@, points.len() as int),
        r.wf(),
{
    let mut bounds = BoundingBox::Empty;
    let mut k: usize = 0;
    while k < points.len()
        invariant
            k <= points.len(),
            bounds == points_bounds(points@, k as int),
            bounds.wf(),
        decreases points.len() - k,
    {
        bounds = bounds.expand_to_point(points[k]);
        k = k + 1;
    }
    bounds
}

/// The point halfway between `a` and `b`.
pub fn midpoint_of(a: Vec3, b: Vec3) -> (r: Vec3)
    ensures
        r == midpoint(a, b),
{
    let x: i128 = div_rounded(a.x as i128 + b.x as i128, 2);
    let y: i128 = div_rounded(a.y as i128 + b.y as i128, 2);
    let z: i128 = div_rounded(a.z as i128 + b.z as i128, 2);
    proof {
        lemma_midpoint_in_range(a.x as int, b.x as int);
        lemma_midpoint_in_range(a.y as int, b.y as int);
        lemma_midpoint_in_range(a.z as int, b.z as int);
    }
    Vec3 { x: x as i32, y: y as i32, z: z as i32 }
}

/// The rounded mean of two 32-bit integers is a 32-bit integer.
pub proof fn lemma_midpoint_in_range(a: int, b: int)
    requires
        i32::MIN <= a <= i32::MAX,
        i32::MIN <= b <= i32::MAX,
    ensures
        i32::MIN <= div_round(a + b, 2) <= i32::MAX,
        a <= b ==> a <= div_round(a + b, 2) <= b,
        b <= a ==> b <= div_round(a + b, 2) <= a,
{
    let n = 2 * (a + b) + 2;
    vstd::arithmetic::div_mod::lemma_fundamental_div_mod(n, 4);
}

/// The tight bounds of the points that `polygon` names.
fn bounds_of_polygon(vertices: &Vec<Vec3>, polygon: &Vec<usize>) -> (r: BoundingBox)
    requires
        indices_valid(vertices@, polygon@),
    ensures
        r == points_bounds(polygon_points(vertices@, polygon@), polygon.len() as int),
        r.wf(),
{
    let ghost points = polygon_points(vertices@, polygon@);
    let mut bounds = BoundingBox::Empty;
    let mut k: usize = 0;
    while k < polygon.len()
        invariant
            k <= polygon.len(),
            indices_valid(vertices@, polygon@),
            points == polygon_points(vertices@, polygon@),
            bounds == points_bounds(points, k as int),
            bounds.wf(),
        decreases polygon.len() - k,
    {
        bounds = bounds.expand_to_point(vertices[polygon[k]]);
        k = k + 1;
    }
    bounds
}

/// The sums of coordinates of at most `n` points stay within `n` times the
/// range of a coordinate.
proof fn lemma_sums_bounded(points: Seq<Vec3>, n: int)
    requires
        0 <= n <= points.len(),
    ensures
        -n * 0x8000_0000 <= sum_x(points, n) <= n * 0x8000_0000,
        -n * 0x8000_0000 <= sum_y(points, n) <= n * 0x8000_0000,
        -n * 0x8000_0000 <= sum_z(points, n) <= n * 0x8000_0000,
    decreases n,
{
    if n > 0 {
        lemma_sums_bounded(points, n - 1);
        assert(n * 0x8000_0000 == (n - 1) * 0x8000_0000 + 0x8000_0000) by (nonlinear_arith);
    }
}

/// The mean of the points that `polygon` names.
fn center_of_polygon(vertices: &Vec<Vec3>, polygon: &Vec<usize>) -> (r: Vec3)
    requires
        indices_valid(vertices@, polygon@),
        polygon.len() > 0,
    ensures
        r == mean_point(polygon_points(vertices@, polygon@)),
{
    let ghost points = polygon_points(vertices@, polygon@);
    let mut sx: i128 = 0;
    let mut sy: i128 = 0;
    let mut sz: i128 = 0;
    let mut k: usize = 0;
    while k < polygon.len()
        invariant
            k <= polygon.len(),
            indices_valid(vertices@, polygon@),
            points == polygon_points(vertices@, polygon@),
            sx == sum_x(points, k as int),
            sy == sum_y(points, k as int),
            sz == sum_z(points, k as int),
        decreases polygon.len() - k,
    {
        proof {
            lemma_sums_bounded(points, k as int);
            assert(k * 0x8000_0000 <= 0xffff_ffff_ffff_ffff * 0x8000_0000) by (nonlinear_arith)
                requires
                    k <= 0xffff_ffff_ffff_ffff,
            ;
        }
        let v = vertices[polygon[k]];
        sx = sx + v.x as i128;
        sy = sy + v.y as i128;
        sz = sz + v.z as i128;
        k = k + 1;
    }
    proof {
        lemma_sums_bounded(points, k as int);
        assert(k * 0x8000_0000 <= 0xffff_ffff_ffff_ffff * 0x8000_0000) by (nonlinear_arith)
            requires
                k <= 0xffff_ffff_ffff_ffff,
        ;
    }
    let n: i128 = polygon.len() as i128;
    Vec3 {
        x: saturate(div_rounded(sx, n)),
        y: saturate(div_rounded(sy, n)),
        z: saturate(div_rounded(sz, n)),
    }
}

/// The first use of an edge met while the polygons are read, filed under the
/// smaller of the edge's two vertices.
#[derive(Clone, Copy)]
struct EdgeUse {
    /// The larger of the edge's two vertices.
    hi: usize,
    /// The polygon of the first use.
    polygon: usize,
    /// The edge index of the first use.
    edge: usize,
    /// Whether a second use has been met.
    paired: bool,
}

/// The distances stored with the edge `(q, j)` that leads to polygon `to`.
pub open spec fn edge_travel(
    vertices: Seq<Vec3>,
    polygons: Seq<Seq<usize>>,
    q: int,
    j: int,
    to: int,
) -> (u64, u64) {
    let polygon = polygons[q];
    travel_distances(
        mean_point(polygon_points(vertices, polygon)),
        vertices[polygon[j] as int],
        vertices[polygon[next_index(polygon.len() as int, j)] as int],
        mean_point(polygon_points(vertices, polygons[to])),
    )
}

/// What the connectivity of edge `(q, j)` must be once all the edges before
/// `(p, i)` have been read.
spec fn link_ok_before(
    vertices: Seq<Vec3>,
    polygons: Seq<Seq<usize>>,
    link: Option<Connectivity>,
    q: int,
    j: int,
    p: int,
    i: int,
) -> bool {
    match link {
        Some(c) => {
            &&& exists|j2: int|
                precedes(c.polygon_index as int, j2, p, i) && #[trigger] shares_edge(
                    polygons,
                    q,
                    j,
                    c.polygon_index as int,
                    j2,
                )
            &&& c.travel_distances == edge_travel(vertices, polygons, q, j, c.polygon_index as int)
        },
        None => forall|q2: int, j2: int|
            precedes(q2, j2, p, i) ==> !#[trigger] shares_edge(polygons, q, j, q2, j2),
    }
}

/// The records of the polygons read so far agree with the mesh.
#[verifier::opaque]
spec fn records_ok(
    vertices: Seq<Vec3>,
    polygons: Seq<Seq<usize>>,
    type_indices: Seq<usize>,
    valid: Seq<ValidPolygon>,
) -> bool {
    &&& valid.len() <= polygons.len()
    &&& forall|q: int|
        0 <= q < valid.len() ==> {
            &&& (#[trigger] valid[q]).vertices@ == polygons[q]
            &&& valid[q].connectivity.len() == polygons[q].len()
            &&& polygons[q].len() >= 3
            &&& indices_valid(vertices, polygons[q])
            &&& valid[q].bounds == points_bounds(
                polygon_points(vertices, polygons[q]),
                polygons[q].len() as int,
            )
            &&& valid[q].center == mean_point(polygon_points(vertices, polygons[q]))
            &&& valid[q].type_index == (if q < type_indices.len() {
                Some(type_indices[q])
            } else {
                None
            })
        }
}

/// The connectivity stored so far is right for the edges before `(p, i)`, and
/// still empty for the others.
#[verifier::opaque]
spec fn links_ok(
    vertices: Seq<Vec3>,
    polygons: Seq<Seq<usize>>,
    valid: Seq<ValidPolygon>,
    p: int,
    i: int,
) -> bool {
    forall|q: int, j: int|
        0 <= q < valid.len() && 0 <= j < polygons[q].len() ==> if precedes(q, j, p, i) {
            link_ok_before(vertices, polygons, #[trigger] valid[q].connectivity[j], q, j, p, i)
        } else {
            valid[q].connectivity[j] is None
        }
}

spec fn use_ok(
    polygons: Seq<Seq<usize>>,
    valid: Seq<ValidPolygon>,
    lo: int,
    u: EdgeUse,
    p: int,
    i: int,
) -> bool {
    &&& is_position(polygons, u.polygon as int, u.edge as int)
    &&& precedes(u.polygon as int, u.edge as int, p, i)
    &&& edge_key(polygons[u.polygon as int], u.edge as int) == (lo as usize, u.hi)
    &&& (u.paired <==> valid[u.polygon as int].connectivity[u.edge as int] is Some)
}

spec fn has_use(buckets: Seq<Vec<EdgeUse>>, key: (usize, usize)) -> bool {
    key.0 < buckets.len() && exists|k: int|
        0 <= k < buckets[key.0 as int].len() && (#[trigger] buckets[key.0 as int][k]).hi == key.1
}

/// The first uses filed so far are those of the edges before `(p, i)`.
#[verifier::opaque]
spec fn buckets_ok(
    polygons: Seq<Seq<usize>>,
    valid: Seq<ValidPolygon>,
    buckets: Seq<Vec<EdgeUse>>,
    p: int,
    i: int,
) -> bool {
    &&& forall|lo: int, k: int|
        0 <= lo < buckets.len() && 0 <= k < buckets[lo].len() ==> use_ok(
            polygons,
            valid,
            lo,
            #[trigger] buckets[lo][k],
            p,
            i,
        )
    &&& forall|lo: int, k1: int, k2: int|
        0 <= lo < buckets.len() && 0 <= k1 < k2 < buckets[lo].len() ==> (
        #[trigger] buckets[lo][k1]).hi != (#[trigger] buckets[lo][k2]).hi
    &&& forall|q: int, j: int|
        is_position(polygons, q, j) && precedes(q, j, p, i) ==> has_use(
            buckets,
            #[trigger] edge_key(polygons[q], j),
        )
}

/// No edge before `(p, i)` has a fault.
spec fn clean_before(vertices: Seq<Vec3>, polygons: Seq<Seq<usize>>, p: int, i: int) -> bool {
    forall|q: int, j: int|
        is_position(polygons, q, j) && precedes(q, j, p, i) ==> (#[trigger] edge_fault(
            vertices,
            polygons,
            q,
            j,
        )) is None
}

impl NavigationMesh {
    /// The polygons as sequences of vertex indices.
    pub open spec fn polys(&self) -> Seq<Seq<usize>> {
        Seq::new(self.polygons.len() as nat, |p: int| self.polygons[p]@)
    }

    /// The type index of polygon `p`, if it has one.
    pub open spec fn type_index(&self, p: int) -> Option<usize> {
        if 0 <= p < self.polygon_type_indices.len() {
            Some(self.polygon_type_indices[p])
        } else {
            None
        }
    }

    /// The first thing wrong with the mesh, if anything is.
    pub open spec fn fault(&self) -> Option<ValidationError> {
        mesh_fault(self.vertices@, self.polys(), self.polygons.len() as int)
    }

    /// The bounds that the validated mesh gets: those given, or the tight
    /// bounds of the vertices.
    pub open spec fn bounds(&self) -> BoundingBox {
        match self.mesh_bounds {
            Some(b) => b,
            None => points_bounds(self.vertices@, self.vertices.len() as int),
        }
    }
}

/// A fault of polygon `p` that no earlier polygon hides is the fault of the
/// mesh.
proof fn lemma_fault_found(
    vertices: Seq<Vec3>,
    polygons: Seq<Seq<usize>>,
    p: int,
    n: int,
    e: ValidationError,
)
    requires
        0 <= p < n,
        mesh_fault(vertices, polygons, p) is None,
        polygon_fault(vertices, polygons, p) == Some(e),
    ensures
        mesh_fault(vertices, polygons, n) == Some(e),
    decreases n - p,
{
    if n > p + 1 {
        lemma_fault_found(vertices, polygons, p, n - 1, e);
    }
}

/// A fault of edge `i` that no earlier edge hides is the fault of the edges.
proof fn lemma_edge_fault_found(
    vertices: Seq<Vec3>,
    polygons: Seq<Seq<usize>>,
    p: int,
    i: int,
    n: int,
    e: ValidationError,
)
    requires
        0 <= i < n,
        edges_fault(vertices, polygons, p, i) is None,
        edge_fault(vertices, polygons, p, i) == Some(e),
    ensures
        edges_fault(vertices, polygons, p, n) == Some(e),
    decreases n - i,
{
    if n > i + 1 {
        lemma_edge_fault_found(vertices, polygons, p, i, n - 1, e);
    }
}

/// Where no edge has been filed under the key of `(p, i)`, no edge before
/// `(p, i)` runs between its vertices.
proof fn lemma_unused_key(
    polygons: Seq<Seq<usize>>,
    valid: Seq<ValidPolygon>,
    buckets: Seq<Vec<EdgeUse>>,
    p: int,
    i: int,
)
    requires
        buckets_ok(polygons, valid, buckets, p, i),
        is_position(polygons, p, i),
        !has_use(buckets, edge_key(polygons[p], i)),
    ensures
        forall|q: int, j: int|
            precedes(q, j, p, i) ==> !#[trigger] shares_edge(polygons, p, i, q, j),
        forall|q: int, j: int|
            precedes(q, j, p, i) ==> !#[trigger] shares_edge(polygons, q, j, p, i),
        !doubly_connected_at(polygons, p, i),
{
    reveal(records_ok);
    reveal(links_ok);
    reveal(buckets_ok);
    assert forall|q: int, j: int| precedes(q, j, p, i) implies !#[trigger] shares_edge(
        polygons,
        p,
        i,
        q,
        j,
    ) by {
        if shares_edge(polygons, p, i, q, j) {
            assert(has_use(buckets, edge_key(polygons[q], j)));
        }
    }
    assert forall|q: int, j: int| precedes(q, j, p, i) implies !#[trigger] shares_edge(
        polygons,
        q,
        j,
        p,
        i,
    ) by {
        if shares_edge(polygons, q, j, p, i) {
            assert(shares_edge(polygons, p, i, q, j));
        }
    }
}

/// Where the one edge filed under the key of `(p, i)` has no partner yet, no
/// two edges before `(p, i)` run between its vertices.
proof fn lemma_single_use(
    vertices: Seq<Vec3>,
    polygons: Seq<Seq<usize>>,
    valid: Seq<ValidPolygon>,
    buckets: Seq<Vec<EdgeUse>>,
    p: int,
    i: int,
    k: int,
)
    requires
        buckets_ok(polygons, valid, buckets, p, i),
        links_ok(vertices, polygons, valid, p, i),
        valid.len() == p + 1,
        is_position(polygons, p, i),
        edge_key(polygons[p], i).0 < buckets.len(),
        0 <= k < buckets[edge_key(polygons[p], i).0 as int].len(),
        buckets[edge_key(polygons[p], i).0 as int][k].hi == edge_key(polygons[p], i).1,
        !buckets[edge_key(polygons[p], i).0 as int][k].paired,
    ensures
        !doubly_connected_at(polygons, p, i),
        forall|q: int, j: int|
            precedes(q, j, p, i) && #[trigger] shares_edge(polygons, p, i, q, j) ==> q
                == buckets[edge_key(polygons[p], i).0 as int][k].polygon && j
                == buckets[edge_key(polygons[p], i).0 as int][k].edge,
{
    reveal(records_ok);
    reveal(links_ok);
    reveal(buckets_ok);
    let key = edge_key(polygons[p], i);
    let u = buckets[key.0 as int][k];
    assert(use_ok(polygons, valid, key.0 as int, u, p, i));
    let uq = u.polygon as int;
    let uj = u.edge as int;
    assert(valid[uq].connectivity[uj] is None);
    assert(link_ok_before(vertices, polygons, valid[uq].connectivity[uj], uq, uj, p, i));
    assert forall|q: int, j: int|
        precedes(q, j, p, i) && #[trigger] shares_edge(polygons, p, i, q, j) implies q == uq && j
        == uj by {
        if q != uq || j != uj {
            assert(shares_edge(polygons, uq, uj, q, j));
        }
    }
    if doubly_connected_at(polygons, p, i) {
        let (q1, j1, q2, j2) = choose|q1: int, j1: int, q2: int, j2: int|
            precedes(q1, j1, q2, j2) && precedes(q2, j2, p, i) && #[trigger] shares_edge(
                polygons,
                p,
                i,
                q1,
                j1,
            ) && #[trigger] shares_edge(polygons, p, i, q2, j2);
        assert(precedes(q1, j1, p, i));
        assert(q1 == uq && j1 == uj);
        assert(q2 == uq && j2 == uj);
    }
}

/// Where the edge filed under the key of `(p, i)` has a partner already,
/// `(p, i)` is a third use.
proof fn lemma_third_use(
    vertices: Seq<Vec3>,
    polygons: Seq<Seq<usize>>,
    valid: Seq<ValidPolygon>,
    buckets: Seq<Vec<EdgeUse>>,
    p: int,
    i: int,
    k: int,
)
    requires
        buckets_ok(polygons, valid, buckets, p, i),
        links_ok(vertices, polygons, valid, p, i),
        valid.len() == p + 1,
        is_position(polygons, p, i),
        edge_key(polygons[p], i).0 < buckets.len(),
        0 <= k < buckets[edge_key(polygons[p], i).0 as int].len(),
        buckets[edge_key(polygons[p], i).0 as int][k].hi == edge_key(polygons[p], i).1,
        buckets[edge_key(polygons[p], i).0 as int][k].paired,
    ensures
        doubly_connected_at(polygons, p, i),
{
    reveal(records_ok);
    reveal(links_ok);
    reveal(buckets_ok);
    let key = edge_key(polygons[p], i);
    let u = buckets[key.0 as int][k];
    assert(use_ok(polygons, valid, key.0 as int, u, p, i));
    let uq = u.polygon as int;
    let uj = u.edge as int;
    let link = valid[uq].connectivity[uj];
    assert(link is Some);
    assert(link_ok_before(vertices, polygons, link, uq, uj, p, i));
    let c = link->0;
    let j2 = choose|j2: int|
        precedes(c.polygon_index as int, j2, p, i) && #[trigger] shares_edge(
            polygons,
            uq,
            uj,
            c.polygon_index as int,
            j2,
        );
    let q2 = c.polygon_index as int;
    assert(shares_edge(polygons, p, i, uq, uj));
    assert(shares_edge(polygons, p, i, q2, j2));
    if precedes(uq, uj, q2, j2) {
    } else {
        assert(precedes(q2, j2, uq, uj));
    }
}

/// Once the last edge of polygon `p` has been read, what holds before the
/// end of `p` holds before the start of the next polygon.
proof fn lemma_next_polygon(
    vertices: Seq<Vec3>,
    polygons: Seq<Seq<usize>>,
    valid: Seq<ValidPolygon>,
    buckets: Seq<Vec<EdgeUse>>,
    p: int,
)
    requires
        0 <= p < polygons.len(),
        valid.len() == p + 1,
        links_ok(vertices, polygons, valid, p, polygons[p].len() as int),
        buckets_ok(polygons, valid, buckets, p, polygons[p].len() as int),
        clean_before(vertices, polygons, p, polygons[p].len() as int),
    ensures
        links_ok(vertices, polygons, valid, p + 1, 0),
        buckets_ok(polygons, valid, buckets, p + 1, 0),
        clean_before(vertices, polygons, p + 1, 0),
{
    reveal(records_ok);
    reveal(links_ok);
    reveal(buckets_ok);
    let n = polygons[p].len() as int;
    assert forall|q: int, j: int| 0 <= q < valid.len() && 0 <= j < polygons[q].len() implies (
    if precedes(q, j, p + 1, 0) {
        link_ok_before(vertices, polygons, #[trigger] valid[q].connectivity[j], q, j, p + 1, 0)
    } else {
        valid[q].connectivity[j] is None
    }) by {
        assert(precedes(q, j, p, n));
        let link = valid[q].connectivity[j];
        assert(link_ok_before(vertices, polygons, link, q, j, p, n));
        match link {
            Some(c) => {
                let j2 = choose|j2: int|
                    precedes(c.polygon_index as int, j2, p, n) && #[trigger] shares_edge(
                        polygons,
                        q,
                        j,
                        c.polygon_index as int,
                        j2,
                    );
                assert(precedes(c.polygon_index as int, j2, p + 1, 0));
            },
            None => {
                assert forall|q2: int, j2: int| precedes(q2, j2, p + 1, 0) implies !#[trigger] shares_edge(
                    polygons,
                    q,
                    j,
                    q2,
                    j2,
                ) by {
                    if shares_edge(polygons, q, j, q2, j2) {
                        assert(precedes(q2, j2, p, n));
                    }
                }
            },
        }
    }
    assert forall|lo: int, k: int|
        0 <= lo < buckets.len() && 0 <= k < buckets[lo].len() implies use_ok(
        polygons,
        valid,
        lo,
        #[trigger] buckets[lo][k],
        p + 1,
        0,
    ) by {
        assert(use_ok(polygons, valid, lo, buckets[lo][k], p, n));
    }
    assert forall|q: int, j: int|
        is_position(polygons, q, j) && precedes(q, j, p + 1, 0) implies has_use(
        buckets,
        #[trigger] edge_key(polygons[q], j),
    ) by {
        assert(precedes(q, j, p, n));
    }
    assert forall|q: int, j: int|
        is_position(polygons, q, j) && precedes(q, j, p + 1, 0) implies (#[trigger] edge_fault(
        vertices,
        polygons,
        q,
        j,
    )) is None by {
        assert(precedes(q, j, p, n));
    }
}

/// Filing the first use of the edge `(p, i)` keeps what holds, one edge on.
proof fn lemma_step_new_use(
    vertices: Seq<Vec3>,
    polygons: Seq<Seq<usize>>,
    valid: Seq<ValidPolygon>,
    buckets0: Seq<Vec<EdgeUse>>,
    buckets1: Seq<Vec<EdgeUse>>,
    p: int,
    i: int,
)
    requires
        buckets_ok(polygons, valid, buckets0, p, i),
        links_ok(vertices, polygons, valid, p, i),
        valid.len() == p + 1,
        is_position(polygons, p, i),
        edge_key(polygons[p], i).0 < buckets0.len(),
        !has_use(buckets0, edge_key(polygons[p], i)),
        buckets1.len() == buckets0.len(),
        forall|lo: int|
            0 <= lo < buckets0.len() && lo != edge_key(polygons[p], i).0 ==> buckets1[lo]
                == buckets0[lo],
        buckets1[edge_key(polygons[p], i).0 as int]@ == buckets0[edge_key(
            polygons[p],
            i,
        ).0 as int]@.push(
            EdgeUse {
                hi: edge_key(polygons[p], i).1,
                polygon: p as usize,
                edge: i as usize,
                paired: false,
            },
        ),
        p <= usize::MAX,
        i <= usize::MAX,
    ensures
        buckets_ok(polygons, valid, buckets1, p, i + 1),
        links_ok(vertices, polygons, valid, p, i + 1),
{
    reveal(records_ok);
    reveal(links_ok);
    reveal(buckets_ok);
    let key = edge_key(polygons[p], i);
    let lo0 = key.0 as int;
    lemma_unused_key(polygons, valid, buckets0, p, i);
    assert forall|q: int, j: int| 0 <= q < valid.len() && 0 <= j < polygons[q].len() implies (
    if precedes(q, j, p, i + 1) {
        link_ok_before(vertices, polygons, #[trigger] valid[q].connectivity[j], q, j, p, i + 1)
    } else {
        valid[q].connectivity[j] is None
    }) by {
        let link = valid[q].connectivity[j];
        if precedes(q, j, p, i) {
            assert(link_ok_before(vertices, polygons, link, q, j, p, i));
            match link {
                Some(c) => {
                    let j2 = choose|j2: int|
                        precedes(c.polygon_index as int, j2, p, i) && #[trigger] shares_edge(
                            polygons,
                            q,
                            j,
                            c.polygon_index as int,
                            j2,
                        );
                    assert(precedes(c.polygon_index as int, j2, p, i + 1));
                },
                None => {
                    assert forall|q2: int, j2: int| precedes(q2, j2, p, i + 1) implies !#[trigger] shares_edge(
                        polygons,
                        q,
                        j,
                        q2,
                        j2,
                    ) by {
                        if !precedes(q2, j2, p, i) && shares_edge(polygons, q, j, q2, j2) {
                            assert(q2 == p && j2 == i);
                        }
                    }
                },
            }
        } else if precedes(q, j, p, i + 1) {
            assert(q == p && j == i);
            assert(link is None);
            assert forall|q2: int, j2: int| precedes(q2, j2, p, i + 1) implies !#[trigger] shares_edge(
                polygons,
                q,
                j,
                q2,
                j2,
            ) by {
                if shares_edge(polygons, q, j, q2, j2) {
                    assert(precedes(q2, j2, p, i));
                }
            }
        }
    }
    assert forall|lo: int, k: int|
        0 <= lo < buckets1.len() && 0 <= k < buckets1[lo].len() implies use_ok(
        polygons,
        valid,
        lo,
        #[trigger] buckets1[lo][k],
        p,
        i + 1,
    ) by {
        if lo == lo0 && k == buckets0[lo0].len() {
        } else {
            assert(buckets1[lo][k] == buckets0[lo][k]);
            assert(use_ok(polygons, valid, lo, buckets0[lo][k], p, i));
        }
    }
    assert forall|lo: int, k1: int, k2: int|
        0 <= lo < buckets1.len() && 0 <= k1 < k2 < buckets1[lo].len() implies (
    #[trigger] buckets1[lo][k1]).hi != (#[trigger] buckets1[lo][k2]).hi by {
        if lo == lo0 && k2 == buckets0[lo0].len() {
            assert(buckets1[lo][k1] == buckets0[lo][k1]);
            assert(buckets0[lo0][k1].hi != key.1);
        } else {
            assert(buckets1[lo][k1] == buckets0[lo][k1]);
            assert(buckets1[lo][k2] == buckets0[lo][k2]);
        }
    }
    assert forall|q: int, j: int|
        is_position(polygons, q, j) && precedes(q, j, p, i + 1) implies has_use(
        buckets1,
        #[trigger] edge_key(polygons[q], j),
    ) by {
        if precedes(q, j, p, i) {
            let key2 = edge_key(polygons[q], j);
            assert(has_use(buckets0, key2));
            let k = choose|k: int|
                0 <= k < buckets0[key2.0 as int].len() && (#[trigger] buckets0[key2.0 as int][k]).hi
                    == key2.1;
            assert(buckets1[key2.0 as int][k] == buckets0[key2.0 as int][k]);
        } else {
            assert(q == p && j == i);
            let k = buckets0[lo0].len() as int;
            assert(buckets1[lo0][k].hi == key.1);
        }
    }
}

/// Joining the edge `(p, i)` with the one use filed under its key keeps what
/// holds, one edge on.
proof fn lemma_step_pair(
    vertices: Seq<Vec3>,
    polygons: Seq<Seq<usize>>,
    valid0: Seq<ValidPolygon>,
    valid1: Seq<ValidPolygon>,
    buckets0: Seq<Vec<EdgeUse>>,
    buckets1: Seq<Vec<EdgeUse>>,
    p: int,
    i: int,
    k: int,
)
    requires
        buckets_ok(polygons, valid0, buckets0, p, i),
        links_ok(vertices, polygons, valid0, p, i),
        valid0.len() == p + 1,
        valid1.len() == p + 1,
        is_position(polygons, p, i),
        edge_key(polygons[p], i).0 < buckets0.len(),
        0 <= k < buckets0[edge_key(polygons[p], i).0 as int].len(),
        buckets0[edge_key(polygons[p], i).0 as int][k].hi == edge_key(polygons[p], i).1,
        !buckets0[edge_key(polygons[p], i).0 as int][k].paired,
        buckets0.len() <= usize::MAX,
        ({
            let u = buckets0[edge_key(polygons[p], i).0 as int][k];
            &&& forall|q: int, j: int|
                0 <= q <= p && 0 <= j < polygons[q].len() ==> #[trigger] valid1[q].connectivity[j]
                    == (if q == p && j == i {
                    Some(
                        Connectivity {
                            polygon_index: u.polygon,
                            travel_distances: edge_travel(
                                vertices,
                                polygons,
                                p,
                                i,
                                u.polygon as int,
                            ),
                        },
                    )
                } else if q == u.polygon && j == u.edge {
                    Some(
                        Connectivity {
                            polygon_index: p as usize,
                            travel_distances: edge_travel(
                                vertices,
                                polygons,
                                u.polygon as int,
                                u.edge as int,
                                p,
                            ),
                        },
                    )
                } else {
                    valid0[q].connectivity[j]
                })
            &&& buckets1.len() == buckets0.len()
            &&& forall|lo: int|
                0 <= lo < buckets0.len() ==> (#[trigger] buckets1[lo]).len() == buckets0[lo].len()
            &&& forall|lo: int, k2: int|
                0 <= lo < buckets0.len() && 0 <= k2 < buckets0[lo].len() ==> #[trigger] buckets1[lo][k2]
                    == (if lo == edge_key(polygons[p], i).0 && k2 == k {
                    EdgeUse { paired: true, ..u }
                } else {
                    buckets0[lo][k2]
                })
        }),
        p <= usize::MAX,
    ensures
        buckets_ok(polygons, valid1, buckets1, p, i + 1),
        links_ok(vertices, polygons, valid1, p, i + 1),
{
    reveal(records_ok);
    reveal(links_ok);
    reveal(buckets_ok);
    let key = edge_key(polygons[p], i);
    let lo0 = key.0 as int;
    let u = buckets0[lo0][k];
    let uq = u.polygon as int;
    let uj = u.edge as int;
    assert(use_ok(polygons, valid0, lo0, u, p, i));
    lemma_single_use(vertices, polygons, valid0, buckets0, p, i, k);
    assert(shares_edge(polygons, p, i, uq, uj));
    assert(shares_edge(polygons, uq, uj, p, i));
    assert(valid0[uq].connectivity[uj] is None);
    assert(link_ok_before(vertices, polygons, valid0[uq].connectivity[uj], uq, uj, p, i));
    assert forall|q: int, j: int| 0 <= q < valid1.len() && 0 <= j < polygons[q].len() implies (
    if precedes(q, j, p, i + 1) {
        link_ok_before(vertices, polygons, #[trigger] valid1[q].connectivity[j], q, j, p, i + 1)
    } else {
        valid1[q].connectivity[j] is None
    }) by {
        let link = valid1[q].connectivity[j];
        if q == p && j == i {
            assert(precedes(uq, uj, p, i + 1));
            assert(shares_edge(polygons, q, j, uq, uj));
            assert(link_ok_before(vertices, polygons, link, q, j, p, i + 1));
        } else if q == uq && j == uj {
            assert(precedes(p, i, p, i + 1));
            assert(shares_edge(polygons, q, j, p, i));
            assert(link_ok_before(vertices, polygons, link, q, j, p, i + 1));
        } else if precedes(q, j, p, i) {
            assert(link == valid0[q].connectivity[j]);
            assert(link_ok_before(vertices, polygons, link, q, j, p, i));
            match link {
                Some(c) => {
                    let j2 = choose|j2: int|
                        precedes(c.polygon_index as int, j2, p, i) && #[trigger] shares_edge(
                            polygons,
                            q,
                            j,
                            c.polygon_index as int,
                            j2,
                        );
                    assert(precedes(c.polygon_index as int, j2, p, i + 1));
                },
                None => {
                    assert forall|q2: int, j2: int| precedes(q2, j2, p, i + 1) implies !#[trigger] shares_edge(
                        polygons,
                        q,
                        j,
                        q2,
                        j2,
                    ) by {
                        if !precedes(q2, j2, p, i) && shares_edge(polygons, q, j, q2, j2) {
                            assert(q2 == p && j2 == i);
                            assert(shares_edge(polygons, q, j, uq, uj));
                        }
                    }
                },
            }
        } else {
            assert(link == valid0[q].connectivity[j]);
        }
    }
    assert forall|lo: int, k2: int|
        0 <= lo < buckets1.len() && 0 <= k2 < buckets1[lo].len() implies use_ok(
        polygons,
        valid1,
        lo,
        #[trigger] buckets1[lo][k2],
        p,
        i + 1,
    ) by {
        let w = buckets0[lo][k2];
        assert(use_ok(polygons, valid0, lo, w, p, i));
        if lo == lo0 && k2 == k {
        } else {
            assert(buckets1[lo][k2] == w);
            if w.polygon == u.polygon && w.edge == u.edge {
                assert(lo == lo0);
                assert(w.hi == u.hi);
                if k2 < k {
                    assert(buckets0[lo][k2].hi != buckets0[lo][k].hi);
                } else {
                    assert(buckets0[lo][k].hi != buckets0[lo][k2].hi);
                }
            }
        }
    }
    assert forall|lo: int, k1: int, k2: int|
        0 <= lo < buckets1.len() && 0 <= k1 < k2 < buckets1[lo].len() implies (
    #[trigger] buckets1[lo][k1]).hi != (#[trigger] buckets1[lo][k2]).hi by {
        assert(buckets1[lo][k1].hi == buckets0[lo][k1].hi);
        assert(buckets1[lo][k2].hi == buckets0[lo][k2].hi);
    }
    assert forall|q: int, j: int|
        is_position(polygons, q, j) && precedes(q, j, p, i + 1) implies has_use(
        buckets1,
        #[trigger] edge_key(polygons[q], j),
    ) by {
        if precedes(q, j, p, i) {
            let key2 = edge_key(polygons[q], j);
            assert(has_use(buckets0, key2));
            let k3 = choose|k3: int|
                0 <= k3 < buckets0[key2.0 as int].len() && (
                #[trigger] buckets0[key2.0 as int][k3]).hi == key2.1;
            assert(buckets1[key2.0 as int][k3].hi == buckets0[key2.0 as int][k3].hi);
        } else {
            assert(q == p && j == i);
            assert(buckets1[lo0][k].hi == key.1);
        }
    }
}

/// What the connectivity of edge `(p, i)` must be: it names the polygon of
/// the one other edge between the same two vertices, with the distances of
/// that crossing, or it is `None` where no other edge runs between them.
pub open spec fn link_ok(
    vertices: Seq<Vec3>,
    polygons: Seq<Seq<usize>>,
    link: Option<Connectivity>,
    p: int,
    i: int,
) -> bool {
    match link {
        Some(c) => {
            &&& exists|j: int| #[trigger] shares_edge(polygons, p, i, c.polygon_index as int, j)
            &&& c.travel_distances == edge_travel(vertices, polygons, p, i, c.polygon_index as int)
        },
        None => forall|q: int, j: int| !#[trigger] shares_edge(polygons, p, i, q, j),
    }
}

/// The edge that `r` names comes before the edge that `s` names.
pub open spec fn ref_precedes(r: MeshEdgeRef, s: MeshEdgeRef) -> bool {
    precedes(
        r.polygon_index as int,
        r.edge_index as int,
        s.polygon_index as int,
        s.edge_index as int,
    )
}

impl ValidNavigationMesh {
    /// The vertices.
    pub open(crate) spec fn points(&self) -> Seq<Vec3> {
        self.vertices@
    }

    /// The polygons as sequences of vertex indices.
    pub open(crate) spec fn polys(&self) -> Seq<Seq<usize>> {
        Seq::new(self.polygons.len() as nat, |p: int| self.polygons[p].vertices@)
    }

    /// Where edge `i` of polygon `p` leads.
    pub open(crate) spec fn link(&self, p: int, i: int) -> Option<Connectivity> {
        self.polygons[p].connectivity[i]
    }

    /// The center of polygon `p`.
    pub open(crate) spec fn center(&self, p: int) -> Vec3 {
        self.polygons[p].center
    }

    /// The bounds of polygon `p`.
    pub open(crate) spec fn polygon_bounds(&self, p: int) -> BoundingBox {
        self.polygons[p].bounds
    }

    /// The type index of polygon `p`, if it has one.
    pub open(crate) spec fn type_index(&self, p: int) -> Option<usize> {
        self.polygons[p].type_index
    }

    /// The bounds of the mesh.
    pub open(crate) spec fn bounds(&self) -> BoundingBox {
        self.mesh_bounds
    }

    /// The edges on the boundary of the mesh.
    pub open(crate) spec fn boundary(&self) -> Seq<MeshEdgeRef> {
        self.boundary_edges@
    }

    /// The boundary edges are the edges without connectivity, each once, in
    /// the order of their polygons and, in a polygon, of their indices.
    pub open(crate) spec fn boundary_ok(&self) -> bool {
        let b = self.boundary_edges@;
        &&& forall|k1: int, k2: int|
            0 <= k1 < k2 < b.len() ==> ref_precedes(#[trigger] b[k1], #[trigger] b[k2])
        &&& forall|k: int|
            0 <= k < b.len() ==> {
                &&& is_position(
                    self.polys(),
                    (#[trigger] b[k]).polygon_index as int,
                    b[k].edge_index as int,
                )
                &&& self.link(b[k].polygon_index as int, b[k].edge_index as int) is None
            }
        &&& forall|p: int, i: int|
            is_position(self.polys(), p, i) && (#[trigger] self.link(p, i)) is None ==> b.contains(
                MeshEdgeRef { polygon_index: p as usize, edge_index: i as usize },
            )
    }

    /// What validation has established of polygon `p` alone.
    pub open(crate) spec fn polygon_ok(&self, p: int) -> bool {
        let polygon = self.polygons[p];
        let points = polygon_points(self.vertices@, polygon.vertices@);
        &&& polygon.vertices.len() >= 3
        &&& polygon.connectivity.len() == polygon.vertices.len()
        &&& indices_valid(self.vertices@, polygon.vertices@)
        &&& polygon.bounds == points_bounds(points, points.len() as int)
        &&& polygon.center == mean_point(points)
    }

    /// What validation has established: no polygon and no edge has a fault,
    /// and the derived data is what the vertices and polygons determine.
    pub open(crate) spec fn wf(&self) -> bool {
        &&& forall|p: int| 0 <= p < self.polygons.len() ==> #[trigger] self.polygon_ok(p)
        &&& forall|p: int, i: int|
            is_position(self.polys(), p, i) ==> (#[trigger] edge_fault(
                self.vertices@,
                self.polys(),
                p,
                i,
            )) is None
        &&& forall|p: int, i: int|
            is_position(self.polys(), p, i) ==> link_ok(
                self.vertices@,
                self.polys(),
                #[trigger] self.link(p, i),
                p,
                i,
            )
        &&& self.boundary_ok()
    }

    #[verifier::type_invariant]
    pub(crate) open spec fn inv(&self) -> bool {
        self.wf()
    }
}

/// Collects the edges without connectivity, in order.
fn collect_boundary_edges(valid: &Vec<ValidPolygon>) -> (b: Vec<MeshEdgeRef>)
    requires
        forall|q: int|
            0 <= q < valid.len() ==> (#[trigger] valid[q]).connectivity.len()
                == valid[q].vertices.len(),
    ensures
        forall|k1: int, k2: int|
            0 <= k1 < k2 < b.len() ==> ref_precedes(#[trigger] b[k1], #[trigger] b[k2]),
        forall|k: int|
            0 <= k < b.len() ==> {
                &&& 0 <= (#[trigger] b[k]).polygon_index < valid.len()
                &&& 0 <= b[k].edge_index < valid[b[k].polygon_index as int].vertices.len()
                &&& valid[b[k].polygon_index as int].connectivity[b[k].edge_index as int] is None
            },
        forall|p: int, i: int|
            0 <= p < valid.len() && 0 <= i < valid[p].vertices.len() && (
            #[trigger] valid[p].connectivity[i]) is None ==> b@.contains(
                MeshEdgeRef { polygon_index: p as usize, edge_index: i as usize },
            ),
{
    let mut b: Vec<MeshEdgeRef> = Vec::new();
    let mut p: usize = 0;
    while p < valid.len()
        invariant
            p <= valid.len(),
            forall|q: int|
                0 <= q < valid.len() ==> (#[trigger] valid[q]).connectivity.len()
                    == valid[q].vertices.len(),
            forall|k1: int, k2: int|
                0 <= k1 < k2 < b.len() ==> ref_precedes(#[trigger] b[k1], #[trigger] b[k2]),
            forall|k: int|
                0 <= k < b.len() ==> {
                    &&& 0 <= (#[trigger] b[k]).polygon_index < p
                    &&& 0 <= b[k].edge_index < valid[b[k].polygon_index as int].vertices.len()
                    &&& valid[b[k].polygon_index as int].connectivity[b[k].edge_index as int] is None
                },
            forall|q: int, j: int|
                0 <= q < p && 0 <= j < valid[q].vertices.len() && (
                #[trigger] valid[q].connectivity[j]) is None ==> b@.contains(
                    MeshEdgeRef { polygon_index: q as usize, edge_index: j as usize },
                ),
        decreases valid.len() - p,
    {
        let n: usize = valid[p].connectivity.len();
        let mut i: usize = 0;
        while i < n
            invariant
                p < valid.len(),
                i <= n,
                n == valid[p as int].connectivity.len(),
                n == valid[p as int].vertices.len(),
                forall|k1: int, k2: int|
                    0 <= k1 < k2 < b.len() ==> ref_precedes(#[trigger] b[k1], #[trigger] b[k2]),
                forall|k: int|
                    0 <= k < b.len() ==> {
                        &&& 0 <= (#[trigger] b[k]).polygon_index <= p
                        &&& b[k].polygon_index == p ==> b[k].edge_index < i
                        &&& 0 <= b[k].edge_index < valid[b[k].polygon_index as int].vertices.len()
                        &&& valid[b[k].polygon_index as int].connectivity[b[k].edge_index as int] is None
                    },
                forall|q: int, j: int|
                    0 <= q <= p && 0 <= j < valid[q].vertices.len() && (q < p || j < i) && (
                    #[trigger] valid[q].connectivity[j]) is None ==> b@.contains(
                        MeshEdgeRef { polygon_index: q as usize, edge_index: j as usize },
                    ),
            decreases n - i,
        {
            let ghost b0 = b@;
            if valid[p].connectivity[i].is_none() {
                let r = MeshEdgeRef { polygon_index: p, edge_index: i };
                b.push(r);
                proof {
                    assert(b@[b0.len() as int] == r);
                    assert forall|q: int, j: int|
                        0 <= q <= p && 0 <= j < valid[q].vertices.len() && (q < p || j < i + 1)
                            && (#[trigger] valid[q].connectivity[j]) is None implies b@.contains(
                        MeshEdgeRef { polygon_index: q as usize, edge_index: j as usize },
                    ) by {
                        let r2 = MeshEdgeRef { polygon_index: q as usize, edge_index: j as usize };
                        if q == p && j == i {
                            assert(b@[b0.len() as int] == r2);
                        } else {
                            assert(b0.contains(r2));
                            let k = choose|k: int| 0 <= k < b0.len() && b0[k] == r2;
                            assert(b@[k] == r2);
                        }
                    }
                }
            }
            i = i + 1;
        }
        p = p + 1;
    }
    b
}

/// The polygons of a mesh as sequences of vertex indices.
pub open spec fn polys_of(polygons: Seq<Vec<usize>>) -> Seq<Seq<usize>> {
    Seq::new(polygons.len(), |p: int| polygons[p]@)
}

/// What the record of polygon `q` holds.
proof fn lemma_record(
    vertices: Seq<Vec3>,
    polygons: Seq<Seq<usize>>,
    types: Seq<usize>,
    valid: Seq<ValidPolygon>,
    q: int,
)
    requires
        records_ok(vertices, polygons, types, valid),
        0 <= q < valid.len(),
    ensures
        q < polygons.len(),
        valid[q].vertices@ == polygons[q],
        valid[q].connectivity.len() == polygons[q].len(),
        polygons[q].len() >= 3,
        indices_valid(vertices, polygons[q]),
        valid[q].center == mean_point(polygon_points(vertices, polygons[q])),
{
    reveal(records_ok);
}

/// The records stay right where only connectivity entries change.
proof fn lemma_records_kept(
    vertices: Seq<Vec3>,
    polygons: Seq<Seq<usize>>,
    types: Seq<usize>,
    valid0: Seq<ValidPolygon>,
    valid1: Seq<ValidPolygon>,
)
    requires
        records_ok(vertices, polygons, types, valid0),
        valid1.len() == valid0.len(),
        forall|q: int|
            0 <= q < valid0.len() ==> {
                &&& (#[trigger] valid1[q]).vertices@ == valid0[q].vertices@
                &&& valid1[q].connectivity.len() == valid0[q].connectivity.len()
                &&& valid1[q].bounds == valid0[q].bounds
                &&& valid1[q].center == valid0[q].center
                &&& valid1[q].type_index == valid0[q].type_index
            },
    ensures
        records_ok(vertices, polygons, types, valid1),
{
    reveal(records_ok);
    assert forall|q: int| 0 <= q < valid1.len() implies {
        &&& (#[trigger] valid1[q]).vertices@ == polygons[q]
        &&& valid1[q].connectivity.len() == polygons[q].len()
        &&& polygons[q].len() >= 3
        &&& indices_valid(vertices, polygons[q])
        &&& valid1[q].bounds == points_bounds(
            polygon_points(vertices, polygons[q]),
            polygons[q].len() as int,
        )
        &&& valid1[q].center == mean_point(polygon_points(vertices, polygons[q]))
        &&& valid1[q].type_index == (if q < types.len() {
            Some(types[q])
        } else {
            None
        })
    } by {
        assert(valid0[q].vertices@ == polygons[q]);
    }
}

/// What holds of the use filed at place `k` under vertex `lo`.
proof fn lemma_use(
    polygons: Seq<Seq<usize>>,
    valid: Seq<ValidPolygon>,
    buckets: Seq<Vec<EdgeUse>>,
    p: int,
    i: int,
    lo: int,
    k: int,
)
    requires
        buckets_ok(polygons, valid, buckets, p, i),
        0 <= lo < buckets.len(),
        0 <= k < buckets[lo].len(),
    ensures
        use_ok(polygons, valid, lo, buckets[lo][k], p, i),
{
    reveal(buckets_ok);
}

/// Where the search of a bucket found no use with the larger vertex of a
/// key, no use is filed under the key.
proof fn lemma_no_use(buckets: Seq<Vec<EdgeUse>>, lo: usize, hi: usize)
    requires
        lo < buckets.len(),
        forall|k0: int| 0 <= k0 < buckets[lo as int].len() ==> (#[trigger] buckets[lo as int][k0]).hi != hi,
    ensures
        !has_use(buckets, (lo, hi)),
{
}

/// Reads edge `i` of polygon `p`: checks it, files it or joins it with the
/// earlier use of the same edge.
fn scan_edge(
    vertices: &Vec<Vec3>,
    polygons: &Vec<Vec<usize>>,
    valid: &mut Vec<ValidPolygon>,
    buckets: &mut Vec<Vec<EdgeUse>>,
    p: usize,
    i: usize,
    Ghost(types): Ghost<Seq<usize>>,
) -> (r: Result<(), ValidationError>)
    requires
        p < polygons.len(),
        i < polygons[p as int].len(),
        polygons[p as int].len() >= 3,
        indices_valid(vertices@, polygons[p as int]@),
        old(buckets).len() == vertices.len(),
        old(valid).len() == p + 1,
        records_ok(vertices@, polys_of(polygons@), types, old(valid)@),
        links_ok(vertices@, polys_of(polygons@), old(valid)@, p as int, i as int),
        buckets_ok(polys_of(polygons@), old(valid)@, old(buckets)@, p as int, i as int),
    ensures
        match r {
            Ok(()) => {
                &&& edge_fault(vertices@, polys_of(polygons@), p as int, i as int) is None
                &&& final(buckets).len() == vertices.len()
                &&& final(valid).len() == p + 1
                &&& records_ok(vertices@, polys_of(polygons@), types, final(valid)@)
                &&& links_ok(vertices@, polys_of(polygons@), final(valid)@, p as int, i as int + 1)
                &&& buckets_ok(
                    polys_of(polygons@),
                    final(valid)@,
                    final(buckets)@,
                    p as int,
                    i as int + 1,
                )
            },
            Err(e) => edge_fault(vertices@, polys_of(polygons@), p as int, i as int) == Some(e),
        },
{
    let ghost verts = vertices@;
    let ghost polys = polys_of(polygons@);
    let polygon = &polygons[p];
    let n: usize = polygon.len();
    assert(polys[p as int] == polygon@);
    let next: usize = if i + 1 == n {
        0
    } else {
        i + 1
    };
    let prev: usize = if i == 0 {
        n - 1
    } else {
        i - 1
    };
    let a: usize = polygon[i];
    let b: usize = polygon[next];
    let l: usize = polygon[prev];
    let lo: usize = if a < b {
        a
    } else {
        b
    };
    let hi: usize = if a < b {
        b
    } else {
        a
    };
    assert(edge_key(polys[p as int], i as int) == (lo, hi));
    assert(is_position(polys, p as int, i as int));
    if lo == hi {
        return Err(ValidationError::DegenerateEdgeInPolygon(p));
    }
    let mut k: usize = 0;
    while k < buckets[lo].len() && buckets[lo][k].hi != hi
        invariant
            lo < buckets.len(),
            k <= buckets[lo as int].len(),
            forall|k0: int| 0 <= k0 < k ==> (#[trigger] buckets[lo as int][k0]).hi != hi,
        decreases buckets[lo as int].len() - k,
    {
        k = k + 1;
    }
    let ghost valid0 = valid@;
    let ghost buckets0 = buckets@;
    proof {
        lemma_record(verts, polys, types, valid0, p as int);
    }
    if k == buckets[lo].len() {
        proof {
            lemma_no_use(buckets0, lo, hi);
        }
        buckets[lo].push(EdgeUse { hi, polygon: p, edge: i, paired: false });
        proof {
            lemma_unused_key(polys, valid0, buckets0, p as int, i as int);
            lemma_step_new_use(verts, polys, valid0, buckets0, buckets@, p as int, i as int);
        }
    } else {
        let u = buckets[lo][k];
        if u.paired {
            proof {
                lemma_third_use(verts, polys, valid0, buckets0, p as int, i as int, k as int);
            }
            return Err(ValidationError::DoublyConnectedEdge(lo, hi));
        }
        proof {
            lemma_use(polys, valid0, buckets0, p as int, i as int, lo as int, k as int);
            lemma_record(verts, polys, types, valid0, u.polygon as int);
            lemma_single_use(verts, polys, valid0, buckets0, p as int, i as int, k as int);
        }
        let middle = midpoint_of(vertices[a], vertices[b]);
        let here = valid[p].center;
        let there = valid[u.polygon].center;
        let here_to_middle: u64 = here.distance_ceil(middle);
        let middle_to_there: u64 = middle.distance_ceil(there);
        proof {
            crate::math::lemma_dist_symmetric(here, middle);
            crate::math::lemma_dist_symmetric(middle, there);
            let uq = u.polygon as int;
            let uj = u.edge as int;
            let un = polys[uq].len() as int;
            assert(valid0[uq].vertices@ == polys[uq]);
            let ua = polys[uq][uj];
            let ub = polys[uq][next_index(un, uj)];
            assert(indices_valid(verts, polys[uq]));
            assert((ua == a && ub == b) || (ua == b && ub == a));
            assert(midpoint(verts[ua as int], verts[ub as int]) == middle);
        }
        valid[p].connectivity[i] = Some(
            Connectivity {
                polygon_index: u.polygon,
                travel_distances: (here_to_middle, middle_to_there),
            },
        );
        valid[u.polygon].connectivity[u.edge] = Some(
            Connectivity { polygon_index: p, travel_distances: (middle_to_there, here_to_middle) },
        );
        buckets[lo][k].paired = true;
        proof {
            lemma_records_kept(verts, polys, types, valid0, valid@);
            lemma_step_pair(
                verts,
                polys,
                valid0,
                valid@,
                buckets0,
                buckets@,
                p as int,
                i as int,
                k as int,
            );
        }
    }
    assert(!doubly_connected_at(polys, p as int, i as int));
    if triangle_area_2(vertices[a], vertices[b], vertices[l]) < 0 {
        assert(concave_at(verts, polys[p as int], i as int));
        return Err(ValidationError::ConcavePolygon(p));
    }
    Ok(())
}

/// Once every polygon has been read without a fault, the records make a
/// validated mesh.
proof fn lemma_scan_complete(
    mesh: ValidNavigationMesh,
    types: Seq<usize>,
)
    requires
        records_ok(mesh.vertices@, mesh.polys(), types, mesh.polygons@),
        mesh.polygons.len() == mesh.polys().len(),
        links_ok(mesh.vertices@, mesh.polys(), mesh.polygons@, mesh.polygons.len() as int, 0),
        clean_before(mesh.vertices@, mesh.polys(), mesh.polygons.len() as int, 0),
        mesh.boundary_ok(),
    ensures
        mesh.wf(),
{
    reveal(records_ok);
    reveal(links_ok);
    reveal(buckets_ok);
    let verts = mesh.vertices@;
    let polys = mesh.polys();
    let total = mesh.polygons.len() as int;
    assert forall|p: int| 0 <= p < mesh.polygons.len() implies #[trigger] mesh.polygon_ok(p) by {
        assert(mesh.polygons@[p].vertices@ == polys[p]);
    }
    assert forall|p: int, i: int| is_position(polys, p, i) implies (#[trigger] edge_fault(
        verts,
        polys,
        p,
        i,
    )) is None by {
        assert(precedes(p, i, total, 0));
    }
    assert forall|p: int, i: int| is_position(polys, p, i) implies link_ok(
        verts,
        polys,
        #[trigger] mesh.link(p, i),
        p,
        i,
    ) by {
        assert(precedes(p, i, total, 0));
        let link = mesh.polygons@[p].connectivity[i];
        assert(link_ok_before(verts, polys, link, p, i, total, 0));
        match link {
            Some(c) => {},
            None => {
                assert forall|q: int, j: int| !#[trigger] shares_edge(polys, p, i, q, j) by {
                    if shares_edge(polys, p, i, q, j) {
                        assert(precedes(q, j, total, 0));
                    }
                }
            },
        }
    }
}

impl NavigationMesh {
    /// Checks the mesh and derives what navigation needs: for each polygon its
    /// bounds and center, for each edge the polygon it leads to, and the
    /// edges on the boundary. The polygons are read in order, each edge by
    /// edge, and the first fault met is returned.
    pub fn validate(self) -> (r: Result<ValidNavigationMesh, ValidationError>)
        ensures
            match r {
                Ok(mesh) => {
                    &&& self.fault() is None
                    &&& mesh.wf()
                    &&& mesh.points() == self.vertices@
                    &&& mesh.polys() == self.polys()
                    &&& mesh.bounds() == self.bounds()
                    &&& forall|p: int|
                        0 <= p < self.polygons.len() ==> mesh.type_index(p) == self.type_index(p)
                },
                Err(e) => self.fault() == Some(e),
            },
    {
        let mesh_bounds = match self.mesh_bounds {
            Some(b) => b,
            None => bounds_of_points(&self.vertices),
        };
        let ghost verts = self.vertices@;
        let ghost polys = self.polys();
        let ghost types = self.polygon_type_indices@;
        let total: usize = self.polygons.len();
        let n_vertices: usize = self.vertices.len();
        assert(polys =~= polys_of(self.polygons@));

        let mut buckets: Vec<Vec<EdgeUse>> = Vec::new();
        let mut v: usize = 0;
        while v < n_vertices
            invariant
                v <= n_vertices,
                buckets.len() == v,
                forall|lo: int| 0 <= lo < v ==> (#[trigger] buckets[lo]).len() == 0,
            decreases n_vertices - v,
        {
            buckets.push(Vec::new());
            v = v + 1;
        }

        let mut valid: Vec<ValidPolygon> = Vec::new();
        let mut p: usize = 0;
        proof {
            reveal(records_ok);
            reveal(links_ok);
            reveal(buckets_ok);
        }
        while p < total
            invariant
                p <= total,
                total == self.polygons.len(),
                n_vertices == self.vertices.len(),
                verts == self.vertices@,
                polys == polys_of(self.polygons@),
                types == self.polygon_type_indices@,
                buckets.len() == n_vertices,
                valid.len() == p,
                records_ok(verts, polys, types, valid@),
                links_ok(verts, polys, valid@, p as int, 0),
                buckets_ok(polys, valid@, buckets@, p as int, 0),
                clean_before(verts, polys, p as int, 0),
                mesh_fault(verts, polys, p as int) is None,
            decreases total - p,
        {
            let polygon = &self.polygons[p];
            let n: usize = polygon.len();
            assert(polys[p as int] == polygon@);
            if n < 3 {
                proof {
                    lemma_fault_found(
                        verts,
                        polys,
                        p as int,
                        total as int,
                        ValidationError::NotEnoughVerticesInPolygon(p),
                    );
                }
                return Err(ValidationError::NotEnoughVerticesInPolygon(p));
            }
            let mut k: usize = 0;
            while k < n && polygon[k] < n_vertices
                invariant
                    k <= n,
                    n == polygon.len(),
                    n_vertices == self.vertices.len(),
                    forall|k0: int| 0 <= k0 < k ==> (#[trigger] polygon@[k0]) < n_vertices,
                decreases n - k,
            {
                k = k + 1;
            }
            if k < n {
                proof {
                    assert(polygon@[k as int] >= verts.len());
                    assert(!indices_valid(verts, polys[p as int]));
                    lemma_fault_found(
                        verts,
                        polys,
                        p as int,
                        total as int,
                        ValidationError::InvalidVertexIndexInPolygon(p),
                    );
                }
                return Err(ValidationError::InvalidVertexIndexInPolygon(p));
            }
            assert(indices_valid(verts, polys[p as int]));

            let bounds = bounds_of_polygon(&self.vertices, polygon);
            let center = center_of_polygon(&self.vertices, polygon);
            let type_index = if p < self.polygon_type_indices.len() {
                Some(self.polygon_type_indices[p])
            } else {
                None
            };
            let mut connectivity: Vec<Option<Connectivity>> = Vec::new();
            let mut c: usize = 0;
            while c < n
                invariant
                    c <= n,
                    connectivity.len() == c,
                    forall|j: int| 0 <= j < c ==> (#[trigger] connectivity[j]) is None,
                decreases n - c,
            {
                connectivity.push(None);
                c = c + 1;
            }
            let indices = polygon.clone();
            assert(indices@ =~= polygon@);
            let ghost valid_before = valid@;
            valid.push(ValidPolygon { vertices: indices, connectivity, bounds, center, type_index });
            proof {
                lemma_record_added(verts, polys, types, valid_before, valid@, buckets@, p as int);
            }

            let mut i: usize = 0;
            while i < n
                invariant
                    i <= n,
                    p < total,
                    n == polygon.len(),
                    n >= 3,
                    polygon@ == polys[p as int],
                    total == self.polygons.len(),
                    n_vertices == self.vertices.len(),
                    verts == self.vertices@,
                    polys == polys_of(self.polygons@),
                    types == self.polygon_type_indices@,
                    indices_valid(verts, polys[p as int]),
                    buckets.len() == n_vertices,
                    valid.len() == p + 1,
                    records_ok(verts, polys, types, valid@),
                    links_ok(verts, polys, valid@, p as int, i as int),
                    buckets_ok(polys, valid@, buckets@, p as int, i as int),
                    clean_before(verts, polys, p as int, i as int),
                    mesh_fault(verts, polys, p as int) is None,
                    edges_fault(verts, polys, p as int, i as int) is None,
                decreases n - i,
            {
                match scan_edge(
                    &self.vertices,
                    &self.polygons,
                    &mut valid,
                    &mut buckets,
                    p,
                    i,
                    Ghost(types),
                ) {
                    Ok(()) => {},
                    Err(e) => {
                        proof {
                            lemma_edge_fault_found(verts, polys, p as int, i as int, n as int, e);
                            lemma_fault_found(verts, polys, p as int, total as int, e);
                        }
                        return Err(e);
                    },
                }
                proof {
                    assert forall|q: int, j: int|
                        is_position(polys, q, j) && precedes(
                            q,
                            j,
                            p as int,
                            i as int + 1,
                        ) implies (#[trigger] edge_fault(verts, polys, q, j)) is None by {
                        if !precedes(q, j, p as int, i as int) {
                            assert(q == p && j == i);
                        }
                    }
                }
                i = i + 1;
            }
            proof {
                lemma_next_polygon(verts, polys, valid@, buckets@, p as int);
            }
            p = p + 1;
        }
        proof {
            assert forall|q: int| 0 <= q < valid.len() implies (
            #[trigger] valid@[q]).connectivity.len() == valid@[q].vertices.len() by {
                lemma_record(verts, polys, types, valid@, q);
            }
        }
        let boundary_edges = collect_boundary_edges(&valid);
        proof {
            let ghost_mesh = ValidNavigationMesh {
                mesh_bounds,
                vertices: self.vertices,
                polygons: valid,
                boundary_edges,
            };
            assert(ghost_mesh.polys() =~= polys) by {
                assert forall|q: int| 0 <= q < valid.len() implies (
                #[trigger] valid@[q]).vertices@ == polys[q] by {
                    lemma_record(verts, polys, types, valid@, q);
                }
            }
            assert forall|q: int| 0 <= q < valid.len() implies (
            #[trigger] valid@[q]).connectivity.len() == valid@[q].vertices.len() by {
                lemma_record(verts, polys, types, valid@, q);
            }
            assert(ghost_mesh.boundary_ok());
            assert forall|q: int| 0 <= q < self.polygons.len() implies ghost_mesh.type_index(q)
                == self.type_index(q) by {
                reveal(records_ok);
            }
            lemma_scan_complete(ghost_mesh, types);
        }
        let mesh = ValidNavigationMesh {
            mesh_bounds,
            vertices: self.vertices,
            polygons: valid,
            boundary_edges,
        };
        Ok(mesh)
    }
}

/// Adding the record of polygon `p`, with no connectivity yet, keeps what
/// holds before the first edge of `p`.
proof fn lemma_record_added(
    vertices: Seq<Vec3>,
    polygons: Seq<Seq<usize>>,
    types: Seq<usize>,
    valid0: Seq<ValidPolygon>,
    valid1: Seq<ValidPolygon>,
    buckets: Seq<Vec<EdgeUse>>,
    p: int,
)
    requires
        0 <= p < polygons.len(),
        valid0.len() == p,
        valid1.len() == p + 1,
        forall|q: int| 0 <= q < p ==> valid1[q] == valid0[q],
        records_ok(vertices, polygons, types, valid0),
        links_ok(vertices, polygons, valid0, p, 0),
        buckets_ok(polygons, valid0, buckets, p, 0),
        ({
            let record = valid1[p];
            &&& record.vertices@ == polygons[p]
            &&& record.connectivity.len() == polygons[p].len()
            &&& forall|j: int|
                0 <= j < record.connectivity.len() ==> (#[trigger] record.connectivity[j]) is None
            &&& polygons[p].len() >= 3
            &&& indices_valid(vertices, polygons[p])
            &&& record.bounds == points_bounds(
                polygon_points(vertices, polygons[p]),
                polygons[p].len() as int,
            )
            &&& record.center == mean_point(polygon_points(vertices, polygons[p]))
            &&& record.type_index == (if p < types.len() {
                Some(types[p])
            } else {
                None
            })
        }),
    ensures
        records_ok(vertices, polygons, types, valid1),
        links_ok(vertices, polygons, valid1, p, 0),
        buckets_ok(polygons, valid1, buckets, p, 0),
{
    reveal(records_ok);
    reveal(links_ok);
    reveal(buckets_ok);
    assert forall|q: int, j: int| 0 <= q < valid1.len() && 0 <= j < polygons[q].len() implies (
    if precedes(q, j, p, 0) {
        link_ok_before(vertices, polygons, #[trigger] valid1[q].connectivity[j], q, j, p, 0)
    } else {
        valid1[q].connectivity[j] is None
    }) by {
        if q < p {
            assert(precedes(q, j, p, 0));
            let link = valid0[q].connectivity[j];
            assert(link_ok_before(vertices, polygons, link, q, j, p, 0));
        }
    }
    assert forall|lo: int, k: int|
        0 <= lo < buckets.len() && 0 <= k < buckets[lo].len() implies use_ok(
        polygons,
        valid1,
        lo,
        #[trigger] buckets[lo][k],
        p,
        0,
    ) by {
        let u = buckets[lo][k];
        assert(use_ok(polygons, valid0, lo, u, p, 0));
    }
}

/// Of three different edges, one comes last.
proof fn lemma_last_of_three(p: int, i: int, q: int, j: int, r: int, k: int)
    requires
        p != q || i != j,
        p != r || i != k,
        q != r || j != k,
    ensures
        (precedes(q, j, p, i) && precedes(r, k, p, i)) || (precedes(p, i, q, j) && precedes(
            r,
            k,
            q,
            j,
        )) || (precedes(p, i, r, k) && precedes(q, j, r, k)),
{
}

/// In a validated mesh, at most two edges run between the same two vertices.
pub proof fn lemma_edge_shared_once(
    mesh: ValidNavigationMesh,
    p: int,
    i: int,
    q: int,
    j: int,
    r: int,
    k: int,
)
    requires
        mesh.wf(),
        shares_edge(mesh.polys(), p, i, q, j),
        shares_edge(mesh.polys(), p, i, r, k),
    ensures
        q == r && j == k,
{
    let polys = mesh.polys();
    let verts = mesh.points();
    if q != r || j != k {
        lemma_last_of_three(p, i, q, j, r, k);
        assert(shares_edge(polys, q, j, p, i));
        assert(shares_edge(polys, q, j, r, k));
        assert(shares_edge(polys, r, k, p, i));
        assert(shares_edge(polys, r, k, q, j));
        if precedes(q, j, p, i) && precedes(r, k, p, i) {
            if precedes(q, j, r, k) {
            } else {
                assert(precedes(r, k, q, j));
            }
            assert(doubly_connected_at(polys, p, i));
            assert(edge_fault(verts, polys, p, i) is Some);
        } else if precedes(p, i, q, j) && precedes(r, k, q, j) {
            if precedes(p, i, r, k) {
            } else {
                assert(precedes(r, k, p, i));
            }
            assert(doubly_connected_at(polys, q, j));
            assert(edge_fault(verts, polys, q, j) is Some);
        } else {
            if precedes(p, i, q, j) {
            } else {
                assert(precedes(q, j, p, i));
            }
            assert(doubly_connected_at(polys, r, k));
            assert(edge_fault(verts, polys, r, k) is Some);
        }
    }
}

/// In a validated mesh, two edges between the same two vertices lead to each
/// other's polygons.
pub proof fn lemma_shared_edges_match(mesh: ValidNavigationMesh, p: int, i: int, q: int, j: int)
    requires
        mesh.wf(),
        shares_edge(mesh.polys(), p, i, q, j),
    ensures
        mesh.link(p, i) is Some,
        mesh.link(p, i)->0.polygon_index == q,
        mesh.link(q, j) is Some,
        mesh.link(q, j)->0.polygon_index == p,
{
    let polys = mesh.polys();
    let verts = mesh.points();
    assert(shares_edge(polys, q, j, p, i));
    let here = mesh.link(p, i);
    assert(link_ok(verts, polys, here, p, i));
    let c = here->0;
    let j2 = choose|j2: int| #[trigger] shares_edge(polys, p, i, c.polygon_index as int, j2);
    lemma_edge_shared_once(mesh, p, i, q, j, c.polygon_index as int, j2);
    let there = mesh.link(q, j);
    assert(link_ok(verts, polys, there, q, j));
    let d = there->0;
    let i2 = choose|i2: int| #[trigger] shares_edge(polys, q, j, d.polygon_index as int, i2);
    lemma_edge_shared_once(mesh, q, j, p, i, d.polygon_index as int, i2);
}

/// In a validated mesh, the boundary edges are exactly the edges that no
/// other edge shares.
pub proof fn lemma_boundary_edges_exact(mesh: ValidNavigationMesh, p: int, i: int)
    requires
        mesh.wf(),
        is_position(mesh.polys(), p, i),
    ensures
        mesh.boundary().contains(MeshEdgeRef { polygon_index: p as usize, edge_index: i as usize })
            <==> forall|q: int, j: int| !#[trigger] shares_edge(mesh.polys(), p, i, q, j),
        mesh.boundary().contains(MeshEdgeRef { polygon_index: p as usize, edge_index: i as usize })
            <==> mesh.link(p, i) is None,
{
    let polys = mesh.polys();
    let verts = mesh.points();
    let b = mesh.boundary();
    let r = MeshEdgeRef { polygon_index: p as usize, edge_index: i as usize };
    let link = mesh.link(p, i);
    assert(link_ok(verts, polys, link, p, i));
    assert(mesh.polygons[p].vertices.len() == polys[p].len());
    assert(r.polygon_index as int == p && r.edge_index as int == i);
    if b.contains(r) {
        let k = choose|k: int| 0 <= k < b.len() && b[k] == r;
        assert(mesh.link(b[k].polygon_index as int, b[k].edge_index as int) is None);
    }
    if link is Some {
        let c = link->0;
        let j2 = choose|j2: int| #[trigger] shares_edge(polys, p, i, c.polygon_index as int, j2);
        assert(shares_edge(polys, p, i, c.polygon_index as int, j2));
    }
}

impl ValidNavigationMesh {
    /// The bounds of the mesh.
    pub fn get_bounds(&self) -> (r: BoundingBox)
        ensures
            r == self.bounds(),
    {
        self.mesh_bounds
    }

    /// The number of polygons.
    pub fn polygon_count(&self) -> (r: usize)
        ensures
            r == self.polys().len(),
    {
        self.polygons.len()
    }

    /// The number of vertices, which is the number of edges, of polygon `p`.
    pub fn polygon_len(&self, p: usize) -> (r: usize)
        requires
            p < self.polys().len(),
        ensures
            r == self.polys()[p as int].len(),
            self.wf() ==> r >= 3,
    {
        proof {
            if self.wf() {
                assert(self.polygon_ok(p as int));
            }
        }
        self.polygons[p].vertices.len()
    }

    /// The two ends of an edge: walking from the first to the second, the
    /// polygon is on the left.
    pub fn get_edge_points(&self, edge_ref: MeshEdgeRef) -> (r: (Vec3, Vec3))
        requires
            is_position(self.polys(), edge_ref.polygon_index as int, edge_ref.edge_index as int),
        ensures
            r == self.edge_points(edge_ref.polygon_index as int, edge_ref.edge_index as int),
    {
        proof {
            use_type_invariant(self);
            assert(self.polygon_ok(edge_ref.polygon_index as int));
        }
        let (left, right) = self.polygons[edge_ref.polygon_index].get_edge_indices(
            edge_ref.edge_index,
        );
        (self.vertices[left], self.vertices[right])
    }

    /// The two ends of edge `i` of polygon `p`.
    pub open(crate) spec fn edge_points(&self, p: int, i: int) -> (Vec3, Vec3) {
        let polygon = self.polygons[p].vertices@;
        (
            self.vertices[polygon[i] as int],
            self.vertices[polygon[next_index(polygon.len() as int, i)] as int],
        )
    }

    /// The edges on the boundary of the mesh, in the order of their polygons
    /// and, in a polygon, of their indices.
    pub fn get_boundary_edges(&self) -> (r: &Vec<MeshEdgeRef>)
        ensures
            r@ == self.boundary(),
    {
        &self.boundary_edges
    }

    /// Where edge `i` of polygon `p` leads, if anywhere.
    pub fn get_connectivity(&self, p: usize, i: usize) -> (r: Option<Connectivity>)
        requires
            is_position(self.polys(), p as int, i as int),
        ensures
            r == self.link(p as int, i as int),
    {
        proof {
            use_type_invariant(self);
            assert(self.polygon_ok(p as int));
        }
        self.polygons[p].connectivity[i]
    }

    /// The vertex at corner `i` of polygon `p`.
    pub fn get_corner(&self, p: usize, i: usize) -> (r: Vec3)
        requires
            is_position(self.polys(), p as int, i as int),
        ensures
            r == self.points()[self.polys()[p as int][i as int] as int],
    {
        proof {
            use_type_invariant(self);
            assert(self.polygon_ok(p as int));
        }
        self.vertices[self.polygons[p].vertices[i]]
    }

    /// The center of polygon `p`.
    pub fn get_center(&self, p: usize) -> (r: Vec3)
        requires
            p < self.polys().len(),
        ensures
            r == self.center(p as int),
    {
        self.polygons[p].center
    }

    /// The type index of polygon `p`, if it has one.
    pub fn get_type_index(&self, p: usize) -> (r: Option<usize>)
        requires
            p < self.polys().len(),
        ensures
            r == self.type_index(p as int),
    {
        self.polygons[p].type_index
    }
}

/// The point of the segment from `s` to `e` nearest to `point` on the ground
/// plane: `point` is dropped on the line through `s` and `e`, kept between
/// the two, and rounded to the lattice.
pub open spec fn edge_projection(s: Vec3, e: Vec3, point: Vec3) -> Vec3 {
    let dx = e.x - s.x;
    let dy = e.y - s.y;
    let dz = e.z - s.z;
    let along = dx * (point.x - s.x) + dz * (point.z - s.z);
    let length_sq = dx * dx + dz * dz;
    let t = if along < 0 {
        0
    } else if along > length_sq {
        length_sq
    } else {
        along
    };
    if length_sq == 0 {
        s
    } else {
        Vec3 {
            x: sat32(s.x + div_round(dx * t, length_sq)) as i32,
            y: sat32(s.y + div_round(dy * t, length_sq)) as i32,
            z: sat32(s.z + div_round(dz * t, length_sq)) as i32,
        }
    }
}

/// How far `point` is above the plane through `a`, `b` and `c`, measured
/// along the `y` axis and rounded. The triangle must not be upright.
pub open spec fn height_above(a: Vec3, b: Vec3, c: Vec3, point: Vec3) -> int {
    let nx = (b.y - a.y) * (c.z - a.z) - (b.z - a.z) * (c.y - a.y);
    let ny = (b.z - a.z) * (c.x - a.x) - (b.x - a.x) * (c.z - a.z);
    let nz = (b.x - a.x) * (c.y - a.y) - (b.y - a.y) * (c.x - a.x);
    div_round_signed(
        nx * (point.x - a.x) + ny * (point.y - a.y) + nz * (point.z - a.z),
        ny,
    )
}

/// The point of the triangle `a`, `b`, `c` that stands for `point`. Where
/// `point` is outside an edge, seen from above, it is the nearest point of
/// the first such edge; else it is the point of the triangle's plane straight
/// below or above `point`. An upright triangle has no such point.
pub open spec fn triangle_projection(a: Vec3, b: Vec3, c: Vec3, point: Vec3) -> Option<Vec3> {
    if area2(a, b, point) < 0 {
        Some(edge_projection(a, b, point))
    } else if area2(b, c, point) < 0 {
        Some(edge_projection(b, c, point))
    } else if area2(c, a, point) < 0 {
        Some(edge_projection(c, a, point))
    } else if area2(a, b, c) == 0 {
        None
    } else {
        Some(
            Vec3 {
                x: point.x,
                y: sat32(point.y - height_above(a, b, c, point)) as i32,
                z: point.z,
            },
        )
    }
}

/// The box of the points within `distance` of `point` along every axis.
pub open spec fn sample_box(point: Vec3, distance: u32) -> BoundingBox {
    (BoundingBox::Box { min: point, max: point }).expanded_by_size(distance)
}

fn project_to_edge(s: Vec3, e: Vec3, point: Vec3) -> (r: Vec3)
    ensures
        r == edge_projection(s, e, point),
{
    let dx: i64 = e.x as i64 - s.x as i64;
    let dy: i64 = e.y as i64 - s.y as i64;
    let dz: i64 = e.z as i64 - s.z as i64;
    let px: i64 = point.x as i64 - s.x as i64;
    let pz: i64 = point.z as i64 - s.z as i64;
    proof {
        lemma_product_bound(dx as int, px as int);
        lemma_product_bound(dz as int, pz as int);
        lemma_product_bound(dx as int, dx as int);
        lemma_product_bound(dz as int, dz as int);
        assert(dx * dx >= 0) by (nonlinear_arith);
        assert(dz * dz >= 0) by (nonlinear_arith);
    }
    let along: i128 = mul_wide(dx, px) + mul_wide(dz, pz);
    let length_sq: i128 = mul_wide(dx, dx) + mul_wide(dz, dz);
    if length_sq == 0 {
        return s;
    }
    let t: i128 = if along < 0 {
        0
    } else if along > length_sq {
        length_sq
    } else {
        along
    };
    assert(dx * t == t * dx && dy * t == t * dy && dz * t == t * dz) by (nonlinear_arith);
    let ox: i128 = div_rounded(mul_scaled(t, dx), length_sq);
    let oy: i128 = div_rounded(mul_scaled(t, dy), length_sq);
    let oz: i128 = div_rounded(mul_scaled(t, dz), length_sq);
    Vec3 {
        x: saturate(s.x as i128 + ox),
        y: saturate(s.y as i128 + oy),
        z: saturate(s.z as i128 + oz),
    }
}

/// The product of two differences of coordinates is below 65 bits.
proof fn lemma_product_bound(a: int, b: int)
    requires
        -0x1_0000_0000 <= a <= 0x1_0000_0000,
        -0x1_0000_0000 <= b <= 0x1_0000_0000,
    ensures
        -0x1_0000_0000_0000_0000 <= a * b <= 0x1_0000_0000_0000_0000,
{
    assert(-0x1_0000_0000_0000_0000 <= a * b <= 0x1_0000_0000_0000_0000) by (nonlinear_arith)
        requires
            -0x1_0000_0000 <= a <= 0x1_0000_0000,
            -0x1_0000_0000 <= b <= 0x1_0000_0000,
    ;
}

fn project_to_triangle(a: Vec3, b: Vec3, c: Vec3, point: Vec3) -> (r: Option<Vec3>)
    ensures
        r == triangle_projection(a, b, c, point),
{
    if triangle_area_2(a, b, point) < 0 {
        return Some(project_to_edge(a, b, point));
    }
    if triangle_area_2(b, c, point) < 0 {
        return Some(project_to_edge(b, c, point));
    }
    if triangle_area_2(c, a, point) < 0 {
        return Some(project_to_edge(c, a, point));
    }
    let ux: i64 = b.x as i64 - a.x as i64;
    let uy: i64 = b.y as i64 - a.y as i64;
    let uz: i64 = b.z as i64 - a.z as i64;
    let wx: i64 = c.x as i64 - a.x as i64;
    let wy: i64 = c.y as i64 - a.y as i64;
    let wz: i64 = c.z as i64 - a.z as i64;
    proof {
        lemma_product_bound(uy as int, wz as int);
        lemma_product_bound(uz as int, wy as int);
        lemma_product_bound(uz as int, wx as int);
        lemma_product_bound(ux as int, wz as int);
        lemma_product_bound(ux as int, wy as int);
        lemma_product_bound(uy as int, wx as int);
    }
    let nx: i128 = mul_wide(uy, wz) - mul_wide(uz, wy);
    let ny: i128 = mul_wide(uz, wx) - mul_wide(ux, wz);
    let nz: i128 = mul_wide(ux, wy) - mul_wide(uy, wx);
    assert(ny == -area2(a, b, c));
    if ny == 0 {
        return None;
    }
    let px: i64 = point.x as i64 - a.x as i64;
    let py: i64 = point.y as i64 - a.y as i64;
    let pz: i64 = point.z as i64 - a.z as i64;
    let above: i128 = mul_scaled(nx, px) + mul_scaled(ny, py) + mul_scaled(nz, pz);
    let height: i128 = if ny > 0 {
        div_rounded(above, ny)
    } else {
        div_rounded(-above, -ny)
    };
    Some(Vec3 { x: point.x, y: saturate(point.y as i128 - height), z: point.z })
}

impl ValidNavigationMesh {
    /// The point that stands for `point` on triangle `i` of the fan of
    /// polygon `p`: the triangle of the polygon's first vertex and its
    /// vertices `i - 1` and `i`.
    pub open(crate) spec fn sample_at(&self, p: int, i: int, point: Vec3) -> Option<Vec3> {
        let polygon = self.polygons[p].vertices@;
        triangle_projection(
            self.vertices[polygon[0] as int],
            self.vertices[polygon[i - 1] as int],
            self.vertices[polygon[i] as int],
            point,
        )
    }

    /// Triangle `i` of polygon `p` has a point for `point` that is nearer than
    /// `distance`, and the polygon's bounds reach the box around `point`.
    pub open(crate) spec fn eligible(&self, p: int, i: int, point: Vec3, distance: u32) -> bool {
        &&& 0 <= p < self.polygons.len()
        &&& 2 <= i < self.polygons[p].vertices.len()
        &&& sample_box(point, distance).intersects(self.polygons[p].bounds)
        &&& self.sample_at(p, i, point) is Some
        &&& dist_sq(point, self.sample_at(p, i, point)->0) < distance * distance
    }

    /// Triangle `i` of polygon `p` gives the sample for `point`: it is
    /// eligible, none is nearer, and none as near comes before it.
    pub open(crate) spec fn is_best_sample(
        &self,
        p: int,
        i: int,
        point: Vec3,
        distance: u32,
    ) -> bool {
        &&& self.eligible(p, i, point, distance)
        &&& forall|q: int, j: int| #[trigger]
            self.eligible(q, j, point, distance) ==> {
                let here = dist_sq(point, self.sample_at(p, i, point)->0);
                let there = dist_sq(point, self.sample_at(q, j, point)->0);
                here < there || (here == there && !precedes(q, j, p, i))
            }
    }

    /// The point of the mesh nearest to `point` among those nearer than
    /// `distance_to_node`, with the index of its polygon. Each polygon is
    /// searched as a fan of triangles; of two points as near, the one of the
    /// earlier polygon wins, and within a polygon that of the earlier
    /// triangle.
    pub fn sample_point(&self, point: Vec3, distance_to_node: u32) -> (r: Option<(Vec3, usize)>)
        ensures
            match r {
                Some((sample, polygon)) => exists|i: int|
                    #![trigger self.sample_at(polygon as int, i, point)]
                    self.is_best_sample(polygon as int, i, point, distance_to_node) && Some(sample)
                        == self.sample_at(polygon as int, i, point),
                None => forall|p: int, i: int| !#[trigger] self.eligible(p, i, point, distance_to_node),
            },
            r == self.sample(point, distance_to_node),
    {
        proof {
            use_type_invariant(self);
        }
        let area = BoundingBox::point(point).expand_by_size(distance_to_node);
        assert(0 <= (distance_to_node as int) * (distance_to_node as int) <= 0xffff_ffff
            * 0xffff_ffff) by (nonlinear_arith)
            requires
                0 <= distance_to_node <= 0xffff_ffff,
        ;
        let limit: u128 = (distance_to_node as u128) * (distance_to_node as u128);
        let mut best: Option<(Vec3, usize)> = None;
        let mut best_distance: u128 = 0;
        let ghost mut best_i: int = 0;
        let mut p: usize = 0;
        while p < self.polygons.len()
            invariant
                self.wf(),
                p <= self.polygons.len(),
                area == sample_box(point, distance_to_node),
                limit == distance_to_node * distance_to_node,
                self.progress(best, best_distance, best_i, p as int, 0, point, distance_to_node),
            decreases self.polygons.len() - p,
        {
            let polygon = &self.polygons[p];
            proof {
                assert(self.polygon_ok(p as int));
            }
            if area.intersects_bounds(&polygon.bounds) {
                let n: usize = polygon.vertices.len();
                let mut i: usize = 2;
                proof {
                    self.lemma_progress_start(
                        best,
                        best_distance,
                        best_i,
                        p as int,
                        point,
                        distance_to_node,
                    );
                }
                while i < n
                    invariant
                        self.wf(),
                        p < self.polygons.len(),
                        polygon == self.polygons[p as int],
                        n == polygon.vertices.len(),
                        2 <= i <= n,
                        area == sample_box(point, distance_to_node),
                        area.intersects(polygon.bounds),
                        limit == distance_to_node * distance_to_node,
                        self.progress(
                            best,
                            best_distance,
                            best_i,
                            p as int,
                            i as int,
                            point,
                            distance_to_node,
                        ),
                    decreases n - i,
                {
                    proof {
                        assert(self.polygon_ok(p as int));
                    }
                    let a = self.vertices[polygon.vertices[0]];
                    let b = self.vertices[polygon.vertices[i - 1]];
                    let c = self.vertices[polygon.vertices[i]];
                    let ghost old_best = best;
                    let ghost old_distance = best_distance;
                    let ghost old_i = best_i;
                    match project_to_triangle(a, b, c, point) {
                        Some(projected) => {
                            let d: u128 = point.distance_squared(projected);
                            if d < limit {
                                let replace = match best {
                                    None => true,
                                    Some(_) => d < best_distance,
                                };
                                if replace {
                                    best = Some((projected, p));
                                    best_distance = d;
                                    proof {
                                        best_i = i as int;
                                    }
                                }
                            }
                        },
                        None => {},
                    }
                    proof {
                        self.lemma_progress_step(
                            old_best,
                            old_distance,
                            old_i,
                            best,
                            best_distance,
                            best_i,
                            p as int,
                            i as int,
                            point,
                            distance_to_node,
                        );
                    }
                    i = i + 1;
                }
                proof {
                    self.lemma_progress_next(
                        best,
                        best_distance,
                        best_i,
                        p as int,
                        n as int,
                        point,
                        distance_to_node,
                    );
                }
            } else {
                proof {
                    self.lemma_progress_skip(
                        best,
                        best_distance,
                        best_i,
                        p as int,
                        point,
                        distance_to_node,
                    );
                }
            }
            p = p + 1;
        }
        proof {
            self.lemma_progress_done(best, best_distance, best_i, point, distance_to_node);
            match best {
                Some((sample, polygon)) => {
                    let (p, i) = choose|p: int, i: int| #[trigger]
                        self.is_best_sample(p, i, point, distance_to_node);
                    self.lemma_best_sample_unique(
                        p,
                        i,
                        polygon as int,
                        best_i,
                        point,
                        distance_to_node,
                    );
                },
                None => {
                    assert forall|p: int, i: int| !#[trigger] self.is_best_sample(
                        p,
                        i,
                        point,
                        distance_to_node,
                    ) by {
                        assert(!self.eligible(p, i, point, distance_to_node));
                    }
                },
            }
        }
        best
    }

    /// What the search holds once the triangles before `(p, i)` have been
    /// looked at: the best of them, if any is eligible.
    spec fn progress(
        &self,
        best: Option<(Vec3, usize)>,
        best_distance: u128,
        best_i: int,
        p: int,
        i: int,
        point: Vec3,
        distance: u32,
    ) -> bool {
        match best {
            Some((sample, polygon)) => {
                &&& precedes(polygon as int, best_i, p, i)
                &&& self.eligible(polygon as int, best_i, point, distance)
                &&& Some(sample) == self.sample_at(polygon as int, best_i, point)
                &&& best_distance == dist_sq(point, sample)
                &&& forall|q: int, j: int|
                    precedes(q, j, p, i) && #[trigger] self.eligible(q, j, point, distance) ==> {
                        let there = dist_sq(point, self.sample_at(q, j, point)->0);
                        best_distance < there || (best_distance == there && !precedes(
                            q,
                            j,
                            polygon as int,
                            best_i,
                        ))
                    }
            },
            None => forall|q: int, j: int|
                precedes(q, j, p, i) ==> !#[trigger] self.eligible(q, j, point, distance),
        }
    }

    proof fn lemma_progress_start(
        &self,
        best: Option<(Vec3, usize)>,
        best_distance: u128,
        best_i: int,
        p: int,
        point: Vec3,
        distance: u32,
    )
        requires
            self.progress(best, best_distance, best_i, p, 0, point, distance),
        ensures
            self.progress(best, best_distance, best_i, p, 2, point, distance),
    {
        assert forall|q: int, j: int|
            precedes(q, j, p, 2) && #[trigger] self.eligible(q, j, point, distance) implies precedes(
            q,
            j,
            p,
            0,
        ) by {}
    }

    proof fn lemma_progress_skip(
        &self,
        best: Option<(Vec3, usize)>,
        best_distance: u128,
        best_i: int,
        p: int,
        point: Vec3,
        distance: u32,
    )
        requires
            self.progress(best, best_distance, best_i, p, 0, point, distance),
            !sample_box(point, distance).intersects(self.polygons[p].bounds),
        ensures
            self.progress(best, best_distance, best_i, p + 1, 0, point, distance),
    {
        assert forall|q: int, j: int|
            precedes(q, j, p + 1, 0) && #[trigger] self.eligible(q, j, point, distance) implies precedes(
            q,
            j,
            p,
            0,
        ) by {}
    }

    proof fn lemma_progress_next(
        &self,
        best: Option<(Vec3, usize)>,
        best_distance: u128,
        best_i: int,
        p: int,
        n: int,
        point: Vec3,
        distance: u32,
    )
        requires
            self.progress(best, best_distance, best_i, p, n, point, distance),
            0 <= p < self.polygons.len(),
            n == self.polygons[p].vertices.len(),
        ensures
            self.progress(best, best_distance, best_i, p + 1, 0, point, distance),
    {
        assert forall|q: int, j: int|
            precedes(q, j, p + 1, 0) && #[trigger] self.eligible(q, j, point, distance) implies precedes(
            q,
            j,
            p,
            n,
        ) by {}
    }

    proof fn lemma_progress_step(
        &self,
        best0: Option<(Vec3, usize)>,
        distance0: u128,
        i0: int,
        best1: Option<(Vec3, usize)>,
        distance1: u128,
        i1: int,
        p: int,
        i: int,
        point: Vec3,
        distance: u32,
    )
        requires
            self.progress(best0, distance0, i0, p, i, point, distance),
            0 <= p < self.polygons.len() <= usize::MAX,
            2 <= i < self.polygons[p].vertices.len(),
            sample_box(point, distance).intersects(self.polygons[p].bounds),
            ({
                let found = self.sample_at(p, i, point);
                let better = found is Some && dist_sq(point, found->0) < distance * distance && (
                best0 is None || dist_sq(point, found->0) < distance0);
                if better {
                    best1 == Some((found->0, p as usize)) && distance1 == dist_sq(point, found->0)
                        && i1 == i
                } else {
                    best1 == best0 && distance1 == distance0 && i1 == i0
                }
            }),
        ensures
            self.progress(best1, distance1, i1, p, i + 1, point, distance),
    {
        let found = self.sample_at(p, i, point);
        match best1 {
            Some((sample, polygon)) => {
                assert forall|q: int, j: int|
                    precedes(q, j, p, i + 1) && #[trigger] self.eligible(
                        q,
                        j,
                        point,
                        distance,
                    ) implies ({
                    let there = dist_sq(point, self.sample_at(q, j, point)->0);
                    distance1 < there || (distance1 == there && !precedes(
                        q,
                        j,
                        polygon as int,
                        i1,
                    ))
                }) by {
                    if precedes(q, j, p, i) {
                    } else {
                        assert(q == p && j == i);
                    }
                }
            },
            None => {
                assert forall|q: int, j: int| precedes(q, j, p, i + 1) implies !#[trigger] self.eligible(
                    q,
                    j,
                    point,
                    distance,
                ) by {
                    if precedes(q, j, p, i) {
                    } else {
                        assert(q == p && j == i);
                    }
                }
            },
        }
    }

    proof fn lemma_progress_done(
        &self,
        best: Option<(Vec3, usize)>,
        best_distance: u128,
        best_i: int,
        point: Vec3,
        distance: u32,
    )
        requires
            self.progress(
                best,
                best_distance,
                best_i,
                self.polygons.len() as int,
                0,
                point,
                distance,
            ),
        ensures
            match best {
                Some((sample, polygon)) => self.is_best_sample(
                    polygon as int,
                    best_i,
                    point,
                    distance,
                ) && Some(sample) == self.sample_at(polygon as int, best_i, point),
                None => forall|p: int, i: int| !#[trigger] self.eligible(p, i, point, distance),
            },
    {
        let total = self.polygons.len() as int;
        match best {
            Some((sample, polygon)) => {
                assert forall|q: int, j: int| #[trigger]
                    self.eligible(q, j, point, distance) implies ({
                    let here = dist_sq(point, self.sample_at(polygon as int, best_i, point)->0);
                    let there = dist_sq(point, self.sample_at(q, j, point)->0);
                    here < there || (here == there && !precedes(q, j, polygon as int, best_i))
                }) by {
                    assert(precedes(q, j, total, 0));
                }
            },
            None => {
                assert forall|p: int, i: int| !#[trigger] self.eligible(
                    p,
                    i,
                    point,
                    distance,
                ) by {
                    if self.eligible(p, i, point, distance) {
                        assert(precedes(p, i, total, 0));
                    }
                }
            },
        }
    }
}

impl ValidNavigationMesh {
    /// The sample for `point`: the point of the mesh nearest to `point` among
    /// those nearer than `distance`, with the index of its polygon.
    pub open(crate) spec fn sample(&self, point: Vec3, distance: u32) -> Option<(Vec3, usize)> {
        if exists|p: int, i: int| #[trigger] self.is_best_sample(p, i, point, distance) {
            let (p, i) = choose|p: int, i: int| #[trigger] self.is_best_sample(p, i, point, distance);
            Some((self.sample_at(p, i, point)->0, p as usize))
        } else {
            None
        }
    }

    /// Only one triangle gives the sample.
    pub proof fn lemma_best_sample_unique(
        &self,
        p: int,
        i: int,
        q: int,
        j: int,
        point: Vec3,
        distance: u32,
    )
        requires
            self.is_best_sample(p, i, point, distance),
            self.is_best_sample(q, j, point, distance),
        ensures
            p == q,
            i == j,
    {
        assert(self.eligible(p, i, point, distance));
        assert(self.eligible(q, j, point, distance));
    }
}

} // verus!
