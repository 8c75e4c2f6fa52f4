//! Islands: navigation meshes placed in the world.

use vstd::prelude::*;
use std::collections::HashMap;
use std::sync::Arc;
use crate::nav_mesh::ValidNavigationMesh;
use crate::util::{BoundingBox, Transform};

verus! {

/// The id of an island of an archipelago.
#[derive(Clone, Copy, PartialEq, Eq, Structural, Debug, Hash)]
pub struct IslandId(pub u64);

/// The id of a node type of an archipelago: a class of polygons that share a
/// cost.
#[derive(Clone, Copy, PartialEq, Eq, Structural, Debug, Hash)]
pub struct NodeType(pub u64);

impl IslandId {
    /// The number that stands for the id.
    pub fn to_bits(self) -> (r: u64)
        ensures
            r == self.0,
    {
        self.0
    }
}

impl NodeType {
    /// The number that stands for the id.
    pub fn to_bits(self) -> (r: u64)
        ensures
            r == self.0,
    {
        self.0
    }
}

/// The navigation data of an island.
pub struct IslandNavigationData {
    /// The placement of the mesh in the world.
    pub(crate) transform: Transform,
    /// The mesh. It may be shared with other islands.
    pub(crate) nav_mesh: Arc<ValidNavigationMesh>,
    /// The node type of each type index of the mesh. A type index without an
    /// entry stands for the default node type.
    pub(crate) type_index_to_node_type: HashMap<usize, NodeType>,
    /// The bounds of the mesh after `transform`.
    pub(crate) transformed_bounds: BoundingBox,
}

/// A place in an archipelago that a navigation mesh can be put into.
pub struct Island {
    /// The navigation data, if the island has any. An island without it is
    /// empty, but keeps its id.
    pub(crate) nav_data: Option<IslandNavigationData>,
}

impl IslandNavigationData {
    /// The mesh is validated, and the bounds are those of the mesh in the
    /// world.
    pub open(crate) spec fn wf(&self) -> bool {
        &&& self.nav_mesh.wf()
        &&& self.transformed_bounds == self.nav_mesh.bounds().transformed(self.transform)
    }
}

impl Island {
    /// Whether the island has navigation data.
    pub open(crate) spec fn has_nav_data(&self) -> bool {
        self.nav_data is Some
    }

    /// The placement of the island's mesh.
    pub open(crate) spec fn transform(&self) -> Transform {
        self.nav_data->0.transform
    }

    /// The island's mesh.
    pub open(crate) spec fn mesh(&self) -> ValidNavigationMesh {
        *self.nav_data->0.nav_mesh
    }

    /// The node types of the island's type indices.
    pub open(crate) spec fn node_types(&self) -> Map<usize, NodeType> {
        self.nav_data->0.type_index_to_node_type@
    }

    /// The bounds of the island's mesh in the world.
    pub open(crate) spec fn world_bounds(&self) -> BoundingBox {
        self.nav_data->0.transformed_bounds
    }

    /// The navigation data of the island, if any, is well formed.
    pub open(crate) spec fn wf(&self) -> bool {
        self.nav_data is Some ==> self.nav_data->0.wf()
    }

    /// An island without navigation data.
    pub fn new() -> (r: Island)
        ensures
            !r.has_nav_data(),
            r.wf(),
    {
        Island { nav_data: None }
    }

    /// The placement of the island's mesh, if the island has one.
    pub fn get_transform(&self) -> (r: Option<Transform>)
        ensures
            r is Some == self.has_nav_data(),
            r is Some ==> r->0 == self.transform(),
    {
        match &self.nav_data {
            Some(d) => Some(d.transform),
            None => None,
        }
    }

    /// The island's mesh, if the island has one.
    pub fn get_nav_mesh(&self) -> (r: Option<Arc<ValidNavigationMesh>>)
        ensures
            r is Some == self.has_nav_data(),
            r is Some ==> *r->0 == self.mesh(),
    {
        match &self.nav_data {
            Some(d) => Some(Arc::clone(&d.nav_mesh)),
            None => None,
        }
    }

    /// The node types of the island's type indices, if the island has a mesh.
    pub fn get_type_index_to_node_type(&self) -> (r: Option<&HashMap<usize, NodeType>>)
        ensures
            r is Some == self.has_nav_data(),
            r is Some ==> r->0@ == self.node_types(),
    {
        match &self.nav_data {
            Some(d) => Some(&d.type_index_to_node_type),
            None => None,
        }
    }

    /// Puts a mesh into the island, placed by `transform`.
    pub fn set_nav_mesh(
        &mut self,
        transform: Transform,
        nav_mesh: Arc<ValidNavigationMesh>,
        type_index_to_node_type: HashMap<usize, NodeType>,
    )
        ensures
            final(self).has_nav_data(),
            final(self).wf(),
            final(self).transform() == transform,
            final(self).mesh() == *nav_mesh,
            final(self).node_types() == type_index_to_node_type@,
            final(self).world_bounds() == nav_mesh.bounds().transformed(transform),
    {
        proof {
            use_type_invariant(&*nav_mesh);
        }
        let transformed_bounds = nav_mesh.get_bounds().transform(&transform);
        self.nav_data = Some(
            IslandNavigationData {
                transform,
                nav_mesh,
                type_index_to_node_type,
                transformed_bounds,
            },
        );
    }

    /// Takes the mesh out of the island.
    pub fn clear_nav_mesh(&mut self)
        ensures
            !final(self).has_nav_data(),
            final(self).wf(),
    {
        self.nav_data = None;
    }
}

} // verus!
