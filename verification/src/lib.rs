//! Navigation over polygonal meshes on the integer lattice: validated meshes,
//! islands stitched at their boundaries, path search, straight-path
//! extraction, and the per-tick steering of agents.

pub mod math;
pub mod util;
pub mod coords;
pub mod slots;
pub mod nav_mesh;
pub mod island;
pub mod linking;
pub mod nav_data;
pub mod regions;
pub mod overrides;
pub mod astar;
pub mod path;
pub mod pathfinding;
pub mod agent;
pub mod character;
pub mod avoidance;
pub mod steering;
pub mod archipelago;
pub mod query;
pub mod debug;

pub use agent::{Agent, AgentId, AgentState, TargetReachedCondition};
pub use archipelago::Archipelago;
pub use avoidance::{AgentOptions, AgentView, Avoidance, NoAvoidance};
pub use character::{Character, CharacterId, Velocity};
pub use coords::{CoordinateSystem, ThreeD, TwoD, Vec2};
pub use debug::{
    draw_archipelago_debug, DebugDrawer, LineType, PointType, RecordingDrawer, Shape, TriangleType,
};
pub use island::{Island, IslandId, NodeType};
pub use linking::LinkTolerance;
pub use math::Vec3;
pub use nav_data::{
    BoundaryLink, BoundaryLinkId, NavigationData, NewNodeTypeError, NodeRef,
    SetNodeTypeCostError,
};
pub use nav_mesh::{
    Connectivity, MeshEdgeRef, NavigationMesh, ValidNavigationMesh, ValidationError,
};
pub use overrides::CostOverrides;
pub use path::{BoundaryLinkSegment, IslandSegment, Path, PathIndex};
pub use query::{FindPathError, SamplePointError, SampledPoint};
pub use util::{BoundingBox, Rotation, Transform};
