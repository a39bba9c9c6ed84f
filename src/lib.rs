//! Barnes-Hut octree core: cell-space geometry, a node arena with free-list
//! reuse, struct-of-arrays leaf storage, and the tree builder and traversal.
pub mod arena;
pub mod bodies;
pub mod geometry;
pub mod model;
pub mod node;
pub mod octree;
pub mod query;

pub use arena::OptimizedOctreeNodePool;
pub use bodies::{BodyEntry, OctreeBody, OptimizedOctreeBodies};
pub use geometry::{octant_index, octant_is_high, CellBounds, CellPoint, GRID_DEPTH, GRID_SIDE};
pub use node::{ColdNodeData, NodeType, OptimizedOctreeNode};
pub use octree::{OptimizedOctree, DEFAULT_LEAF_THRESHOLD, MAX_BODIES};
pub use query::{Interaction, OctreeCounts};
