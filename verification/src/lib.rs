//! The core of a scene graph for a real-time 3D engine.
//!
//! A scene is a rooted tree of nodes held in a generational arena. Each node
//! carries a common state: name, placement, visibility, lifetime, depth
//! offset, level-of-detail group and the record of the resource it was
//! instantiated from. Once per tick the graph is updated from the top down:
//! global transforms and visibilities are settled, lifetimes run down, and
//! the nodes whose time is over go with their descendants. A graph can be
//! written to a stream of named regions and restored from it, and the graph
//! of a resource can be copied into a scene.
//!
//! Quantities the graph computes with (normalized distances, depth offsets,
//! lifetimes) are fixed-point integers. Spatial data (transforms and matrices)
//! is carried bit for bit and never computed with: the caller hands the
//! update the function that composes transforms.
//!
//! The modules, from the leaves up:
//! - `units`, `handle`, `transform`: numbers, handles, spatial data;
//! - `pool`: the arena;
//! - `lod`, `base`, `node`: the state of a node;
//! - `hierarchy`, `traversal`, `linking`, `removal`, `ticking`, `detail`: the
//!   mathematics of the tree and of the operations on it;
//! - `graph`, `flatten`, `instancing`: the scene graph and what is built on it;
//! - `stream`, `persist`, `snapshot`, `restore`: persistence and its law;
//! - `query`: the life cycle of occlusion queries.

pub mod base;
pub mod detail;
pub mod flatten;
pub mod graph;
pub mod handle;
pub mod hierarchy;
pub mod instancing;
pub mod linking;
pub mod lod;
pub mod node;
pub mod persist;
pub mod pool;
pub mod query;
pub mod removal;
pub mod restore;
pub mod snapshot;
pub mod stream;
pub mod ticking;
pub mod transform;
pub mod traversal;
pub mod units;
