//! A scene graph: a pool of nodes addressed by generation-tagged handles,
//! a local transform on every node, and a lazy pre-order traversal that
//! hands out each node together with its accumulated world transform.
//!
//! - [`pool`] stores values under handles; [`handle`] is the handle type.
//! - [`node`] and [`scene`] build the graph: nodes are created, moved and
//!   made children of one another.
//! - [`transform`] says what the graph needs of a transform type, and
//!   [`world`] what the world transform of a node is.
//! - [`order`] defines the order of visits as a function of the graph and
//!   proves that it is a pre-order with the newest sibling first;
//!   [`tree`] adds what holds where the graph is a tree.
//! - [`traversal`] is the walk itself, proved to follow that order one
//!   node at a time.

mod arena;
pub mod handle;
pub mod node;
pub mod order;
pub mod pool;
pub mod scene;
pub mod transform;
pub mod traversal;
pub mod tree;
pub mod world;

pub use crate::handle::Handle;
pub use crate::node::{Node, NodeEntry};
pub use crate::pool::Pool;
pub use crate::scene::Scene;
pub use crate::transform::Transform;
pub use crate::traversal::{Traversal, TraversalAction};
