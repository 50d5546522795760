//! Depth-first traversal over an arena-backed tree whose nodes carry only
//! parent, previous-sibling and last-child links.
mod iter;
mod scope;
pub mod shape;
mod tree;

pub use iter::{DepthFirstIter, MutDepthFirstIter};
pub use scope::{Runtime, RuntimeId, Scope, ScopeId};
pub use tree::{Links, NodeId, Tree};
