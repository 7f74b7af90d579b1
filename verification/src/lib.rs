//! Immutable, content-addressable, ancestor-tracking DAGs.
//!
//! Nodes live in an [`Arena`]. A node is kept alive by the strong handles
//! ([`RelRc`]) that point at it and by its live children: every ancestor of a
//! live node is alive. Children are only known to their parents through weak
//! back-references, so releasing the last handle of a leaf lets the graph
//! shrink from the bottom up.
//!
//! A strong handle is made by creating a node or by [`RelRc::clone_ref`], and
//! is given back with [`RelRc::release`]. The views and graphs that hold
//! strong handles have a `release` of their own.

pub mod ancestor_graph;
pub mod detached;
pub mod edge;
pub mod graph_view;
pub mod hash_id;
pub mod history;
pub mod node;
pub mod registry;
pub mod resolver;
pub mod serialization;
pub mod traverse;

pub use ancestor_graph::AncestorGraph;
pub use detached::Detached;
pub use edge::{Edge, InnerEdgeData, WeakEdge};
pub use graph_view::RelRcGraph;
pub use hash_id::RelRcHash;
pub use history::{EdgeId, HistoryGraph};
pub use node::{Arena, InnerData, RelRc, RelWeak};
pub use registry::{NodeId, Registry};
pub use resolver::{EquivalenceResolver, InvalidResolver, NotEquivalent, ResolverId};
pub use serialization::{
    SerializedHistoryGraph, SerializedInnerData, SerializedRegistry, SerializedRelRc,
};
