//! A mutable directed graph with `u32` vertex and edge payloads.
//!
//! [`Graph`] names vertices by generation-stamped identities handed out by
//! an arena; [`GraphMap`] names them by their payload. Breadth-first
//! search, forward-reachability components and shortest paths are built on
//! top of [`GraphMap`], and [`text`] reads and writes a line-based text
//! format for graphs.
pub mod arena;
pub mod identity;
pub mod keyed;
pub mod laws;
pub mod listing;
pub mod paths;
pub mod text;
pub mod traversal;

pub use identity::{EdgeId, Graph, VertexId};
pub use keyed::GraphMap;
