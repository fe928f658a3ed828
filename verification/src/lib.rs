//! An incremental computation graph.
//!
//! A graph owns a set of memoized computation nodes connected by dependency
//! edges that are discovered while the nodes run.  Overwriting one node's
//! computation invalidates ("dirties") exactly the nodes that transitively
//! depended on it, so a later evaluation re-derives only what was affected
//! and serves everything else from its cache.

pub mod ids;
pub mod edges;
pub mod memo;
pub mod graph;
pub mod laws;

pub use graph::Graph;
pub use graph::Handle;
pub use graph::Thunk;
pub use graph::ThunkFn;
pub use ids::AThunkID;
pub use ids::ArgKey;
pub use ids::Keyed;
