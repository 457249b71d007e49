//! A content-addressed block store for DAGs of immutable blocks.
//!
//! Blocks are opaque byte strings identified by caller-supplied content
//! identifiers (CIDs). Blocks declare outbound links to child CIDs, forming a
//! DAG. The store supports named aliases and process-scoped temporary aliases
//! that pin subgraphs, recursive reachability queries, and an incremental
//! mark-and-sweep garbage collector for everything no alias can reach.

pub mod schema;
pub mod store;
pub mod gc;
pub mod laws;
pub mod reach;
pub mod timing;
pub mod write;
