//! Depth-first decomposition of graphs into strongly connected, 2-edge-connected
//! and 2-vertex-connected components, with the queries built on them.
//!
//! - `graph` holds the graphs, and says what reachability, connectivity,
//!   bridges and articulation points are.
//! - `blocks` says what it means for two edges to lie in one
//!   2-vertex-connected component.
//! - `traversal` is the bookkeeping that the searches share.
//! - `directed` decomposes a directed graph and answers 2-SAT and
//!   topological-order queries; `scc_state` holds the invariant of its search.
//! - `undirected` decomposes an undirected graph and tells bridges and cut
//!   vertices; `bcc_state`, `ap_state`, `vcc_state` and `class_state` hold the
//!   invariant of its search, part by part, and `search_state` what the
//!   search knows of the vertices on its work stack.

pub mod graph;
pub mod blocks;
pub mod traversal;
mod scc_state;
pub mod directed;
mod bcc_state;
mod ap_state;
mod vcc_state;
mod class_state;
mod search_state;
pub mod undirected;
