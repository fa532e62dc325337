//! Extraction of the forward-reachable subgraph of a software-artifact graph.
//!
//! Given a graph of archived software artifacts and a list of origin URLs,
//! the library resolves each origin to a node (optionally trying a
//! `git://` / `https://` protocol variation), runs a breadth-first forward
//! traversal from each resolved node, and accumulates the union of all
//! reached nodes.  Origins that resolve to no node are reported back in
//! input order.

pub mod bytes;
pub mod driver;
pub mod graph;
pub mod ids;
pub mod laws;
pub mod resolve;
pub mod traverse;
pub mod visited;
