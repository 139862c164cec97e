//! A model of inter-datacenter network links.
//!
//! Transit networks, each naming the set of datacenters it reaches, are
//! ingested into a multigraph whose nodes are datacenter identifiers and
//! whose edges are the networks themselves (one edge per unordered pair of
//! datacenters a network connects). Shortest-path queries over that graph
//! minimize either total cost or total bandwidth figures and hand back the
//! ordered list of network links traversed.

pub mod network;
pub mod paths;
pub mod engine;
pub mod graph;
