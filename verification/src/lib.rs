//! A graph-analytics library over a compressed adjacency (CSR) representation
//! with dense integer node ids: breadth-first distances, weakly-connected
//! components via union-find, and supporting structures, all with verified
//! contracts.

pub mod atomic_union_find;
pub mod bfs;
pub mod edge_list;
pub mod graph;
pub mod pagerank;
pub mod union_find;
pub mod wcc;
