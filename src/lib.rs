//! Weighted geometric graphs over integer coordinates and weights: distance
//! functions, edge weight functions, graph construction, a greedy
//! single-use-edge A* walk, and Prim's minimum spanning tree.

pub mod a_star;
pub mod distance;
pub mod edge_weight;
pub mod graph;
pub mod matrix;
pub mod mst;
pub mod prim;
pub mod types;
