//! Global clustering coefficient of a graph held as a dense adjacency matrix.
//!
//! A graph is a list of nodes, each naming the nodes it has as subjects. The
//! list is turned into a square 0/1 matrix; closed triplets are counted from
//! the trace of the matrix's third power, open triplets from the nodes'
//! subject lists, and the coefficient is the ratio of the closed triplets to
//! all of them.

pub mod dense;
pub mod error;
pub mod graph;
pub mod matrix;
pub mod node;
pub mod registry;
pub mod render;
