//! A knowledge graph held as labelled (subject, relation, object) triples,
//! with the dense adjacency matrix and the sparse relation matrix derived
//! from it.

pub mod triples;
pub mod matrix;
pub mod graph;

pub use graph::Graph;
pub use triples::Triple;
