//! Homological invariants of graphs and their clique complexes: connected
//! components, cycle rank, Euler characteristic, clique complexes and the
//! integer data behind graph Laplacians.

pub mod chains;
pub mod clique;
pub mod components;
pub mod graph;
pub mod homology;
pub mod laplacian;
pub mod laws;
pub mod modular;
pub mod sorted;

pub use clique::CliqueComplex;
pub use graph::SimplicialGraph;
pub use homology::{EulerCharacteristic, GraphHomology};
pub use laplacian::GraphLaplacian;
