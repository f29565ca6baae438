//! An in-memory analytics engine for undirected graphs given as edge lists:
//! node degrees, triangle count, density, degree centrality, connected
//! components and a sequential partition labelling, each stated over an
//! explicit model of the graph and proved against it.

pub mod graph;
pub mod ingest;
pub mod sums;
pub mod degree;
pub mod triangles;
pub mod components;
pub mod parse;
pub mod partition;
pub mod repeatable;
