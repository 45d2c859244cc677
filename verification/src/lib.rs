//! Topology of building models recovered from finite-element meshes.
pub mod config;
pub mod connectivity;
pub mod edges;
pub mod exporters;
pub mod geometry;
pub mod incidence;
pub mod input;
pub mod models;
pub mod ordering;
pub mod parsers;
pub mod points;
pub mod reconstruction;
pub mod reconstructors;
pub mod registry;
pub mod scalar;
pub mod shares;
pub mod table;
pub mod text;
