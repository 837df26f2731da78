//! Export-usage optimisation for shared dependencies of a module-federation build.
//!
//! The library models the parts of the bundler it consumes (module graph, per-export
//! usage lattice, build manifest) as plain data and verifies the analysis over them.
pub mod names;
pub mod state;
pub mod lattice;
pub mod graph;
pub mod plugin;
pub mod marker;
pub mod laws;
pub mod manifest;
pub mod session;
pub mod overrides;
pub mod collect;
pub mod container;
