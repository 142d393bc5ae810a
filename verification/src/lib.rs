//! Extraction of an inter-module dependency graph from module source text,
//! with breadth-first reachability subgraphs and deterministic dot rendering.
//!
//! The crate is a library of pure functions: reading input files, writing
//! output files and invoking an external layout program are left to the
//! caller.

pub mod builder;
pub mod extract;
pub mod graph;
pub mod options;
pub mod pipeline;
pub mod render;
pub mod subgraph;
