//! Module-dependency analysis for splitting a Rust crate into a workspace of
//! smaller crates whose dependency graph is acyclic.

pub mod analyze;
pub mod classify;
pub mod counting;
pub mod discover;
pub mod fas;
pub mod frontier;
pub mod graph;
pub mod modpath;
pub mod parse;
pub mod report;
pub mod respect_order;
pub mod scaffold;
pub mod scc;
pub mod source;
pub mod sort;
pub mod text;
