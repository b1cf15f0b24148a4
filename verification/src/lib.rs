//! Indexes a filesystem subtree as a flat arena of nodes with parent
//! back-links, and reports the largest files it contains together with
//! their reconstructed directory paths.

pub mod file_analyzer;
pub mod graph;
pub mod selection;
