//! Maze generation and analysis over several grid topologies, with every
//! operation carrying a machine-checked contract.

pub mod braid;
pub mod cell;
pub mod cell_map;
pub mod distances;
pub mod generators;
pub mod graph;
pub mod hex;
pub mod grid;
pub mod kind;
pub mod laws;
pub mod mask;
pub mod masked;
pub mod model;
pub mod polar;
pub mod random;
pub mod rect;
pub mod search;
pub mod sets;
pub mod regular;
pub mod triangle;
pub mod weave;
pub mod weighted;

pub use crate::distances::Distances;
pub use crate::grid::Grid;
pub use crate::mask::Mask;
