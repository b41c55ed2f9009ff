//! The maze generators, one module each. Every generator takes a grid
//! without links and returns it with links.

pub mod aldous_broder;
pub mod binary_tree;
pub mod ellers;
pub mod growing_tree;
pub mod hunt_and_kill;
pub mod kruskals;
pub mod prims;
pub mod recursive_backtracker;
pub mod recursive_division;
pub mod sidewinder;
pub mod wilsons;
