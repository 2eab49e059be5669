//! A Wave-Function-Collapse-style constraint solver for 2D tile grids.
//!
//! A grid of cells starts fully undetermined; adjacency constraints — written
//! down directly or learned from a sample grid — restrict which tile types a
//! cell may take next to its already-determined neighbors. The solver
//! repeatedly collapses the cell with the fewest remaining options and
//! propagates the consequences until the grid is complete or a contradiction
//! is found.

pub mod constraint;
pub mod dirs;
pub mod grid;
pub mod sample;
pub mod solver;
pub mod utils;
