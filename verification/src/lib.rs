//! Wave function collapse: nodes, the states they may take, and the
//! constraints that a node in one state places on its neighbors, collapsed
//! into one state per node by a verified backtracking search.

pub mod mask;
pub mod mapped_view;
pub mod random;
pub mod indexed_view;
pub mod node;
pub mod wave_function;
pub mod validation;
pub mod sorting;
pub mod collapse;
pub mod neighbor_masks;
pub mod model;
pub mod abstractions;
