//! The errors of the graph abstractions built on wave functions.

use vstd::prelude::*;

verus! {

/// Why a priority web could not place its values on its nodes.
#[derive(Debug, Clone)]
pub enum PriorityWebError {
    FailedToMapValuesToNodesAtAnyDistance,
}

/// Why a proximity graph could not place its values on its nodes.
#[derive(Debug, Clone)]
pub enum ProximityGraphError {
    FailedToMapValuesToNodesAtAnyDistance,
    TestError,
}

} // verus!
