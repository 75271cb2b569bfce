//! The structure of a software project as a directed graph: items are
//! nodes, and `Owns` and `Uses` relationships are edges. A builder checks
//! and assembles the graph in a stable graph store, optionally pruning what
//! cannot be reached from a root set; a walker turns the finished graph
//! into an ordered sequence of visit events.

use vstd::prelude::*;

pub mod graph;
pub mod item;
pub mod laws;
pub mod options;
pub mod order;
pub mod relationship;
pub mod store;
pub mod walker;

verus! {

} // verus!
