//! A verified compiler middle-end for quantum circuits.
//!
//! A circuit over N qubit lanes is turned into a tensor network, contracted
//! by a lowest-rank-first heuristic, lowered to an operation tree with
//! explicit identity padding, scheduled as a dependency plan of primitive
//! kernel instructions, and finally serialised to a compact sparse wire
//! format.  Every step lives here with its contract; the numeric kernels,
//! the surface parsers and all I/O stay outside the library.

pub mod circuit;
pub mod contraction_plan;
pub mod compiler;
pub mod gates;
pub mod network;
pub mod op_tree;
pub mod scheduler;
pub mod span;
pub mod tree;
pub mod utils;

use vstd::prelude::*;

verus! {

} // verus!
