//! The graph side of the runtime.
use vstd::prelude::*;

verus! {

/// The direction in which to expand from a vertex.
#[derive(Copy, Clone, Eq, PartialEq, Structural, Debug)]
pub enum Direction {
    Out,
    In,
    Both,
}

} // verus!
