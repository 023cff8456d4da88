//! Directions of the edges of catalogue patterns.
use vstd::prelude::*;

verus! {

/// The direction of an edge, seen from one of its end vertices.
#[derive(Debug, Clone, Copy, PartialEq, Eq, Structural, PartialOrd, Ord, Hash)]
pub enum Direction {
    Out,
    Incoming,
}

} // verus!
