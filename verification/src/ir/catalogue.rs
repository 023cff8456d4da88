//! Patterns of a graph query, their extension steps and the ranking of their vertices.
use vstd::prelude::*;

pub mod collections;
pub mod extend_step;
pub mod pattern;

verus! {

pub type PatternId = i32;

pub type PatternLabelId = i32;

pub type PatternRankId = i32;

/// The direction of an edge, seen from one of its end vertices.
#[derive(Debug, Clone, Copy, PartialEq, Eq, Structural, PartialOrd, Ord, Hash)]
pub enum PatternDirection {
    Out,
    In,
}

} // verus!
