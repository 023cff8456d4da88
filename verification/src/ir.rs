//! The intermediate representation: the pattern catalogue and the plan metadata.
use vstd::prelude::*;

pub mod catalogue;
pub mod common;
pub mod plan;

use crate::ir::common::NameOrId;

verus! {

/// Errors of the intermediate representation.
#[derive(Debug)]
pub enum IrError {
    /// A pattern needs at least one edge.
    EmptyPattern,
    /// A pattern message that cannot be read as a pattern.
    FuzzyPattern,
    /// A tag that no node of the plan is kept under.
    TagNotExist(NameOrId),
}

} // verus!
