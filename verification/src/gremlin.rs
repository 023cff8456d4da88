//! The data-level parts of the Gremlin runtime: accumulators, the job compiler's settings, and
//! the steps that select, filter and project traversers.
pub mod accum;
pub mod compiler;
pub mod step;
pub mod traverser;

use vstd::prelude::*;

verus! {

/// The tag that a traverser's entry can be kept under.
pub type AsTag = u8;

} // verus!
