//! Verified core of the GAIA graph query components: the pattern catalogue
//! (patterns, extend steps, pattern meta and their bit-level encoding), the
//! plan metadata of the IR, and the data-level parts of the Gremlin runtime.
use vstd::prelude::*;

pub mod assoc;
pub mod bits;
pub mod catalogue;
pub mod gremlin;
pub mod ir;
pub mod runtime;

verus! {

} // verus!
