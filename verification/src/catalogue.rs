//! The pattern catalogue: the schema-level meta of patterns and the encoding of patterns into
//! compact codes.
use vstd::prelude::*;

pub mod ascii_text;
pub mod codec;
pub mod encoder;
pub mod pattern;
pub mod pattern_meta;
pub mod roundtrip;

verus! {

/// The direction of an encoded edge.
#[derive(Debug, Clone, Copy, PartialEq, Eq, Structural, PartialOrd, Ord, Hash)]
pub enum Direction {
    Out,
    In,
}

} // verus!
