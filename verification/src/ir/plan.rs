//! The plan side of the intermediate representation: the schema that maps names to ids, the
//! metadata of plans, and logical plans.
pub mod id_sets;
pub mod logical;
pub mod logical_pb;
pub mod meta;
pub mod preprocess;
