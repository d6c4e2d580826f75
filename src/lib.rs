//! Wire decoding core of a database client: descriptor-driven codecs and
//! record bindings that validate a live shape once and then decode rows.
use vstd::prelude::*;

pub mod errors;
pub mod descriptors;
pub mod value;
pub mod cursor;
pub mod codec;
pub mod json;
pub mod queryable;


verus! {

} // verus!
