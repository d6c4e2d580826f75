//! Parsing JSON text into the declared scalar types.
use vstd::prelude::*;

verus! {

#[verifier::external_type_specification]
#[verifier::external_body]
pub struct ExJsonError(serde_json::Error);

/// The 32-bit integer that the JSON text `b` denotes, if it is one.
pub uninterp spec fn json_i32_of(b: Seq<u8>) -> Option<i32>;

/// The 64-bit integer that the JSON text `b` denotes, if it is one.
pub uninterp spec fn json_i64_of(b: Seq<u8>) -> Option<i64>;

/// Relies on serde_json::from_slice::<i32>: the result depends on the bytes alone.
#[verifier::external_body]
pub(crate) fn parse_json_i32(b: &[u8]) -> (r: Result<i32, serde_json::Error>)
    ensures
        match r {
            Ok(v) => json_i32_of(b@) == Some(v),
            Err(_) => json_i32_of(b@) is None,
        },
{
    serde_json::from_slice::<i32>(b)
}

/// Relies on serde_json::from_slice::<i64>: the result depends on the bytes alone.
#[verifier::external_body]
pub(crate) fn parse_json_i64(b: &[u8]) -> (r: Result<i64, serde_json::Error>)
    ensures
        match r {
            Ok(v) => json_i64_of(b@) == Some(v),
            Err(_) => json_i64_of(b@) is None,
        },
{
    serde_json::from_slice::<i64>(b)
}

} // verus!
