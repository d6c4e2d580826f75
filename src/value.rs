//! Decoded runtime values.
use vstd::prelude::*;

verus! {

/// A fixed-width scalar value.
#[derive(Debug, Clone, Copy, PartialEq, Eq, Structural)]
pub enum Scalar {
    Int32(i32),
    Int64(i64),
}

/// A decoded value. The fields of a composite follow its elements in wire
/// order; `None` stands for an absent element.
#[derive(Debug, PartialEq, Eq)]
pub enum Value {
    Scalar(Scalar),
    Object { fields: Vec<Option<Value>> },
    NamedTuple { fields: Vec<Option<Value>> },
}

/// The name of an enumeration member.
#[derive(Debug, Clone)]
pub struct EnumValue(pub String);

impl EnumValue {
    pub fn new(name: String) -> (r: EnumValue)
        ensures
            r.0@ == name@,
    {
        EnumValue(name)
    }

    pub fn as_str(&self) -> (r: &str)
        ensures
            r@ == self.0@,
    {
        self.0.as_str()
    }
}

} // verus!
