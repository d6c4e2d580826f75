//! Descriptors: the server's description of wire types, in a flat table.
use vstd::prelude::*;

verus! {

/// A zero-based position in a descriptor table.
#[derive(Debug, Clone, Copy, PartialEq, Eq, Structural)]
pub struct TypePos(pub u16);

/// A scalar type, known by its 128-bit identity.
#[derive(Debug, Clone, Copy, PartialEq, Eq, Structural)]
pub struct BaseScalarTypeDescriptor {
    pub id: u128,
}

/// One element of an object shape.
#[derive(Debug, Clone)]
pub struct ShapeElementDescriptor {
    pub flag_implicit: bool,
    pub flag_link_property: bool,
    pub flag_link: bool,
    pub name: String,
    pub type_pos: TypePos,
}

/// An object shape: its elements in wire order.
#[derive(Debug, Clone)]
pub struct ObjectShapeDescriptor {
    pub id: u128,
    pub elements: Vec<ShapeElementDescriptor>,
}

/// One element of a named tuple.
#[derive(Debug, Clone)]
pub struct TupleElementDescriptor {
    pub name: String,
    pub type_pos: TypePos,
}

/// A named tuple: its elements in wire order.
#[derive(Debug, Clone)]
pub struct NamedTupleTypeDescriptor {
    pub id: u128,
    pub elements: Vec<TupleElementDescriptor>,
}

/// A wire type description.
#[derive(Debug, Clone)]
pub enum Descriptor {
    BaseScalar(BaseScalarTypeDescriptor),
    ObjectShape(ObjectShapeDescriptor),
    NamedTuple(NamedTupleTypeDescriptor),
}

impl Descriptor {
    /// The identity this descriptor carries.
    pub open spec fn spec_id(&self) -> u128 {
        match self {
            Descriptor::BaseScalar(d) => d.id,
            Descriptor::ObjectShape(d) => d.id,
            Descriptor::NamedTuple(d) => d.id,
        }
    }

    pub fn id(&self) -> (r: u128)
        ensures
            r == self.spec_id(),
    {
        match self {
            Descriptor::BaseScalar(d) => d.id,
            Descriptor::ObjectShape(d) => d.id,
            Descriptor::NamedTuple(d) => d.id,
        }
    }
}

} // verus!
