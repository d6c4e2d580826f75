//! Failure kinds of building codecs, decoding rows and validating shapes.
use vstd::prelude::*;

verus! {

/// A codec could not be built from a descriptor table.
#[derive(Debug, Clone, Copy, PartialEq, Eq, Structural)]
pub enum CodecError {
    /// A descriptor referenced a position outside the table.
    UnexpectedTypePos { position: u16 },
    /// The root descriptor sits at an index that a position cannot address.
    TooManyDescriptors { index: usize },
    /// No descriptor in the table carries the root identity.
    UuidNotFound { uuid: u128 },
    /// A scalar descriptor names an identity that has no registered codec.
    UndefinedBaseScalar { uuid: u128 },
    /// Following references from the root reached the composite at this
    /// position with more composites above it than the table has positions,
    /// so the references loop.
    CyclicReference { position: u16 },
}

/// A row could not be decoded.
#[derive(Debug, Clone, Copy, PartialEq, Eq, Structural)]
pub enum DecodeError {
    /// Fewer bytes remain than the value needs.
    Underflow,
    /// A payload holds more bytes than its value uses.
    ExtraData,
    /// The element count of an object does not match the expected count.
    ObjectSizeMismatch,
    /// An element length is negative but does not mark an absent element.
    InvalidElementLength,
    /// An absent element stands where a value is required.
    MissingRequiredElement,
    /// A field flagged as JSON does not hold JSON text of its type.
    InvalidJson,
}

/// Which implicit element validation expected.
#[derive(Debug, Clone, Copy, PartialEq, Eq, Structural)]
pub enum ImplicitElement {
    TypeId,
    TypeName,
    Id,
}

/// The kind of descriptor that validation expected at a position.
#[derive(Debug, Clone, Copy, PartialEq, Eq, Structural)]
pub enum WireType {
    Int32,
    Int64,
    Json,
    Object,
}

/// A declared record type does not match the shape the server described.
#[derive(Debug, Clone)]
pub enum DescriptorMismatch {
    /// A position outside the descriptor table.
    InvalidTypePos { position: u16 },
    /// The descriptor at `position` is not of the expected kind.
    WrongType { position: u16, expected: WireType },
    /// An element's name differs from the declared field's name.
    WrongField { expected: String, unexpected: String },
    /// The shape holds another number of elements than the record needs:
    /// `expected` is the shape's count, `unexpected` the record's.
    FieldNumber { expected: usize, unexpected: usize },
    /// An element that should be implicit is not flagged so.
    Expected { expected: ImplicitElement },
}

/// The mathematical value of a [`DescriptorMismatch`].
pub enum MismatchView {
    InvalidTypePos { position: u16 },
    WrongType { position: u16, expected: WireType },
    WrongField { expected: Seq<char>, unexpected: Seq<char> },
    FieldNumber { expected: int, unexpected: int },
    Expected { expected: ImplicitElement },
}

impl View for DescriptorMismatch {
    type V = MismatchView;

    open spec fn view(&self) -> MismatchView {
        match self {
            DescriptorMismatch::InvalidTypePos { position } => MismatchView::InvalidTypePos {
                position: *position,
            },
            DescriptorMismatch::WrongType { position, expected } => MismatchView::WrongType {
                position: *position,
                expected: *expected,
            },
            DescriptorMismatch::WrongField { expected, unexpected } => MismatchView::WrongField {
                expected: expected@,
                unexpected: unexpected@,
            },
            DescriptorMismatch::FieldNumber { expected, unexpected } => MismatchView::FieldNumber {
                expected: *expected as int,
                unexpected: *unexpected as int,
            },
            DescriptorMismatch::Expected { expected } => MismatchView::Expected {
                expected: *expected,
            },
        }
    }
}

} // verus!
