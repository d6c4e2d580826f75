use edgedb_wire::codec::{STD_INT32, STD_INT64, STD_JSON};
use edgedb_wire::descriptors::{
    BaseScalarTypeDescriptor, Descriptor, ObjectShapeDescriptor, ShapeElementDescriptor, TypePos,
};
use edgedb_wire::errors::{DecodeError, DescriptorMismatch, ImplicitElement, WireType};
use edgedb_wire::queryable::{
    check_field_descriptor, decode_field, split_object, DescriptorContext, Decoder, FieldDecl,
    FieldType, FieldValue, RecordBinding,
};

fn field(name: &str, ty: FieldType) -> FieldDecl {
    FieldDecl { name: name.to_string(), ty, json: false, optional: false }
}

fn element(name: &str, implicit: bool, pos: u16) -> ShapeElementDescriptor {
    ShapeElementDescriptor {
        flag_implicit: implicit,
        flag_link_property: false,
        flag_link: false,
        name: name.to_string(),
        type_pos: TypePos(pos),
    }
}

// Positions: 0 int32, 1 int64, 2 json, 3 the object shape.
fn context(elements: Vec<ShapeElementDescriptor>, tid: bool) -> DescriptorContext {
    DescriptorContext {
        descriptors: vec![
            Descriptor::BaseScalar(BaseScalarTypeDescriptor { id: STD_INT32 }),
            Descriptor::BaseScalar(BaseScalarTypeDescriptor { id: STD_INT64 }),
            Descriptor::BaseScalar(BaseScalarTypeDescriptor { id: STD_JSON }),
            Descriptor::ObjectShape(ObjectShapeDescriptor { id: 0x1000, elements }),
        ],
        has_implicit_tid: tid,
        has_implicit_tname: false,
    }
}

fn ab_binding() -> RecordBinding {
    RecordBinding::new(vec![field("a", FieldType::Int32), field("b", FieldType::Int64)])
}

fn ab_shape() -> Vec<ShapeElementDescriptor> {
    vec![element("__tid__", true, 1), element("id", true, 1), element("a", false, 0), element("b", false, 1)]
}

#[test]
fn record_validates_against_matching_shape() {
    let ctx = context(ab_shape(), true);
    assert!(ab_binding().check_descriptor(&ctx, TypePos(3)).is_ok());
}

#[test]
fn record_rejects_renamed_field() {
    let mut shape = ab_shape();
    shape[2].name = "c".to_string();
    let ctx = context(shape, true);
    match ab_binding().check_descriptor(&ctx, TypePos(3)) {
        Err(DescriptorMismatch::WrongField { expected, unexpected }) => {
            assert_eq!(expected, "a");
            assert_eq!(unexpected, "c");
        }
        other => panic!("unexpected result {:?}", other),
    }
}

#[test]
fn record_rejects_extra_trailing_element() {
    let mut shape = ab_shape();
    shape.push(element("x", false, 0));
    let ctx = context(shape, true);
    match ab_binding().check_descriptor(&ctx, TypePos(3)) {
        Err(DescriptorMismatch::FieldNumber { expected, unexpected }) => {
            assert_eq!(expected, 5);
            assert_eq!(unexpected, 4);
        }
        other => panic!("unexpected result {:?}", other),
    }
}

#[test]
fn record_rejects_short_shape() {
    let mut shape = ab_shape();
    shape.pop();
    let ctx = context(shape, true);
    assert!(matches!(
        ab_binding().check_descriptor(&ctx, TypePos(3)),
        Err(DescriptorMismatch::FieldNumber { expected: 3, unexpected: 4 })
    ));
}

#[test]
fn record_requires_implicit_flags() {
    let mut shape = ab_shape();
    shape[0].flag_implicit = false;
    let ctx = context(shape, true);
    assert!(matches!(
        ab_binding().check_descriptor(&ctx, TypePos(3)),
        Err(DescriptorMismatch::Expected { expected: ImplicitElement::TypeId })
    ));
    let mut shape = ab_shape();
    shape[1].flag_implicit = false;
    let ctx = context(shape, true);
    assert!(matches!(
        ab_binding().check_descriptor(&ctx, TypePos(3)),
        Err(DescriptorMismatch::Expected { expected: ImplicitElement::Id })
    ));
}

#[test]
fn record_without_negotiated_type_id() {
    let shape = vec![element("id", true, 1), element("a", false, 0), element("b", false, 1)];
    let ctx = context(shape, false);
    assert!(ab_binding().check_descriptor(&ctx, TypePos(3)).is_ok());
}

#[test]
fn record_with_own_id_field_skips_implicit_id() {
    let binding = RecordBinding::new(vec![field("id", FieldType::Int64), field("a", FieldType::Int32)]);
    assert!(binding.has_id());
    assert!(!ab_binding().has_id());
    let shape = vec![element("__tid__", true, 1), element("id", false, 1), element("a", false, 0)];
    let ctx = context(shape, true);
    assert!(binding.check_descriptor(&ctx, TypePos(3)).is_ok());
}

#[test]
fn record_rejects_wrong_field_type() {
    let mut shape = ab_shape();
    shape[2].type_pos = TypePos(1);
    let ctx = context(shape, true);
    assert!(matches!(
        ab_binding().check_descriptor(&ctx, TypePos(3)),
        Err(DescriptorMismatch::WrongType { position: 1, expected: WireType::Int32 })
    ));
}

#[test]
fn record_rejects_non_object_and_bad_position() {
    let ctx = context(ab_shape(), true);
    assert!(matches!(
        ab_binding().check_descriptor(&ctx, TypePos(0)),
        Err(DescriptorMismatch::WrongType { position: 0, expected: WireType::Object })
    ));
    assert!(matches!(
        ab_binding().check_descriptor(&ctx, TypePos(9)),
        Err(DescriptorMismatch::InvalidTypePos { position: 9 })
    ));
    let mut shape = ab_shape();
    shape[3].type_pos = TypePos(40);
    let ctx = context(shape, true);
    assert!(matches!(
        ab_binding().check_descriptor(&ctx, TypePos(3)),
        Err(DescriptorMismatch::InvalidTypePos { position: 40 })
    ));
}

#[test]
fn json_field_validates_against_json_scalar() {
    let ctx = context(ab_shape(), true);
    let mut f = field("a", FieldType::Int32);
    assert!(check_field_descriptor(&ctx, &f, TypePos(0)).is_ok());
    f.json = true;
    assert!(check_field_descriptor(&ctx, &f, TypePos(2)).is_ok());
    assert!(matches!(
        check_field_descriptor(&ctx, &f, TypePos(0)),
        Err(DescriptorMismatch::WrongType { position: 0, expected: WireType::Json })
    ));
}

fn encode_object(elements: &[Option<Vec<u8>>]) -> Vec<u8> {
    let mut out = (elements.len() as u32).to_be_bytes().to_vec();
    for e in elements {
        match e {
            None => out.extend_from_slice(&(-1i32).to_be_bytes()),
            Some(b) => {
                out.extend_from_slice(&(b.len() as i32).to_be_bytes());
                out.extend_from_slice(b);
            }
        }
    }
    out
}

fn ab_row(a: i32, b: i64) -> Vec<Option<Vec<u8>>> {
    vec![
        Some(vec![0xaa; 16]),
        Some(vec![0xbb; 16]),
        Some(a.to_be_bytes().to_vec()),
        Some(b.to_be_bytes().to_vec()),
    ]
}

const TID: Decoder = Decoder { has_implicit_tid: true, has_implicit_tname: false };

#[test]
fn decode_yields_fieldwise_values() {
    let row = ab_row(-5, 123456789012);
    let buf = encode_object(&row);
    let binding = ab_binding();
    let record = binding.decode(&TID, &buf).unwrap();
    assert_eq!(record.fields, vec![FieldValue::Int32(-5), FieldValue::Int64(123456789012)]);
    let fields = binding.fields();
    assert_eq!(decode_field(&fields[0], row[2].as_deref()), Ok(record.fields[0]));
    assert_eq!(decode_field(&fields[1], row[3].as_deref()), Ok(record.fields[1]));
}

#[test]
fn split_object_gives_payloads() {
    let row = vec![Some(vec![1, 2]), None, Some(vec![])];
    let buf = encode_object(&row);
    assert_eq!(split_object(&buf, 3), Ok(row));
    assert_eq!(split_object(&buf, 2), Err(DecodeError::ObjectSizeMismatch));
    assert_eq!(split_object(&buf[..buf.len() - 1], 3), Err(DecodeError::Underflow));
    assert_eq!(split_object(&[0, 0, 0], 0), Err(DecodeError::Underflow));
    assert_eq!(split_object(&[0, 0, 0, 0], 0), Ok(vec![]));
}

#[test]
fn split_object_rejects_negative_length() {
    let mut buf = 1u32.to_be_bytes().to_vec();
    buf.extend_from_slice(&(-2i32).to_be_bytes());
    assert_eq!(split_object(&buf, 1), Err(DecodeError::InvalidElementLength));
}

#[test]
fn decode_checks_element_count() {
    let mut row = ab_row(1, 2);
    row.remove(0);
    let buf = encode_object(&row);
    assert_eq!(ab_binding().decode(&TID, &buf).map(|r| r.fields), Err(DecodeError::ObjectSizeMismatch));
    let none = Decoder { has_implicit_tid: false, has_implicit_tname: false };
    assert_eq!(
        ab_binding().decode(&none, &buf).map(|r| r.fields),
        Ok(vec![FieldValue::Int32(1), FieldValue::Int64(2)])
    );
}

#[test]
fn decode_absent_fields() {
    let mut row = ab_row(1, 2);
    row[2] = None;
    let buf = encode_object(&row);
    assert_eq!(ab_binding().decode(&TID, &buf).map(|r| r.fields), Err(DecodeError::MissingRequiredElement));
    let mut a = field("a", FieldType::Int32);
    a.optional = true;
    let binding = RecordBinding::new(vec![a, field("b", FieldType::Int64)]);
    assert_eq!(
        binding.decode(&TID, &buf).map(|r| r.fields),
        Ok(vec![FieldValue::Null, FieldValue::Int64(2)])
    );
}

#[test]
fn decode_field_payload_widths() {
    let f = field("a", FieldType::Int32);
    assert_eq!(decode_field(&f, Some(&[0, 0, 4])), Err(DecodeError::Underflow));
    assert_eq!(decode_field(&f, Some(&[0, 0, 4, 210, 0])), Err(DecodeError::ExtraData));
    assert_eq!(decode_field(&f, Some(&[0, 0, 4, 210])), Ok(FieldValue::Int32(1234)));
    assert_eq!(decode_field(&f, None), Err(DecodeError::MissingRequiredElement));
}

#[test]
fn json_field_is_parsed_into_its_type() {
    let mut a = field("a", FieldType::Int32);
    a.json = true;
    let mut b = field("b", FieldType::Int64);
    b.json = true;
    assert_eq!(decode_field(&a, Some(b"1234")), Ok(FieldValue::Int32(1234)));
    assert_eq!(decode_field(&b, Some(b" -123456789012 ")), Ok(FieldValue::Int64(-123456789012)));
    let binding = RecordBinding::new(vec![a, b]);
    let row = vec![Some(vec![0; 16]), Some(vec![0; 16]), Some(b"7".to_vec()), Some(b"8".to_vec())];
    assert_eq!(
        binding.decode(&TID, &encode_object(&row)).map(|r| r.fields),
        Ok(vec![FieldValue::Int32(7), FieldValue::Int64(8)])
    );
}

#[test]
fn malformed_json_fails_with_json_error() {
    let mut a = field("a", FieldType::Int32);
    a.json = true;
    assert_eq!(decode_field(&a, Some(b"{not json")), Err(DecodeError::InvalidJson));
    assert_eq!(decode_field(&a, Some(b"99999999999")), Err(DecodeError::InvalidJson));
    let binding = RecordBinding::new(vec![a, field("b", FieldType::Int64)]);
    let mut row = ab_row(0, 0);
    row[2] = Some(b"[1,".to_vec());
    assert_eq!(binding.decode(&TID, &encode_object(&row)).map(|r| r.fields), Err(DecodeError::InvalidJson));
}
