use edgedb_wire::codec::{
    build_codec, decode_scalar, scalar_codec, Codec, ShapeElement, TupleElement, STD_INT32, STD_INT64,
    STD_JSON,
};
use edgedb_wire::cursor::Cursor;
use edgedb_wire::descriptors::{
    BaseScalarTypeDescriptor, Descriptor, NamedTupleTypeDescriptor, ObjectShapeDescriptor,
    ShapeElementDescriptor, TupleElementDescriptor, TypePos,
};
use edgedb_wire::errors::{CodecError, DecodeError};
use edgedb_wire::value::{EnumValue, Scalar, Value};

fn scalar(id: u128) -> Descriptor {
    Descriptor::BaseScalar(BaseScalarTypeDescriptor { id })
}

fn table() -> Vec<Descriptor> {
    vec![scalar(STD_INT64), scalar(STD_INT32), scalar(STD_JSON)]
}

#[test]
fn int32_codec_decodes_big_endian_1234() {
    let tree = build_codec(STD_INT32, &table()).unwrap();
    assert_eq!(tree.root(), TypePos(1));
    assert_eq!(tree.codec_at(TypePos(1)), Some(&Codec::Int32));
    let mut bytes = 1234i32.to_be_bytes().to_vec();
    bytes.extend_from_slice(&[0, 0, 0, 0]);
    assert_eq!(tree.decode(&bytes), Ok(Value::Scalar(Scalar::Int32(1234))));
    let mut cur = Cursor::new(bytes);
    assert_eq!(decode_scalar(&Codec::Int32, &mut cur), Ok(Value::Scalar(Scalar::Int32(1234))));
    assert_eq!(cur.position(), 4);
    assert_eq!(cur.remaining(), 4);
}

#[test]
fn int32_codec_asks_for_eight_bytes() {
    let tree = build_codec(STD_INT32, &table()).unwrap();
    assert_eq!(tree.decode(&1234i32.to_be_bytes()), Err(DecodeError::Underflow));
    let mut cur = Cursor::new(1234i32.to_be_bytes().to_vec());
    assert_eq!(decode_scalar(&Codec::Int32, &mut cur), Err(DecodeError::Underflow));
    assert_eq!(cur.position(), 0);
}

#[test]
fn int64_codec_decodes_big_endian_123456789012() {
    let tree = build_codec(STD_INT64, &table()).unwrap();
    assert_eq!(tree.codec_at(tree.root()), Some(&Codec::Int64));
    let bytes = 123456789012i64.to_be_bytes().to_vec();
    assert_eq!(tree.decode(&bytes), Ok(Value::Scalar(Scalar::Int64(123456789012))));
    let mut cur = Cursor::new(bytes);
    assert_eq!(decode_scalar(&Codec::Int64, &mut cur), Ok(Value::Scalar(Scalar::Int64(123456789012))));
    assert_eq!(cur.remaining(), 0);
}

#[test]
fn int64_codec_underflow() {
    let mut cur = Cursor::new(vec![1, 2, 3, 4, 5, 6, 7]);
    assert_eq!(decode_scalar(&Codec::Int64, &mut cur), Err(DecodeError::Underflow));
}

#[test]
fn round_trip_of_negative_and_extreme_values() {
    for v in [i32::MIN, -1, 0, 1, i32::MAX] {
        let tree = build_codec(STD_INT32, &table()).unwrap();
        let mut bytes = v.to_be_bytes().to_vec();
        bytes.extend_from_slice(&[9, 9, 9, 9]);
        assert_eq!(tree.decode(&bytes), Ok(Value::Scalar(Scalar::Int32(v))));
    }
    for v in [i64::MIN, -123456789012, -1, 0, i64::MAX] {
        let tree = build_codec(STD_INT64, &table()).unwrap();
        assert_eq!(tree.decode(&v.to_be_bytes()), Ok(Value::Scalar(Scalar::Int64(v))));
    }
}

#[test]
fn consecutive_values_decode_in_order() {
    let mut bytes = 7i64.to_be_bytes().to_vec();
    bytes.extend_from_slice(&(-8i64).to_be_bytes());
    let mut cur = Cursor::new(bytes);
    assert_eq!(decode_scalar(&Codec::Int64, &mut cur), Ok(Value::Scalar(Scalar::Int64(7))));
    assert_eq!(decode_scalar(&Codec::Int64, &mut cur), Ok(Value::Scalar(Scalar::Int64(-8))));
    assert_eq!(decode_scalar(&Codec::Int64, &mut cur), Err(DecodeError::Underflow));
}

#[test]
fn root_not_found() {
    assert_eq!(build_codec(0x999, &table()).err(), Some(CodecError::UuidNotFound { uuid: 0x999 }));
    assert_eq!(build_codec(STD_INT32, &[]).err(), Some(CodecError::UuidNotFound { uuid: STD_INT32 }));
}

#[test]
fn root_with_unregistered_scalar() {
    let descs = vec![scalar(0x101)];
    assert_eq!(build_codec(0x101, &descs).err(), Some(CodecError::UndefinedBaseScalar { uuid: 0x101 }));
}

fn element(name: &str, implicit: bool, pos: u16) -> ShapeElementDescriptor {
    ShapeElementDescriptor {
        flag_implicit: implicit,
        flag_link_property: false,
        flag_link: false,
        name: name.to_string(),
        type_pos: TypePos(pos),
    }
}

fn object(id: u128, elements: Vec<ShapeElementDescriptor>) -> Descriptor {
    Descriptor::ObjectShape(ObjectShapeDescriptor { id, elements })
}

fn encode_object(elements: &[Option<Vec<u8>>]) -> Vec<u8> {
    let mut out = (elements.len() as u32).to_be_bytes().to_vec();
    for e in elements {
        match e {
            None => out.extend_from_slice(&(-1i32).to_be_bytes()),
            Some(b) => {
                out.extend_from_slice(&(b.len() as i32).to_be_bytes());
                out.extend_from_slice(b);
            }
        }
    }
    out
}

#[test]
fn object_root_builds_shared_children_once() {
    // 0 int64; 1 object {x: int64, y: int64}; 2 object {p: 1, q: 1, r: 0}
    let descs = vec![
        scalar(STD_INT64),
        object(0xa1, vec![element("x", false, 0), element("y", false, 0)]),
        object(0xa2, vec![element("p", false, 1), element("q", true, 1), element("r", false, 0)]),
        scalar(0x999),
    ];
    let tree = build_codec(0xa2, &descs).unwrap();
    assert_eq!(tree.root(), TypePos(2));
    assert_eq!(tree.codec_at(TypePos(0)), Some(&Codec::Int64));
    assert_eq!(tree.codec_at(TypePos(3)), None);
    assert_eq!(tree.codec_at(TypePos(7)), None);
    match tree.codec_at(TypePos(2)) {
        Some(Codec::Object(shape)) => {
            assert_eq!(shape.elements.len(), 3);
            assert_eq!(
                shape.elements[1],
                ShapeElement {
                    flag_implicit: true,
                    flag_link_property: false,
                    flag_link: false,
                    name: "q".to_string(),
                    codec: TypePos(1),
                }
            );
        }
        other => panic!("unexpected codec {:?}", other),
    }
    let inner = encode_object(&[Some(1i64.to_be_bytes().to_vec()), None]);
    let row = encode_object(&[Some(inner.clone()), None, Some((-3i64).to_be_bytes().to_vec())]);
    assert_eq!(
        tree.decode(&row),
        Ok(Value::Object {
            fields: vec![
                Some(Value::Object { fields: vec![Some(Value::Scalar(Scalar::Int64(1))), None] }),
                None,
                Some(Value::Scalar(Scalar::Int64(-3))),
            ]
        })
    );
    let short = encode_object(&[Some(inner), None, Some(vec![1, 2, 3])]);
    assert_eq!(tree.decode(&short), Err(DecodeError::Underflow));
    let wrong_count = encode_object(&[None, None]);
    assert_eq!(tree.decode(&wrong_count), Err(DecodeError::ObjectSizeMismatch));
}

#[test]
fn named_tuple_root() {
    let descs = vec![
        scalar(STD_INT32),
        Descriptor::NamedTuple(NamedTupleTypeDescriptor {
            id: 0xb1,
            elements: vec![TupleElementDescriptor { name: "n".to_string(), type_pos: TypePos(0) }],
        }),
    ];
    let tree = build_codec(0xb1, &descs).unwrap();
    match tree.codec_at(TypePos(1)) {
        Some(Codec::NamedTuple(t)) => {
            assert_eq!(t.elements, vec![TupleElement { name: "n".to_string(), codec: TypePos(0) }]);
        }
        other => panic!("unexpected codec {:?}", other),
    }
    let mut payload = 5i32.to_be_bytes().to_vec();
    payload.extend_from_slice(&[0, 0, 0, 0]);
    let row = encode_object(&[Some(payload)]);
    assert_eq!(
        tree.decode(&row),
        Ok(Value::NamedTuple { fields: vec![Some(Value::Scalar(Scalar::Int32(5)))] })
    );
}

#[test]
fn forward_references_resolve() {
    let forward = vec![object(0xc1, vec![element("a", false, 1)]), scalar(STD_INT64)];
    let tree = build_codec(0xc1, &forward).unwrap();
    assert_eq!(tree.root(), TypePos(0));
    assert_eq!(tree.codec_at(TypePos(1)), Some(&Codec::Int64));
    let row = encode_object(&[Some(9i64.to_be_bytes().to_vec())]);
    assert_eq!(
        tree.decode(&row),
        Ok(Value::Object { fields: vec![Some(Value::Scalar(Scalar::Int64(9)))] })
    );
}

#[test]
fn child_positions_must_be_in_range() {
    let far = vec![scalar(STD_INT32), object(0xc3, vec![element("a", false, 0), element("b", false, 40)])];
    assert_eq!(build_codec(0xc3, &far).err(), Some(CodecError::UnexpectedTypePos { position: 40 }));
    let forward_then_far =
        vec![object(0xc5, vec![element("a", false, 1), element("b", false, 40)]), scalar(STD_INT32)];
    assert_eq!(
        build_codec(0xc5, &forward_then_far).err(),
        Some(CodecError::UnexpectedTypePos { position: 40 })
    );
    let bad_child = vec![scalar(0x77), object(0xc4, vec![element("a", false, 0)])];
    assert_eq!(build_codec(0xc4, &bad_child).err(), Some(CodecError::UndefinedBaseScalar { uuid: 0x77 }));
}

#[test]
fn reference_loops_are_rejected() {
    let self_ref = vec![object(0xc2, vec![element("a", false, 0)])];
    assert_eq!(build_codec(0xc2, &self_ref).err(), Some(CodecError::CyclicReference { position: 0 }));
    let two = vec![
        object(0xd1, vec![element("x", false, 1)]),
        object(0xd2, vec![element("y", false, 0)]),
    ];
    assert!(matches!(build_codec(0xd1, &two).err(), Some(CodecError::CyclicReference { .. })));
}

#[test]
fn first_descriptor_with_the_root_wins() {
    let descs = vec![scalar(0x200), scalar(STD_INT64), scalar(STD_INT64)];
    assert_eq!(build_codec(STD_INT64, &descs).unwrap().root(), TypePos(1));
}

#[test]
fn root_beyond_addressable_positions() {
    let mut descs: Vec<Descriptor> = (0..65536).map(|_| scalar(0x1)).collect();
    descs.push(scalar(STD_INT32));
    assert_eq!(build_codec(STD_INT32, &descs).err(), Some(CodecError::TooManyDescriptors { index: 65536 }));
}

#[test]
fn scalar_codec_registry() {
    assert_eq!(scalar_codec(STD_INT32), Ok(Codec::Int32));
    assert_eq!(scalar_codec(STD_INT64), Ok(Codec::Int64));
    assert_eq!(scalar_codec(0x1234), Err(CodecError::UndefinedBaseScalar { uuid: 0x1234 }));
    assert_eq!(scalar_codec(STD_JSON), Err(CodecError::UndefinedBaseScalar { uuid: STD_JSON }));
}

#[test]
fn descriptor_identity() {
    assert_eq!(scalar(0x42).id(), 0x42);
}

#[test]
fn enum_value_keeps_its_name() {
    let v = EnumValue::new("Red".to_string());
    assert_eq!(v.as_str(), "Red");
}
