use serde_scale::{from_slice, to_vec, Deserializer, Error, Serializer, Shape, Value};

fn option_bool() -> Shape {
    Shape::Option(Box::new(Shape::Bool))
}

fn some(v: Value) -> Value {
    Value::Option(Some(Box::new(v)))
}

#[test]
fn none_bool_deserializes_from_0() {
    assert_eq!(from_slice(&[0], &option_bool()).unwrap(), Value::Option(None));
}

#[test]
fn some_true_deserializes_from_1() {
    assert_eq!(from_slice(&[1], &option_bool()).unwrap(), some(Value::Bool(true)));
}

#[test]
fn some_false_deserializes_from_2() {
    assert_eq!(from_slice(&[2], &option_bool()).unwrap(), some(Value::Bool(false)));
}

#[test]
fn none_bool_serializes_as_0() {
    assert_eq!(to_vec(&Value::Option(None)).unwrap(), [0]);
}

#[test]
fn some_true_serializes_as_1() {
    assert_eq!(to_vec(&some(Value::Bool(true))).unwrap(), [1]);
}

#[test]
fn some_false_serializes_as_2() {
    assert_eq!(to_vec(&some(Value::Bool(false))).unwrap(), [2]);
}

#[test]
fn option_of_i32_uses_a_marker_byte() {
    assert_eq!(to_vec(&Value::Option(None)).unwrap(), [0]);
    assert_eq!(to_vec(&some(Value::I32(3))).unwrap(), [1, 3, 0, 0, 0]);
    let shape = Shape::Option(Box::new(Shape::I32));
    assert_eq!(from_slice(&[1, 3, 0, 0, 0], &shape).unwrap(), some(Value::I32(3)));
    assert_eq!(from_slice(&[0], &shape).unwrap(), Value::Option(None));
}

#[test]
fn option_discriminant_3_is_invalid() {
    let r = from_slice(&[3], &option_bool());
    assert!(matches!(r, Err(Error::InvalidOption { found_discriminant: 3 })));
    let r = from_slice(&[3, 0, 0, 0, 0], &Shape::Option(Box::new(Shape::I32)));
    assert!(matches!(r, Err(Error::InvalidOption { found_discriminant: 3 })));
}

#[test]
fn discriminant_2_is_only_for_booleans() {
    let r = from_slice(&[2, 3, 0, 0, 0], &Shape::Option(Box::new(Shape::I32)));
    assert!(matches!(r, Err(Error::InvalidOption { found_discriminant: 2 })));
}

#[test]
fn nested_option_of_bool_uses_the_marker_outside() {
    let v = some(some(Value::Bool(false)));
    let bytes = to_vec(&v).unwrap();
    assert_eq!(bytes, [1, 2]);
    let shape = Shape::Option(Box::new(option_bool()));
    assert_eq!(from_slice(&bytes, &shape).unwrap(), v);
}

#[test]
fn optional_bool_payload_reads_no_byte() {
    let input: &[u8] = &[2, 7];
    let mut de = Deserializer::new(input);
    let d = de.deserialize_option().unwrap().unwrap();
    assert!(!d.deserialize_bool());
    assert!(matches!(
        d.check_bad_discriminant::<()>(),
        Err(Error::InvalidOption { found_discriminant: 2 })
    ));
    assert_eq!(de.into_inner(), &[7u8][..]);
}

#[test]
fn serializer_writes_option_bytes() {
    let mut ser = Serializer::new(Vec::new());
    ser.serialize_none().unwrap();
    ser.serialize_some_bool(true).unwrap();
    ser.serialize_some_bool(false).unwrap();
    ser.serialize_some().unwrap();
    ser.serialize_i32(3).unwrap();
    assert_eq!(ser.into_inner(), [0, 1, 2, 1, 3, 0, 0, 0]);
}
