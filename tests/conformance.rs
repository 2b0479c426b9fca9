use parity_scale_codec::{Encode, OptionBool};
use serde_scale::{from_slice, to_vec, Shape, Value, VariantShape};

fn some(v: Value) -> Value {
    Value::Option(Some(Box::new(v)))
}

fn variant(enum_name: &'static str, variant_name: &'static str, index: u32, fields: Vec<Value>) -> Value {
    Value::Variant { enum_name, variant_name, index, fields }
}

fn result_shape(ok: Shape, err: Shape) -> Shape {
    Shape::Enum {
        name: "Result",
        variants: vec![
            VariantShape { name: "Ok", fields: vec![ok] },
            VariantShape { name: "Err", fields: vec![err] },
        ],
    }
}

fn operator_shape() -> Shape {
    Shape::Tuple(vec![Shape::Str, Shape::U8])
}

fn operator(name: &str, priority: u8) -> Value {
    Value::Tuple(vec![Value::Str(name.to_string()), Value::U8(priority)])
}

/// The shape of an expression tree, unfolded `depth` times.
fn expression_shape(depth: usize) -> Shape {
    let mut variants = vec![VariantShape { name: "Const", fields: vec![Shape::I32] }];
    if depth > 0 {
        variants.push(VariantShape {
            name: "Op",
            fields: vec![expression_shape(depth - 1), operator_shape(), expression_shape(depth - 1)],
        });
    }
    Shape::Enum { name: "Expression", variants }
}

fn constant(c: i32) -> Value {
    variant("Expression", "Const", 0, vec![Value::I32(c)])
}

/// A representative value of each supported shape, its shape, and the bytes
/// that parity-scale-codec gives for it.
fn data_set() -> Vec<(Value, Shape, Vec<u8>)> {
    let mut op_bytes = vec![1u8];
    op_bytes.extend((0u8, 2i32).encode());
    op_bytes.extend(("+".to_string(), 2u8).encode());
    op_bytes.extend((0u8, 3i32).encode());
    vec![
        (Value::I8(i8::MIN), Shape::I8, i8::MIN.encode()),
        (Value::I8(1), Shape::I8, 1i8.encode()),
        (Value::I8(i8::MAX), Shape::I8, i8::MAX.encode()),
        (Value::I16(i16::MIN), Shape::I16, i16::MIN.encode()),
        (Value::I16(1), Shape::I16, 1i16.encode()),
        (Value::I16(i16::MAX), Shape::I16, i16::MAX.encode()),
        (Value::I32(i32::MIN), Shape::I32, i32::MIN.encode()),
        (Value::I32(1), Shape::I32, 1i32.encode()),
        (Value::I32(i32::MAX), Shape::I32, i32::MAX.encode()),
        (Value::I64(i64::MIN), Shape::I64, i64::MIN.encode()),
        (Value::I64(1), Shape::I64, 1i64.encode()),
        (Value::I64(i64::MAX), Shape::I64, i64::MAX.encode()),
        (Value::U8(u8::MIN), Shape::U8, u8::MIN.encode()),
        (Value::U8(1), Shape::U8, 1u8.encode()),
        (Value::U8(u8::MAX), Shape::U8, u8::MAX.encode()),
        (Value::U16(u16::MIN), Shape::U16, u16::MIN.encode()),
        (Value::U16(1), Shape::U16, 1u16.encode()),
        (Value::U16(u16::MAX), Shape::U16, u16::MAX.encode()),
        (Value::U32(u32::MIN), Shape::U32, u32::MIN.encode()),
        (Value::U32(1), Shape::U32, 1u32.encode()),
        (Value::U32(u32::MAX), Shape::U32, u32::MAX.encode()),
        (Value::U64(u64::MIN), Shape::U64, u64::MIN.encode()),
        (Value::U64(1), Shape::U64, 1u64.encode()),
        (Value::U64(u64::MAX), Shape::U64, u64::MAX.encode()),
        (Value::Bool(false), Shape::Bool, false.encode()),
        (Value::Bool(true), Shape::Bool, true.encode()),
        (Value::Option(None), Shape::Option(Box::new(Shape::I32)), None::<i32>.encode()),
        (some(Value::I32(3)), Shape::Option(Box::new(Shape::I32)), Some(3i32).encode()),
        (Value::Option(None), Shape::Option(Box::new(Shape::Bool)), OptionBool(None).encode()),
        (
            some(Value::Bool(false)),
            Shape::Option(Box::new(Shape::Bool)),
            OptionBool(Some(false)).encode(),
        ),
        (
            some(Value::Bool(true)),
            Shape::Option(Box::new(Shape::Bool)),
            OptionBool(Some(true)).encode(),
        ),
        (
            variant("Result", "Ok", 0, vec![Value::I32(3)]),
            result_shape(Shape::I32, Shape::Str),
            Ok::<i32, String>(3).encode(),
        ),
        (
            variant("Result", "Err", 1, vec![Value::I32(3)]),
            result_shape(Shape::Str, Shape::I32),
            Err::<String, i32>(3).encode(),
        ),
        (
            Value::List(vec![Value::I32(1), Value::I32(2), Value::I32(3)]),
            Shape::List(Box::new(Shape::I32)),
            vec![1i32, 2, 3].encode(),
        ),
        (Value::Str("foo".to_string()), Shape::Str, "foo".to_string().encode()),
        (
            Value::Tuple(vec![Value::I32(3), Value::Str("foo".to_string())]),
            Shape::Tuple(vec![Shape::I32, Shape::Str]),
            (3i32, "foo".to_string()).encode(),
        ),
        (operator("+", 2), operator_shape(), ("+".to_string(), 2u8).encode()),
        (constant(3), expression_shape(0), (0u8, 3i32).encode()),
        (
            variant("Expression", "Op", 1, vec![constant(2), operator("+", 2), constant(3)]),
            expression_shape(1),
            op_bytes,
        ),
        (Value::Char('é'), Shape::Char, ('é' as u32).encode()),
        (Value::Bytes(vec![1, 2, 3]), Shape::Bytes, vec![1u8, 2, 3].encode()),
        (
            Value::Dict(vec![(Value::U8(1), Value::Str("a".to_string()))]),
            Shape::Dict(Box::new(Shape::U8), Box::new(Shape::Str)),
            vec![(1u8, "a".to_string())].encode(),
        ),
        (Value::Unit, Shape::Unit, ().encode()),
    ]
}

#[test]
fn data_set_roundtrips() {
    for (value, shape, _) in data_set() {
        let bytes = to_vec(&value).unwrap();
        assert_eq!(from_slice(&bytes, &shape).unwrap(), value);
    }
}

#[test]
fn results_match_codec() {
    for (value, _, expected) in data_set() {
        assert_eq!(to_vec(&value).unwrap(), expected, "{:?}", value);
    }
}

#[test]
fn truncated_input_fails_with_end_of_input() {
    for (value, shape, _) in data_set() {
        let bytes = to_vec(&value).unwrap();
        for n in 0..bytes.len() {
            let r = from_slice(&bytes[..n], &shape);
            assert!(
                matches!(r, Err(serde_scale::Error::Io(serde_scale::EndOfInput))),
                "{:?} cut at {}",
                value,
                n
            );
        }
    }
}

#[test]
fn map_entries_follow_the_length_without_markers() {
    let v = Value::Dict(vec![
        (Value::U8(1), Value::U16(2)),
        (Value::U8(3), Value::U16(4)),
    ]);
    assert_eq!(to_vec(&v).unwrap(), [0x08, 1, 2, 0, 3, 4, 0]);
}

#[test]
fn long_string_uses_two_byte_length() {
    let s = "x".repeat(100);
    let bytes = to_vec(&Value::Str(s.clone())).unwrap();
    assert_eq!(bytes, s.encode());
    assert_eq!(&bytes[..2], &[0x91, 0x01]);
    assert_eq!(from_slice(&bytes, &Shape::Str).unwrap(), Value::Str(s));
}
