use serde_scale::{
    from_slice, to_vec, Bytes, Deserializer, EndOfInput, Error, OtherError, Read, Serializer,
    Shape, Text, Value, VariantShape,
};

#[test]
fn variant_index_256_is_too_many() {
    let v = Value::Variant { enum_name: "E", variant_name: "V256", index: 256, fields: vec![] };
    match to_vec(&v) {
        Err(Error::TooManyVariants { enum_name, variant_name, variant_index }) => {
            assert_eq!(enum_name, "E");
            assert_eq!(variant_name, "V256");
            assert_eq!(variant_index, 256);
        }
        other => panic!("unexpected {:?}", other),
    }
    let last = Value::Variant { enum_name: "E", variant_name: "V255", index: 255, fields: vec![] };
    assert_eq!(to_vec(&last).unwrap(), [255]);
}

#[test]
fn nested_variant_overflow_fails_the_whole_value() {
    let inner = Value::Variant { enum_name: "E", variant_name: "Big", index: 300, fields: vec![] };
    let v = Value::List(vec![Value::U8(1), inner]);
    assert!(matches!(to_vec(&v), Err(Error::TooManyVariants { variant_index: 300, .. })));
}

#[test]
fn invalid_utf8_consumes_the_declared_bytes() {
    let input: &[u8] = &[0x08, 0xFF, 0xFE, 0x2A];
    let mut de = Deserializer::new(input);
    assert!(matches!(de.deserialize_str(), Err(Error::InvalidUnicode(_))));
    assert_eq!(de.into_inner(), &[0x2Au8][..]);
    assert!(matches!(from_slice(input, &Shape::Str), Err(Error::InvalidUnicode(_))));
}

#[test]
fn string_is_borrowed_from_a_slice() {
    let input: &[u8] = &[0x0C, b'f', b'o', b'o'];
    let mut de = Deserializer::new(input);
    match de.deserialize_str().unwrap() {
        Text::Borrowed(s) => assert_eq!(s, "foo"),
        Text::Copied(_) => panic!("a slice lends its bytes for as long as it lives"),
    }
    let mut de = Deserializer::new(input);
    assert_eq!(de.deserialize_bytes().unwrap().as_slice(), b"foo");
}

#[test]
fn non_ascii_string_round_trips() {
    let v = Value::Str("héllo wörld ✓".to_string());
    let bytes = to_vec(&v).unwrap();
    assert_eq!(bytes[0], ("héllo wörld ✓".len() as u8) << 2);
    assert_eq!(from_slice(&bytes, &Shape::Str).unwrap(), v);
}

#[test]
fn boolean_other_than_0_or_1_is_rejected() {
    assert!(matches!(from_slice(&[2], &Shape::Bool), Err(Error::ExpectedBoolean { found: 2 })));
    assert_eq!(from_slice(&[1], &Shape::Bool).unwrap(), Value::Bool(true));
}

#[test]
fn invalid_code_point_is_rejected() {
    let surrogate = 0xD800u32.to_le_bytes();
    assert!(matches!(
        from_slice(&surrogate, &Shape::Char),
        Err(Error::InvalidCharacter { found: 0xD800 })
    ));
    let too_big = 0x110000u32.to_le_bytes();
    assert!(matches!(
        from_slice(&too_big, &Shape::Char),
        Err(Error::InvalidCharacter { found: 0x110000 })
    ));
    let ok = ('✓' as u32).to_le_bytes();
    assert_eq!(from_slice(&ok, &Shape::Char).unwrap(), Value::Char('✓'));
}

#[test]
fn unknown_variant_index_is_reported() {
    let shape = Shape::Enum {
        name: "E",
        variants: vec![VariantShape { name: "A", fields: vec![] }],
    };
    assert!(matches!(from_slice(&[1], &shape), Err(Error::Other(_))));
    assert!(matches!(
        from_slice(&[0], &shape).unwrap(),
        Value::Variant { index: 0, enum_name: "E", variant_name: "A", .. }
    ));
}

#[test]
fn type_must_be_known() {
    let input: &[u8] = &[0];
    let mut de = Deserializer::new(input);
    assert!(matches!(de.deserialize_any(), Err(Error::TypeMustBeKnown)));
}

#[test]
fn sequence_length_must_be_known() {
    let mut ser = Serializer::new(Vec::new());
    assert!(matches!(ser.serialize_seq(None), Err(Error::LengthNeeded)));
    assert!(matches!(ser.serialize_map(None), Err(Error::LengthNeeded)));
    ser.serialize_seq(Some(3)).unwrap();
    ser.serialize_map(Some(64)).unwrap();
    assert_eq!(ser.into_inner(), [0x0C, 0x01, 0x01]);
}

#[test]
fn unit_variant_writes_its_index() {
    let mut ser = Serializer::new(Vec::new());
    ser.serialize_unit_variant("E", 7, "G").unwrap();
    assert!(matches!(
        ser.serialize_unit_variant("E", 1000, "H"),
        Err(Error::TooManyVariants { variant_index: 1000, .. })
    ));
    assert_eq!(ser.into_inner(), [7]);
}

#[test]
fn slice_reader_reports_end_of_input() {
    let mut input: &[u8] = &[1, 2, 3];
    match input.read_bytes(2) {
        Ok(Bytes::Persistent(b)) => assert_eq!(b, &[1, 2]),
        _ => panic!("expected two persistent bytes"),
    }
    assert!(matches!(input.read_bytes(2), Err(EndOfInput)));
    assert_eq!(input, &[3]);
}

#[test]
fn fixed_width_integers_are_little_endian() {
    let mut ser = Serializer::new(Vec::new());
    ser.serialize_u16(0x0102).unwrap();
    ser.serialize_i16(-2).unwrap();
    ser.serialize_u32(0x01020304).unwrap();
    ser.serialize_i64(-1).unwrap();
    ser.serialize_char('A').unwrap();
    ser.serialize_bool(true).unwrap();
    let out = ser.into_inner();
    assert_eq!(
        out,
        [2, 1, 0xFE, 0xFF, 4, 3, 2, 1, 255, 255, 255, 255, 255, 255, 255, 255, 65, 0, 0, 0, 1]
    );
    let mut de = Deserializer::new(&out[..]);
    assert_eq!(de.deserialize_u16().unwrap(), 0x0102);
    assert_eq!(de.deserialize_i16().unwrap(), -2);
    assert_eq!(de.deserialize_u32().unwrap(), 0x01020304);
    assert_eq!(de.deserialize_i64().unwrap(), -1);
    assert_eq!(de.deserialize_char().unwrap(), 'A');
    assert!(de.deserialize_bool().unwrap());
    assert!(matches!(de.deserialize_u8(), Err(Error::Io(EndOfInput))));
}

#[test]
fn other_error_keeps_its_message() {
    let e = OtherError::from("custom failure");
    assert_eq!(e.as_str(), "custom failure");
    let e = OtherError::from(String::from("owned"));
    assert_eq!(e.as_str(), "owned");
}

#[test]
fn io_error_converts_into_error() {
    let e: Error<EndOfInput> = Error::from(EndOfInput);
    assert!(matches!(e, Error::Io(EndOfInput)));
}

#[test]
fn borrowed_reader_and_writer_work_through_references() {
    let mut out: Vec<u8> = Vec::new();
    {
        let mut ser = Serializer::new(&mut out);
        ser.serialize_u16(0xBEEF).unwrap();
        ser.serialize_str("hi").unwrap();
    }
    assert_eq!(out, [0xEF, 0xBE, 0x08, b'h', b'i']);
    let mut input: &[u8] = &out;
    {
        let mut de = Deserializer::new(&mut input);
        assert_eq!(de.deserialize_u16().unwrap(), 0xBEEF);
    }
    assert_eq!(input, &[0x08, b'h', b'i']);
    let mut de = Deserializer::new(&mut input);
    assert_eq!(de.deserialize_str().unwrap().as_str(), "hi");
}

#[test]
fn rejected_bytes_are_consumed_and_no_more() {
    let input: &[u8] = &[5, 7];
    let mut de = Deserializer::new(input);
    assert!(matches!(de.deserialize_bool(), Err(Error::ExpectedBoolean { found: 5 })));
    assert_eq!(de.into_inner(), &[7u8][..]);

    let input: &[u8] = &[3, 9];
    let mut de = Deserializer::new(input);
    assert!(matches!(de.deserialize_option(), Err(Error::InvalidOption { found_discriminant: 3 })));
    assert_eq!(de.into_inner(), &[9u8][..]);

    let input: &[u8] = &[0x00, 0xD8, 0x00, 0x00, 1];
    let mut de = Deserializer::new(input);
    assert!(matches!(de.deserialize_char(), Err(Error::InvalidCharacter { found: 0xD800 })));
    assert_eq!(de.into_inner(), &[1u8][..]);

    let input: &[u8] = &[0xFF, 1, 2];
    let mut de = Deserializer::new(input);
    assert!(matches!(de.read_compact(), Err(Error::CollectionTooLargeToDeserialize)));
    assert_eq!(de.into_inner(), &[1u8, 2][..]);
}

#[test]
fn failed_read_leaves_the_slice_as_it_was() {
    let mut input: &[u8] = &[1, 2, 3];
    assert!(matches!(input.read_bytes(4), Err(EndOfInput)));
    assert_eq!(input, &[1, 2, 3]);
}
