use parity_scale_codec::{Compact, Encode};
use serde_scale::{from_slice, Deserializer, Error, Serializer, Shape, Value};

fn compact(v: u64) -> Vec<u8> {
    let mut ser = Serializer::new(Vec::new());
    ser.serialize_compact(v).unwrap();
    ser.into_inner()
}

fn read_compact(bytes: &[u8]) -> Result<u64, Error<serde_scale::EndOfInput>> {
    Deserializer::new(bytes).read_compact()
}

#[test]
fn compact_boundaries() {
    assert_eq!(compact(0), [0x00]);
    assert_eq!(compact(63), [0xFC]);
    assert_eq!(compact(64), [0x01, 0x01]);
    assert_eq!(compact(16383), [0xFD, 0xFF]);
    assert_eq!(compact(16384), [0x02, 0x00, 0x01, 0x00]);
    assert_eq!(compact((1 << 30) - 1), [0xFE, 0xFF, 0xFF, 0xFF]);
    assert_eq!(compact(1 << 30), [0x03, 0x00, 0x00, 0x00, 0x40]);
    assert_eq!(compact(1 << 32), [0x07, 0x00, 0x00, 0x00, 0x00, 0x01]);
    assert_eq!(
        compact(u64::MAX),
        [0x13, 0xFF, 0xFF, 0xFF, 0xFF, 0xFF, 0xFF, 0xFF, 0xFF]
    );
}

#[test]
fn compact_matches_parity_codec() {
    let samples = [
        0u64, 1, 63, 64, 255, 256, 16383, 16384, 65535, 65536, (1 << 24) - 1, 1 << 24,
        (1 << 30) - 1, 1 << 30, (1 << 32) - 1, 1 << 32, (1 << 40) + 5, (1 << 48) + 7,
        (1 << 56) + 9, u64::MAX - 1, u64::MAX,
    ];
    for v in samples {
        assert_eq!(compact(v), Compact(v).encode(), "value {}", v);
        assert_eq!(read_compact(&compact(v)).unwrap(), v);
    }
}

#[test]
fn compact_round_trips_with_trailing_bytes() {
    for v in [0u64, 100, 20000, 1 << 31, u64::MAX] {
        let mut bytes = compact(v);
        bytes.push(0xAA);
        let mut de = Deserializer::new(&bytes[..]);
        assert_eq!(de.read_compact().unwrap(), v);
        assert_eq!(de.into_inner(), &[0xAAu8][..]);
    }
}

#[test]
fn compact_payload_over_eight_bytes_is_too_large() {
    assert!(matches!(read_compact(&[0xFF]), Err(Error::CollectionTooLargeToDeserialize)));
    assert!(matches!(
        read_compact(&[0x17, 0, 0, 0, 0, 0, 0, 0, 0, 1]),
        Err(Error::CollectionTooLargeToDeserialize)
    ));
}

#[test]
fn non_canonical_compact_is_rejected() {
    // 1 written in the two-byte mode
    assert!(matches!(read_compact(&[0x05, 0x00]), Err(Error::CollectionTooLargeToDeserialize)));
    // 64 written in the four-byte mode
    assert!(matches!(
        read_compact(&[0x02, 0x01, 0x00, 0x00]),
        Err(Error::CollectionTooLargeToDeserialize)
    ));
    // 2^30 written with a leading zero byte
    assert!(matches!(
        read_compact(&[0x07, 0x00, 0x00, 0x00, 0x40, 0x00]),
        Err(Error::CollectionTooLargeToDeserialize)
    ));
    // a small value in the big-integer mode
    assert!(matches!(
        read_compact(&[0x03, 0x01, 0x00, 0x00, 0x00]),
        Err(Error::CollectionTooLargeToDeserialize)
    ));
}

#[test]
fn truncated_compact_is_end_of_input() {
    assert!(matches!(read_compact(&[]), Err(Error::Io(serde_scale::EndOfInput))));
    assert!(matches!(read_compact(&[0x01]), Err(Error::Io(serde_scale::EndOfInput))));
    assert!(matches!(read_compact(&[0x02, 0, 1]), Err(Error::Io(serde_scale::EndOfInput))));
    assert!(matches!(read_compact(&[0x03, 0, 0, 0]), Err(Error::Io(serde_scale::EndOfInput))));
}

#[test]
fn compact_values_through_value_model() {
    let v = Value::Compact(1 << 40);
    let bytes = serde_scale::to_vec(&v).unwrap();
    assert_eq!(bytes, Compact(1u64 << 40).encode());
    assert_eq!(from_slice(&bytes, &Shape::Compact).unwrap(), v);
}
