//! Serializer and deserializer for the SCALE encoding.
//!
//! - [`wire`] states the byte format as spec functions: little-endian and
//!   compact integers, and what decoding each kind of value gives.
//! - [`Serializer`] and [`Deserializer`] write and read one value at a time
//!   over a [`Write`] or [`Read`], proved against that format.
//! - [`model`] describes whole values and shapes mathematically, with the
//!   round trip and the behaviour on truncated input proved.
//! - [`to_vec`] and [`from_slice`] encode a [`Value`] and decode bytes
//!   with a [`Shape`].

pub mod de;
pub mod err;
pub mod model;
pub mod read;
pub mod ser;
pub mod value;
pub mod wire;
pub mod write;

pub use de::{Buffer, Deserializer, OptionalBoolDeserializer, Text};
pub use err::{Error, OtherError};
pub use read::{Bytes, EndOfInput, Read};
pub use ser::Serializer;
pub use value::{from_slice, to_vec, Shape, Value, VariantShape};
pub use write::Write;
