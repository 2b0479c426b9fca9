//! The errors of the serializer and of the deserializer.
use vstd::prelude::*;

verus! {

#[verifier::external_type_specification]
#[verifier::external_body]
pub struct ExUtf8Error(core::str::Utf8Error);

/// Serialization and deserialization errors, over the error type `E` of the
/// underlying writer or reader.
#[derive(Debug)]
#[allow(inconsistent_fields)]
pub enum Error<E> {
    /// SCALE does not specify how to serialize floating point values
    FloatingPointUnsupported,
    /// SCALE limits enums to 256 variants
    TooManyVariants { enum_name: &'static str, variant_name: &'static str, variant_index: u32 },
    /// SCALE requires knowing the length of collections
    LengthNeeded,
    /// SCALE requires knowing the type of the data being deserialized
    TypeMustBeKnown,
    /// A boolean value (0 or 1) was expected but another byte was found
    ExpectedBoolean { found: u8 },
    /// Invalid character found. Characters must be UTF-32 code points.
    InvalidCharacter { found: u32 },
    /// This implementation limits collections to 2^64 elements
    CollectionTooLargeToSerialize { len: usize },
    /// A compact integer is out of range: its payload would not fit in 64
    /// bits, or its value belongs to a shorter mode; or a length does not
    /// fit in `usize`
    CollectionTooLargeToDeserialize,
    /// Invalid Unicode was found in a string
    InvalidUnicode(core::str::Utf8Error),
    /// An option was expected but the discriminant is invalid
    InvalidOption { found_discriminant: u8 },
    /// I/O error from the underlying reader or writer
    Io(E),
    /// Other error the serializer or deserializer might encounter
    Other(OtherError),
}

impl<E> From<E> for Error<E> {
    fn from(e: E) -> (r: Self)
        ensures
            r == Error::<E>::Io(e),
    {
        Error::Io(e)
    }
}

impl<E> vstd::std_specs::convert::FromSpecImpl<E> for Error<E> {
    open spec fn obeys_from_spec() -> bool {
        true
    }

    open spec fn from_spec(e: E) -> Self {
        Error::Io(e)
    }
}

/// A free-form error message.
#[derive(Clone, Debug)]
pub struct OtherError(String);

impl View for OtherError {
    type V = Seq<char>;

    closed spec fn view(&self) -> Seq<char> {
        self.0@
    }
}

impl OtherError {
    /// The message.
    pub fn as_str(&self) -> (r: &str)
        ensures
            r@ == self@,
    {
        self.0.as_str()
    }
}

impl From<String> for OtherError {
    fn from(s: String) -> (r: Self)
        ensures
            r@ == s@,
    {
        OtherError(s)
    }
}

impl vstd::std_specs::convert::FromSpecImpl<String> for OtherError {
    open spec fn obeys_from_spec() -> bool {
        true
    }

    closed spec fn from_spec(s: String) -> Self {
        OtherError(s)
    }
}

impl<'s> From<&'s str> for OtherError {
    fn from(s: &'s str) -> (r: Self)
        ensures
            r@ == s@,
    {
        OtherError(s.to_owned())
    }
}

impl<'s> vstd::std_specs::convert::FromSpecImpl<&'s str> for OtherError {
    open spec fn obeys_from_spec() -> bool {
        false
    }

    closed spec fn from_spec(s: &'s str) -> Self {
        arbitrary()
    }
}

} // verus!
