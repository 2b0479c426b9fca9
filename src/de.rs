//! The deserializer: the caller says which kind of value comes next, and the
//! deserializer reads it from the source.
use vstd::prelude::*;
use vstd::utf8::{decode_utf8, valid_utf8};
use crate::err::Error;
use crate::read::{Bytes, Read};
use crate::wire::{
    count_significant_bytes, decode_bool, decode_bytes, decode_char, decode_compact, decode_fixed,
    decode_len, decode_option_tag, decode_str, decode_u8, is_scalar, le_to_u64, le_value,
    lemma_pow256_values, lemma_le_bytes_of_value, lemma_significant_bytes_bound, Decoded, Fault,
};

verus! {

/// Whether error `e` is the one that reports fault `f`.
pub open spec fn reports<E>(e: Error<E>, f: Fault) -> bool {
    match f {
        Fault::ExpectedBoolean(b) => e == Error::<E>::ExpectedBoolean { found: b },
        Fault::InvalidCharacter(c) => e == Error::<E>::InvalidCharacter { found: c },
        Fault::OutOfRange => e == Error::<E>::CollectionTooLargeToDeserialize,
        Fault::InvalidUnicode => e is InvalidUnicode,
        Fault::InvalidOption(b) => e == Error::<E>::InvalidOption { found_discriminant: b },
        Fault::UnknownVariant(_) => e is Other,
    }
}

/// A read from `before`, leaving `after`, gave `r` as `d` says: the value
/// and the bytes it took, an error of the reader where the input is too
/// short, or the error that reports the fault, after the bytes read up to it.
pub open spec fn outcome<T, E>(
    before: Seq<u8>,
    after: Seq<u8>,
    r: Result<T, Error<E>>,
    d: Decoded<T>,
) -> bool {
    match d {
        Decoded::Done { value, len } => r == Ok::<T, Error<E>>(value) && len <= before.len()
            && after == before.skip(len as int),
        Decoded::Short => r is Err && r->Err_0 is Io,
        Decoded::Fail(f, len) => r is Err && reports(r->Err_0, f) && len <= before.len()
            && after == before.skip(len as int),
    }
}

/// As [`outcome`], for results seen through their view.
pub open spec fn outcome_view<T: View, E>(
    before: Seq<u8>,
    after: Seq<u8>,
    r: Result<T, Error<E>>,
    d: Decoded<T::V>,
) -> bool {
    match d {
        Decoded::Done { value, len } => r is Ok && r->Ok_0@ == value && len <= before.len()
            && after == before.skip(len as int),
        Decoded::Short => r is Err && r->Err_0 is Io,
        Decoded::Fail(f, len) => r is Err && reports(r->Err_0, f) && len <= before.len()
            && after == before.skip(len as int),
    }
}

/// As [`outcome`], for results seen through `f`.
pub open spec fn outcome_by<T, U, E>(
    before: Seq<u8>,
    after: Seq<u8>,
    r: Result<T, Error<E>>,
    d: Decoded<U>,
    f: spec_fn(T) -> U,
) -> bool {
    match d {
        Decoded::Done { value, len } => r is Ok && f(r->Ok_0) == value && len <= before.len()
            && after == before.skip(len as int),
        Decoded::Short => r is Err && r->Err_0 is Io,
        Decoded::Fail(f, len) => r is Err && reports(r->Err_0, f) && len <= before.len()
            && after == before.skip(len as int),
    }
}

/// Relies on `core::str::from_utf8`: it accepts exactly the UTF-8 byte
/// sequences, and the string it returns has those bytes.
#[verifier::external_body]
fn utf8_str<'b>(b: &'b [u8]) -> (r: Result<&'b str, core::str::Utf8Error>)
    ensures
        r is Ok <==> valid_utf8(b@),
        r is Ok ==> r->Ok_0@ == decode_utf8(b@),
{
    core::str::from_utf8(b)
}

/// Relies on `char::from_u32`: it returns the character of a Unicode scalar
/// value and nothing for any other number.
#[verifier::external_body]
fn char_of(c: u32) -> (r: Option<char>)
    ensures
        r is Some <==> is_scalar(c),
        r is Some ==> r->0 as u32 == c,
{
    char::from_u32(c)
}

/// A string read from the input: borrowed from it where the reader allows,
/// copied where the bytes were only lent for the read.
pub enum Text<'de> {
    Borrowed(&'de str),
    Copied(String),
}

impl<'de> View for Text<'de> {
    type V = Seq<char>;

    open spec fn view(&self) -> Seq<char> {
        match self {
            Text::Borrowed(s) => s@,
            Text::Copied(s) => s@,
        }
    }
}

impl<'de> Text<'de> {
    pub fn into_string(self) -> (r: String)
        ensures
            r@ == self@,
    {
        match self {
            Text::Borrowed(s) => s.to_owned(),
            Text::Copied(s) => s,
        }
    }

    pub fn as_str(&self) -> (r: &str)
        ensures
            r@ == self@,
    {
        match self {
            Text::Borrowed(s) => s,
            Text::Copied(s) => s.as_str(),
        }
    }
}

/// A byte string read from the input: borrowed from it where the reader
/// allows, copied where the bytes were only lent for the read.
pub enum Buffer<'de> {
    Borrowed(&'de [u8]),
    Copied(Vec<u8>),
}

impl<'de> View for Buffer<'de> {
    type V = Seq<u8>;

    open spec fn view(&self) -> Seq<u8> {
        match self {
            Buffer::Borrowed(b) => b@,
            Buffer::Copied(b) => b@,
        }
    }
}

impl<'de> Buffer<'de> {
    pub fn into_vec(self) -> (r: Vec<u8>)
        ensures
            r@ == self@,
    {
        match self {
            Buffer::Borrowed(b) => vstd::slice::slice_to_vec(b),
            Buffer::Copied(b) => b,
        }
    }

    pub fn as_slice(&self) -> (r: &[u8])
        ensures
            r@ == self@,
    {
        match self {
            Buffer::Borrowed(b) => b,
            Buffer::Copied(b) => b.as_slice(),
        }
    }
}

/// The payload of a present option. Discriminant 1 is `Some(true)` where a
/// boolean is expected and marks a payload that follows otherwise;
/// discriminant 2 is `Some(false)` and has no meaning for other payloads.
pub struct OptionalBoolDeserializer {
    discriminant_is_1: bool,
}

impl OptionalBoolDeserializer {
    /// The discriminant that was read, 1 or 2.
    pub closed spec fn discriminant(&self) -> u8 {
        if self.discriminant_is_1 {
            1
        } else {
            2
        }
    }

    pub fn discriminant_1() -> (r: Self)
        ensures
            r.discriminant() == 1,
    {
        OptionalBoolDeserializer { discriminant_is_1: true }
    }

    pub fn discriminant_2() -> (r: Self)
        ensures
            r.discriminant() == 2,
    {
        OptionalBoolDeserializer { discriminant_is_1: false }
    }

    /// A payload other than a boolean may follow discriminant 1 only
    pub fn check_bad_discriminant<E>(&self) -> (r: Result<(), Error<E>>)
        ensures
            self.discriminant() == 1 ==> r is Ok,
            self.discriminant() != 1 ==> r == Err::<(), Error<E>>(
                Error::InvalidOption { found_discriminant: 2 },
            ),
    {
        if self.discriminant_is_1 {
            Ok(())
        } else {
            Err(Error::InvalidOption { found_discriminant: 2 })
        }
    }

    /// The boolean payload: true for discriminant 1, false for 2; no byte is
    /// read
    pub fn deserialize_bool(&self) -> (r: bool)
        ensures
            r == (self.discriminant() == 1),
    {
        self.discriminant_is_1
    }
}

/// Deserializer for the SCALE encoding
pub struct Deserializer<R>(R);

impl<'de, R: Read<'de>> Deserializer<R> {
    /// The underlying reader.
    pub closed spec fn reader(&self) -> R {
        self.0
    }

    /// The bytes still to be read.
    pub open spec fn remaining(&self) -> Seq<u8> {
        self.reader().remaining()
    }

    /// Returns a deserializer using the given reader
    pub fn new(r: R) -> (d: Self)
        ensures
            d.reader() == r,
    {
        Deserializer(r)
    }

    /// Returns the underlying reader
    pub fn into_inner(self) -> (r: R)
        ensures
            r == self.reader(),
    {
        self.0
    }

    /// Reads `n` bytes as a little-endian number
    fn read_le(&mut self, n: usize) -> (r: Result<u64, Error<R::Error>>)
        requires
            n <= 8,
        ensures
            outcome(old(self).remaining(), final(self).remaining(), r, decode_fixed(old(self).remaining(), n as nat)),
            final(self).reader().persistent() == old(self).reader().persistent(),
    {
        match self.0.read_bytes(n) {
            Ok(b) => Ok(le_to_u64(b.as_slice())),
            Err(e) => Err(Error::Io(e)),
        }
    }

    /// Reads one byte
    pub fn read_u8(&mut self) -> (r: Result<u8, Error<R::Error>>)
        ensures
            outcome(old(self).remaining(), final(self).remaining(), r, decode_u8(old(self).remaining())),
            final(self).reader().persistent() == old(self).reader().persistent(),
    {
        match self.0.read_bytes(1) {
            Ok(b) => {
                let s = b.as_slice();
                Ok(s[0])
            },
            Err(e) => Err(Error::Io(e)),
        }
    }

    /// Reads a compact integer, accepting only its canonical encoding
    pub fn read_compact(&mut self) -> (r: Result<u64, Error<R::Error>>)
        ensures
            outcome(old(self).remaining(), final(self).remaining(), r, decode_compact(old(self).remaining())),
            final(self).reader().persistent() == old(self).reader().persistent(),
    {
        let ghost s = self.remaining();
        let head = match self.read_u8() {
            Ok(h) => h,
            Err(e) => return Err(e),
        };
        let low = (head / 4) as u64;
        proof {
            lemma_pow256_values();
        }
        if head % 4 == 0 {
            Ok(low)
        } else if head % 4 == 1 {
            let high = match self.read_u8() {
                Ok(h) => h,
                Err(e) => return Err(e),
            };
            assert(s.skip(1).skip(1) =~= s.skip(2));
            if high == 0 {
                Err(Error::CollectionTooLargeToDeserialize)
            } else {
                Ok(low + 64 * high as u64)
            }
        } else if head % 4 == 2 {
            let high = match self.read_le(3) {
                Ok(h) => h,
                Err(e) => return Err(e),
            };
            proof {
                assert(s.skip(1).take(3) =~= s.subrange(1, 4));
                assert(s.skip(1).skip(3) =~= s.skip(4));
                lemma_le_bytes_of_value(s.subrange(1, 4));
            }
            let v = low + 64 * high;
            if v < 0x4000 {
                Err(Error::CollectionTooLargeToDeserialize)
            } else {
                Ok(v)
            }
        } else {
            let n = (head / 4) as usize + 4;
            if n > 8 {
                return Err(Error::CollectionTooLargeToDeserialize);
            }
            let v = match self.read_le(n) {
                Ok(v) => v,
                Err(e) => return Err(e),
            };
            proof {
                let x = s.subrange(1, n + 1);
                assert(s.skip(1).take(n as int) =~= x);
                assert(s.skip(1).skip(n as int) =~= s.skip(n + 1));
                lemma_le_bytes_of_value(x);
                lemma_significant_bytes_bound(le_value(x), 8);
                lemma_significant_bytes_bound(le_value(x), x.len());
            }
            if v < 0x4000_0000 || count_significant_bytes(v) != n {
                Err(Error::CollectionTooLargeToDeserialize)
            } else {
                Ok(v)
            }
        }
    }

    /// Reads four bytes as a little-endian number
    pub fn read_u32(&mut self) -> (r: Result<u32, Error<R::Error>>)
        ensures
            outcome(old(self).remaining(), final(self).remaining(), r,
                decode_fixed(old(self).remaining(), 4).map(|v: u64| v as u32)),
    {
        match self.read_le(4) {
            Ok(v) => Ok(v as u32),
            Err(e) => Err(e),
        }
    }

    /// Reads a length: a compact integer that must fit in `usize`
    fn read_len(&mut self) -> (r: Result<usize, Error<R::Error>>)
        ensures
            outcome(old(self).remaining(), final(self).remaining(), r, decode_len(old(self).remaining())),
            final(self).reader().persistent() == old(self).reader().persistent(),
    {
        match self.read_compact() {
            Ok(n) => if n <= usize::MAX as u64 {
                Ok(n as usize)
            } else {
                Err(Error::CollectionTooLargeToDeserialize)
            },
            Err(e) => Err(e),
        }
    }

    /// A value cannot be read without knowing its type
    pub fn deserialize_any(&mut self) -> (r: Result<(), Error<R::Error>>)
        ensures
            r == Err::<(), Error<R::Error>>(Error::TypeMustBeKnown),
            *final(self) == *old(self),
    {
        Err(Error::TypeMustBeKnown)
    }

    /// Reads a boolean byte, 0 or 1
    pub fn deserialize_bool(&mut self) -> (r: Result<bool, Error<R::Error>>)
        ensures
            outcome(old(self).remaining(), final(self).remaining(), r, decode_bool(old(self).remaining())),
    {
        match self.read_u8() {
            Ok(0) => Ok(false),
            Ok(1) => Ok(true),
            Ok(found) => Err(Error::ExpectedBoolean { found }),
            Err(e) => Err(e),
        }
    }

    /// Reads one byte, two's complement
    pub fn deserialize_i8(&mut self) -> (r: Result<i8, Error<R::Error>>)
        ensures
            outcome(old(self).remaining(), final(self).remaining(), r,
                decode_fixed(old(self).remaining(), 1).map(|v: u64| (v as u8) as i8)),
    {
        match self.read_le(1) {
            Ok(v) => Ok((v as u8) as i8),
            Err(e) => Err(e),
        }
    }

    /// Reads two bytes, little-endian two's complement
    pub fn deserialize_i16(&mut self) -> (r: Result<i16, Error<R::Error>>)
        ensures
            outcome(old(self).remaining(), final(self).remaining(), r,
                decode_fixed(old(self).remaining(), 2).map(|v: u64| (v as u16) as i16)),
    {
        match self.read_le(2) {
            Ok(v) => Ok((v as u16) as i16),
            Err(e) => Err(e),
        }
    }

    /// Reads four bytes, little-endian two's complement
    pub fn deserialize_i32(&mut self) -> (r: Result<i32, Error<R::Error>>)
        ensures
            outcome(old(self).remaining(), final(self).remaining(), r,
                decode_fixed(old(self).remaining(), 4).map(|v: u64| (v as u32) as i32)),
    {
        match self.read_le(4) {
            Ok(v) => Ok((v as u32) as i32),
            Err(e) => Err(e),
        }
    }

    /// Reads eight bytes, little-endian two's complement
    pub fn deserialize_i64(&mut self) -> (r: Result<i64, Error<R::Error>>)
        ensures
            outcome(old(self).remaining(), final(self).remaining(), r,
                decode_fixed(old(self).remaining(), 8).map(|v: u64| v as i64)),
    {
        match self.read_le(8) {
            Ok(v) => Ok(v as i64),
            Err(e) => Err(e),
        }
    }

    /// Reads one byte
    pub fn deserialize_u8(&mut self) -> (r: Result<u8, Error<R::Error>>)
        ensures
            outcome(old(self).remaining(), final(self).remaining(), r, decode_u8(old(self).remaining())),
    {
        self.read_u8()
    }

    /// Reads two bytes, little-endian
    pub fn deserialize_u16(&mut self) -> (r: Result<u16, Error<R::Error>>)
        ensures
            outcome(old(self).remaining(), final(self).remaining(), r,
                decode_fixed(old(self).remaining(), 2).map(|v: u64| v as u16)),
    {
        match self.read_le(2) {
            Ok(v) => Ok(v as u16),
            Err(e) => Err(e),
        }
    }

    /// Reads four bytes, little-endian
    pub fn deserialize_u32(&mut self) -> (r: Result<u32, Error<R::Error>>)
        ensures
            outcome(old(self).remaining(), final(self).remaining(), r,
                decode_fixed(old(self).remaining(), 4).map(|v: u64| v as u32)),
    {
        self.read_u32()
    }

    /// Reads eight bytes, little-endian
    pub fn deserialize_u64(&mut self) -> (r: Result<u64, Error<R::Error>>)
        ensures
            outcome(old(self).remaining(), final(self).remaining(), r, decode_fixed(old(self).remaining(), 8)),
    {
        self.read_le(8)
    }

    /// Reads a character: four bytes, little-endian, that must be a Unicode
    /// scalar value
    pub fn deserialize_char(&mut self) -> (r: Result<char, Error<R::Error>>)
        ensures
            outcome_by(old(self).remaining(), final(self).remaining(), r,
                decode_char(old(self).remaining()), |c: char| c as u32),
    {
        let found = match self.read_u32() {
            Ok(v) => v,
            Err(e) => return Err(e),
        };
        match char_of(found) {
            Some(c) => Ok(c),
            None => Err(Error::InvalidCharacter { found }),
        }
    }

    /// Reads a string: a compact length, then that many bytes of UTF-8.
    /// The declared bytes are consumed even when they are not UTF-8. The
    /// string is borrowed from the input where the reader allows it.
    pub fn deserialize_str(&mut self) -> (r: Result<Text<'de>, Error<R::Error>>)
        ensures
            outcome_view(old(self).remaining(), final(self).remaining(), r, decode_str(old(self).remaining())),
            decode_bytes(old(self).remaining()) is Done ==> final(self).remaining() == old(self).remaining().skip(
                decode_bytes(old(self).remaining())->len as int,
            ),
            r is Ok && old(self).reader().persistent() ==> r->Ok_0 is Borrowed,
    {
        let ghost s = self.remaining();
        let n = match self.read_len() {
            Ok(n) => n,
            Err(e) => return Err(e),
        };
        let ghost h = s.len() - self.remaining().len();
        proof {
            if h + n <= s.len() {
                assert(s.skip(h).take(n as int) =~= s.subrange(h, h + n));
                assert(s.skip(h).skip(n as int) =~= s.skip(h + n));
            }
        }
        match self.0.read_bytes(n) {
            Ok(Bytes::Persistent(b)) => match utf8_str(b) {
                Ok(t) => Ok(Text::Borrowed(t)),
                Err(e) => Err(Error::InvalidUnicode(e)),
            },
            Ok(Bytes::Temporary(b)) => match utf8_str(b) {
                Ok(t) => Ok(Text::Copied(t.to_owned())),
                Err(e) => Err(Error::InvalidUnicode(e)),
            },
            Err(e) => Err(Error::Io(e)),
        }
    }

    /// Reads a byte string: a compact length, then that many bytes. They are
    /// borrowed from the input where the reader allows it.
    pub fn deserialize_bytes(&mut self) -> (r: Result<Buffer<'de>, Error<R::Error>>)
        ensures
            outcome_view(old(self).remaining(), final(self).remaining(), r, decode_bytes(old(self).remaining())),
            r is Ok && old(self).reader().persistent() ==> r->Ok_0 is Borrowed,
    {
        let ghost s = self.remaining();
        let n = match self.read_len() {
            Ok(n) => n,
            Err(e) => return Err(e),
        };
        let ghost h = s.len() - self.remaining().len();
        proof {
            if h + n <= s.len() {
                assert(s.skip(h).take(n as int) =~= s.subrange(h, h + n));
                assert(s.skip(h).skip(n as int) =~= s.skip(h + n));
            }
        }
        match self.0.read_bytes(n) {
            Ok(Bytes::Persistent(b)) => Ok(Buffer::Borrowed(b)),
            Ok(Bytes::Temporary(b)) => Ok(Buffer::Copied(vstd::slice::slice_to_vec(b))),
            Err(e) => Err(Error::Io(e)),
        }
    }

    /// Reads the discriminant of an option: nothing follows 0; 1 or 2 hand
    /// the payload to an [`OptionalBoolDeserializer`]
    pub fn deserialize_option(&mut self) -> (r: Result<Option<OptionalBoolDeserializer>, Error<R::Error>>)
        ensures
            outcome(old(self).remaining(), final(self).remaining(),
                match r {
                    Ok(Some(d)) => Ok(d.discriminant()),
                    Ok(None) => Ok(0u8),
                    Err(e) => Err(e),
                },
                decode_option_tag(old(self).remaining())),
            r matches Ok(Some(d)) ==> 1 <= d.discriminant() <= 2,
    {
        match self.read_u8() {
            Ok(0) => Ok(None),
            Ok(1) => Ok(Some(OptionalBoolDeserializer::discriminant_1())),
            Ok(2) => Ok(Some(OptionalBoolDeserializer::discriminant_2())),
            Ok(found_discriminant) => Err(Error::InvalidOption { found_discriminant }),
            Err(e) => Err(e),
        }
    }

    /// Reads the number of elements of a sequence, a compact integer; the
    /// elements follow
    pub fn deserialize_seq(&mut self) -> (r: Result<usize, Error<R::Error>>)
        ensures
            outcome(old(self).remaining(), final(self).remaining(), r, decode_len(old(self).remaining())),
    {
        self.read_len()
    }

    /// Reads the number of entries of a map, a compact integer; each key and
    /// its value follow
    pub fn deserialize_map(&mut self) -> (r: Result<usize, Error<R::Error>>)
        ensures
            outcome(old(self).remaining(), final(self).remaining(), r, decode_len(old(self).remaining())),
    {
        self.read_len()
    }

    /// Reads the index of an enum variant, one byte; the payload follows.
    /// Whether the enum has that variant is for the caller to check.
    pub fn deserialize_enum(&mut self) -> (r: Result<u8, Error<R::Error>>)
        ensures
            outcome(old(self).remaining(), final(self).remaining(), r, decode_u8(old(self).remaining())),
    {
        self.read_u8()
    }

    /// Reads a field or variant identifier, one byte
    pub fn deserialize_identifier(&mut self) -> (r: Result<u8, Error<R::Error>>)
        ensures
            outcome(old(self).remaining(), final(self).remaining(), r, decode_u8(old(self).remaining())),
    {
        self.read_u8()
    }
}

} // verus!
