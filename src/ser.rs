//! The serializer: one method per kind of value, each appending its SCALE
//! encoding to the writer.
use vstd::prelude::*;
use vstd::string::StringSliceAdditionalSpecFns;
use crate::err::Error;
use crate::wire::{
    bool_encoding, bytes_encoding, compact_encoding, count_significant_bytes, le_bytes,
    lemma_big_mode_width, option_bool_encoding, push_le,
};
use crate::write::Write;

verus! {

/// Serializer for the SCALE encoding
#[derive(Debug)]
pub struct Serializer<W>(W);

/// What a write of `bytes` promises: they follow what was written before when
/// it succeeds, a failure comes from the writer, and a writer that cannot fail
/// does not.
pub open spec fn wrote<W: Write>(
    before: Serializer<W>,
    after: Serializer<W>,
    r: Result<(), Error<W::Error>>,
    bytes: Seq<u8>,
) -> bool {
    &&& r is Ok ==> after.written() == before.written() + bytes
    &&& r is Err ==> r->Err_0 is Io
    &&& !W::fallible() ==> r is Ok
}

impl<W: Write> Serializer<W> {
    /// The underlying writer.
    pub closed spec fn writer(&self) -> W {
        self.0
    }

    /// Everything written so far.
    pub open spec fn written(&self) -> Seq<u8> {
        self.writer().written()
    }

    /// Returns a serializer using the given writer
    pub fn new(out: W) -> (r: Self)
        ensures
            r.writer() == out,
    {
        Serializer(out)
    }

    /// Returns the underlying writer
    pub fn into_inner(self) -> (r: W)
        ensures
            r == self.writer(),
    {
        self.0
    }

    fn emit(&mut self, data: &[u8]) -> (r: Result<(), Error<W::Error>>)
        ensures
            wrote(*old(self), *final(self), r, data@),
    {
        match self.0.write(data) {
            Ok(()) => Ok(()),
            Err(e) => Err(Error::Io(e)),
        }
    }

    /// Writes `v` as a compact integer
    pub fn serialize_compact(&mut self, v: u64) -> (r: Result<(), Error<W::Error>>)
        ensures
            wrote(*old(self), *final(self), r, compact_encoding(v)),
    {
        if v < 0x40 {
            let bytes = vec![(v * 4) as u8];
            assert(bytes@ =~= compact_encoding(v));
            self.emit(bytes.as_slice())
        } else if v < 0x4000 {
            let bytes = vec![((v % 64) * 4 + 1) as u8, (v / 64) as u8];
            assert(bytes@ =~= compact_encoding(v));
            self.emit(bytes.as_slice())
        } else if v < 0x4000_0000 {
            let mut bytes = vec![((v % 64) * 4 + 2) as u8];
            push_le(&mut bytes, v / 64, 3);
            assert(bytes@ =~= compact_encoding(v));
            self.emit(bytes.as_slice())
        } else {
            let n = count_significant_bytes(v);
            proof {
                lemma_big_mode_width(v);
            }
            let mut bytes = vec![((n - 4) * 4 + 3) as u8];
            push_le(&mut bytes, v, n);
            assert(bytes@ =~= compact_encoding(v));
            self.emit(bytes.as_slice())
        }
    }

    fn emit_le(&mut self, v: u64, n: usize) -> (r: Result<(), Error<W::Error>>)
        requires
            n <= 8,
        ensures
            wrote(*old(self), *final(self), r, le_bytes(v as nat, n as nat)),
    {
        let mut bytes: Vec<u8> = Vec::new();
        push_le(&mut bytes, v, n);
        assert(bytes@ =~= le_bytes(v as nat, n as nat));
        self.emit(bytes.as_slice())
    }

    /// Writes a boolean as the byte 0 or 1
    pub fn serialize_bool(&mut self, v: bool) -> (r: Result<(), Error<W::Error>>)
        ensures
            wrote(*old(self), *final(self), r, bool_encoding(v)),
    {
        self.serialize_u8(if v { 1 } else { 0 })
    }

    /// Writes one byte, two's complement
    pub fn serialize_i8(&mut self, v: i8) -> (r: Result<(), Error<W::Error>>)
        ensures
            wrote(*old(self), *final(self), r, le_bytes((v as u8) as nat, 1)),
    {
        self.emit_le((v as u8) as u64, 1)
    }

    /// Writes two bytes, little-endian two's complement
    pub fn serialize_i16(&mut self, v: i16) -> (r: Result<(), Error<W::Error>>)
        ensures
            wrote(*old(self), *final(self), r, le_bytes((v as u16) as nat, 2)),
    {
        self.emit_le((v as u16) as u64, 2)
    }

    /// Writes four bytes, little-endian two's complement
    pub fn serialize_i32(&mut self, v: i32) -> (r: Result<(), Error<W::Error>>)
        ensures
            wrote(*old(self), *final(self), r, le_bytes((v as u32) as nat, 4)),
    {
        self.emit_le((v as u32) as u64, 4)
    }

    /// Writes eight bytes, little-endian two's complement
    pub fn serialize_i64(&mut self, v: i64) -> (r: Result<(), Error<W::Error>>)
        ensures
            wrote(*old(self), *final(self), r, le_bytes((v as u64) as nat, 8)),
    {
        self.emit_le(v as u64, 8)
    }

    /// Writes one byte
    pub fn serialize_u8(&mut self, v: u8) -> (r: Result<(), Error<W::Error>>)
        ensures
            wrote(*old(self), *final(self), r, seq![v]),
    {
        let bytes = vec![v];
        assert(bytes@ =~= seq![v]);
        self.emit(bytes.as_slice())
    }

    /// Writes two bytes, little-endian
    pub fn serialize_u16(&mut self, v: u16) -> (r: Result<(), Error<W::Error>>)
        ensures
            wrote(*old(self), *final(self), r, le_bytes(v as nat, 2)),
    {
        self.emit_le(v as u64, 2)
    }

    /// Writes four bytes, little-endian
    pub fn serialize_u32(&mut self, v: u32) -> (r: Result<(), Error<W::Error>>)
        ensures
            wrote(*old(self), *final(self), r, le_bytes(v as nat, 4)),
    {
        self.emit_le(v as u64, 4)
    }

    /// Writes eight bytes, little-endian
    pub fn serialize_u64(&mut self, v: u64) -> (r: Result<(), Error<W::Error>>)
        ensures
            wrote(*old(self), *final(self), r, le_bytes(v as nat, 8)),
    {
        self.emit_le(v, 8)
    }

    /// Writes a character as its code point, four bytes little-endian
    pub fn serialize_char(&mut self, v: char) -> (r: Result<(), Error<W::Error>>)
        ensures
            wrote(*old(self), *final(self), r, le_bytes(v as nat, 4)),
    {
        self.serialize_u32(v as u32)
    }

    /// Writes a string as its UTF-8 length in bytes, compact, then its bytes
    pub fn serialize_str(&mut self, v: &str) -> (r: Result<(), Error<W::Error>>)
        ensures
            wrote(*old(self), *final(self), r, bytes_encoding(v.spec_bytes())),
    {
        self.serialize_bytes(v.as_bytes())
    }

    /// Writes bytes as their length, compact, then the bytes
    pub fn serialize_bytes(&mut self, v: &[u8]) -> (r: Result<(), Error<W::Error>>)
        ensures
            wrote(*old(self), *final(self), r, bytes_encoding(v@)),
    {
        let len = v.len() as u64;
        match self.serialize_compact(len) {
            Ok(()) => {},
            Err(e) => return Err(e),
        }
        let r = self.emit(v);
        assert(r is Ok ==> self.written() =~= old(self).written() + bytes_encoding(v@));
        r
    }

    /// Writes an absent optional value
    pub fn serialize_none(&mut self) -> (r: Result<(), Error<W::Error>>)
        ensures
            wrote(*old(self), *final(self), r, seq![0u8]),
    {
        self.serialize_u8(0)
    }

    /// Writes the marker of a present optional value; its payload follows
    pub fn serialize_some(&mut self) -> (r: Result<(), Error<W::Error>>)
        ensures
            wrote(*old(self), *final(self), r, seq![1u8]),
    {
        self.serialize_u8(1)
    }

    /// Writes a present optional boolean as the single byte 1 (true) or 2
    /// (false)
    pub fn serialize_some_bool(&mut self, v: bool) -> (r: Result<(), Error<W::Error>>)
        ensures
            wrote(*old(self), *final(self), r, option_bool_encoding(Some(v))),
    {
        self.serialize_u8(if v { 1 } else { 2 })
    }

    /// Writes the index of an enum variant as one byte; its payload follows.
    /// An index that does not fit in a byte is an error.
    pub fn serialize_unit_variant(
        &mut self,
        name: &'static str,
        variant_index: u32,
        variant: &'static str,
    ) -> (r: Result<(), Error<W::Error>>)
        ensures
            variant_index < 256 ==> wrote(*old(self), *final(self), r, seq![variant_index as u8]),
            variant_index >= 256 ==> r == Err::<(), Error<W::Error>>(
                Error::TooManyVariants { enum_name: name, variant_name: variant, variant_index },
            ) && *final(self) == *old(self),
    {
        if variant_index < 256 {
            self.serialize_u8(variant_index as u8)
        } else {
            Err(Error::TooManyVariants { enum_name: name, variant_name: variant, variant_index })
        }
    }

    /// Writes the length of a sequence, compact; its elements follow.
    /// The length must be known.
    pub fn serialize_seq(&mut self, len: Option<usize>) -> (r: Result<(), Error<W::Error>>)
        ensures
            len is Some ==> wrote(*old(self), *final(self), r, compact_encoding(len->0 as u64)),
            len is None ==> r == Err::<(), Error<W::Error>>(Error::LengthNeeded) && *final(self)
                == *old(self),
    {
        match len {
            Some(n) => self.serialize_compact(n as u64),
            None => Err(Error::LengthNeeded),
        }
    }

    /// Writes the number of entries of a map, compact; each key and its value
    /// follow. The length must be known.
    pub fn serialize_map(&mut self, len: Option<usize>) -> (r: Result<(), Error<W::Error>>)
        ensures
            len is Some ==> wrote(*old(self), *final(self), r, compact_encoding(len->0 as u64)),
            len is None ==> r == Err::<(), Error<W::Error>>(Error::LengthNeeded) && *final(self)
                == *old(self),
    {
        self.serialize_seq(len)
    }
}

} // verus!
