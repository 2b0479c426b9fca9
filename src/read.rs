//! Byte sources, with zero-copy reads where the source allows them.
use vstd::prelude::*;

verus! {

/// Bytes borrowed from the deserializer or valid only for the duration of
/// the borrow of the reader
pub enum Bytes<'a, 'b> {
    /// Bytes borrowed from the deserializer allowing zero-copy deserialization
    Persistent(&'a [u8]),
    /// Bytes only valid while the reader stays borrowed
    Temporary(&'b [u8]),
}

impl<'a, 'b> View for Bytes<'a, 'b> {
    type V = Seq<u8>;

    open spec fn view(&self) -> Seq<u8> {
        match self {
            Bytes::Persistent(b) => b@,
            Bytes::Temporary(b) => b@,
        }
    }
}

impl<'a, 'b> Bytes<'a, 'b> {
    /// The bytes, however long they are valid
    pub fn as_slice(&self) -> (r: &[u8])
        ensures
            r@ == self@,
    {
        match self {
            Bytes::Persistent(b) => b,
            Bytes::Temporary(b) => b,
        }
    }
}

/// Error indicating that the end of the input was reached and not enough
/// bytes were read
#[derive(Debug, PartialEq, Eq)]
pub struct EndOfInput;

/// Interface to read bytes
pub trait Read<'a> {
    type Error;

    /// The bytes that the reader will still deliver, in order.
    spec fn remaining(&self) -> Seq<u8>;

    /// Whether the reader lends its bytes for the whole lifetime `'a`.
    spec fn persistent(&self) -> bool;

    /// Reads exactly `n` bytes. It fails exactly when fewer than `n` are
    /// left, and then leaves the reader as it was.
    /// A persistent reader hands out persistent bytes.
    fn read_bytes(&mut self, n: usize) -> (r: Result<Bytes<'a, '_>, Self::Error>)
        ensures
            r is Ok <==> n <= old(self).remaining().len(),
            r is Ok ==> r->Ok_0@ == old(self).remaining().take(n as int) && final(self).remaining()
                == old(self).remaining().skip(n as int),
            r is Err ==> final(self).remaining() == old(self).remaining(),
            r is Ok && old(self).persistent() ==> r->Ok_0 is Persistent,
            final(self).persistent() == old(self).persistent(),
    ;
}

impl<'a, 'r, T: Read<'a>> Read<'a> for &'r mut T {
    type Error = T::Error;

    open spec fn remaining(&self) -> Seq<u8> {
        (**self).remaining()
    }

    open spec fn persistent(&self) -> bool {
        (**self).persistent()
    }

    fn read_bytes(&mut self, n: usize) -> (r: Result<Bytes<'a, '_>, Self::Error>) {
        (**self).read_bytes(n)
    }
}

impl<'a> Read<'a> for &'a [u8] {
    type Error = EndOfInput;

    open spec fn remaining(&self) -> Seq<u8> {
        (*self)@
    }

    open spec fn persistent(&self) -> bool {
        true
    }

    fn read_bytes(&mut self, n: usize) -> (r: Result<Bytes<'a, '_>, Self::Error>) {
        if n > self.len() {
            return Err(EndOfInput);
        }
        let (consumed, rest) = self.split_at(n);
        *self = rest;
        Ok(Bytes::Persistent(consumed))
    }
}

} // verus!
