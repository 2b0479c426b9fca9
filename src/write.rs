//! Byte sinks.
use vstd::prelude::*;

verus! {

/// Interface to write bytes
pub trait Write {
    type Error;

    /// Everything written so far, in order.
    spec fn written(&self) -> Seq<u8>;

    /// Whether a write can fail at all.
    spec fn fallible() -> bool;

    /// Writes bytes after those already written
    fn write(&mut self, data: &[u8]) -> (r: Result<(), Self::Error>)
        ensures
            r is Ok ==> final(self).written() == old(self).written() + data@,
            !Self::fallible() ==> r is Ok,
    ;
}

impl<'w, W: Write> Write for &'w mut W {
    type Error = W::Error;

    open spec fn written(&self) -> Seq<u8> {
        (**self).written()
    }

    open spec fn fallible() -> bool {
        W::fallible()
    }

    fn write(&mut self, data: &[u8]) -> (r: Result<(), Self::Error>) {
        (**self).write(data)
    }
}

impl Write for Vec<u8> {
    type Error = core::convert::Infallible;

    open spec fn written(&self) -> Seq<u8> {
        self@
    }

    open spec fn fallible() -> bool {
        false
    }

    fn write(&mut self, data: &[u8]) -> (r: Result<(), Self::Error>) {
        let mut i: usize = 0;
        while i < data.len()
            invariant
                i <= data@.len(),
                self@ == old(self)@ + data@.subrange(0, i as int),
            decreases data@.len() - i,
        {
            self.push(data[i]);
            i = i + 1;
            assert(self@ =~= old(self)@ + data@.subrange(0, i as int));
        }
        assert(data@.subrange(0, i as int) =~= data@);
        Ok(())
    }
}

} // verus!
