//! Where a streaming decompressor reads from.

use core::convert::Infallible;
use vstd::prelude::*;
use vstd::slice::slice_subrange;

verus! {

/// Buffered input source for streaming decompression.
///
/// This trait abstracts over different input sources (slices, readers, etc.).
pub trait InputSource: Sized {
    /// Error type for this source. Use `core::convert::Infallible` for infallible
    /// sources.
    type Error;

    /// The bytes that have not been consumed. A verified source says here which
    /// these are.
    open spec fn remaining(&self) -> Seq<u8> {
        Seq::empty()
    }

    /// How many of them were returned last. A verified source says here how many.
    open spec fn buffered(&self) -> int {
        0
    }

    /// Whether reading from such a source never fails. A verified source says here if so.
    open spec fn never_fails() -> bool {
        false
    }

    /// Return a reference to available input bytes.
    ///
    /// Returns an empty slice when no more data is available (EOF).
    fn fill_buf(&mut self) -> (r: Result<&[u8], Self::Error>)
        ensures
            final(self).remaining() == old(self).remaining(),
            Self::never_fails() ==> r is Ok,
            r matches Ok(buf) ==> {
                &&& buf@.len() <= old(self).remaining().len()
                &&& buf@ == old(self).remaining().take(buf@.len() as int)
                &&& buf@.len() == 0 ==> old(self).remaining().len() == 0
                &&& final(self).buffered() == buf@.len()
            },
    ;

    /// Mark `n` bytes as consumed. Must not exceed the length returned by
    /// [`fill_buf`](Self::fill_buf).
    fn consume(&mut self, n: usize)
        requires
            n <= old(self).buffered(),
            n <= old(self).remaining().len(),
        ensures
            final(self).remaining() == old(self).remaining().skip(n as int),
    ;
}

/// `&[u8]` as an infallible input source.
impl InputSource for &[u8] {
    type Error = Infallible;

    open spec fn remaining(&self) -> Seq<u8> {
        self@
    }

    open spec fn buffered(&self) -> int {
        self@.len() as int
    }

    open spec fn never_fails() -> bool {
        true
    }

    fn fill_buf(&mut self) -> (r: Result<&[u8], Infallible>) {
        assert(self@.take(self@.len() as int) =~= self@);
        Ok(*self)
    }

    fn consume(&mut self, n: usize) {
        let rest: &[u8] = slice_subrange(*self, n, self.len());
        assert(rest@ =~= self@.skip(n as int));
        *self = rest;
    }
}

} // verus!
