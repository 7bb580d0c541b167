//! A growing buffer that encoders append to.

use vstd::prelude::*;

verus! {

/// The bytes written so far.
pub struct ByteSink {
    data: Vec<u8>,
}

impl View for ByteSink {
    type V = Seq<u8>;

    closed spec fn view(&self) -> Seq<u8> {
        self.data@
    }
}

impl ByteSink {
    /// A sink with nothing written.
    pub fn new() -> (s: ByteSink)
        ensures
            s@ == Seq::<u8>::empty(),
    {
        ByteSink { data: Vec::new() }
    }

    /// How many bytes were written.
    pub fn len(&self) -> (n: usize)
        ensures
            n == self@.len(),
    {
        self.data.len()
    }

    /// Gives the written bytes out.
    pub fn into_inner(self) -> (data: Vec<u8>)
        ensures
            data@ == self@,
    {
        self.data
    }

    /// Appends one byte.
    pub fn write_u8(&mut self, b: u8)
        ensures
            final(self)@ == old(self)@.push(b),
    {
        self.data.push(b);
    }

    /// Appends every byte of `bytes`, in order.
    pub fn write_all(&mut self, bytes: &[u8])
        ensures
            final(self)@ == old(self)@ + bytes@,
    {
        self.data.extend_from_slice(bytes);
    }
}

} // verus!
