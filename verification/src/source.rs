//! An in-memory byte source with a read position: sequential reads and
//! absolute seeks over a buffer that never changes.

use vstd::prelude::*;
use crate::error::IoError;

verus! {

/// What one decoding step yields: the value or the failure, and the bytes
/// that are left in the source afterwards.
pub struct Decoded<T, E> {
    pub value: Result<T, E>,
    pub rest: Seq<u8>,
}

/// Taking one byte off the front of `bytes`.
pub open spec fn take_u8(bytes: Seq<u8>) -> Decoded<u8, IoError> {
    if bytes.len() >= 1 {
        Decoded { value: Ok(bytes[0]), rest: bytes.skip(1) }
    } else {
        Decoded { value: Err(IoError::UnexpectedEof), rest: bytes }
    }
}

/// Taking exactly `n` bytes off the front of `bytes`. A short source is
/// drained and the read fails.
pub open spec fn take_exact(bytes: Seq<u8>, n: nat) -> Decoded<Seq<u8>, IoError> {
    if n <= bytes.len() {
        Decoded { value: Ok(bytes.take(n as int)), rest: bytes.skip(n as int) }
    } else {
        Decoded { value: Err(IoError::UnexpectedEof), rest: Seq::empty() }
    }
}

/// A buffer of bytes and a read position in it.
pub struct ByteSource {
    data: Vec<u8>,
    pos: usize,
}

impl ByteSource {
    #[verifier::type_invariant]
    spec fn in_bounds(&self) -> bool {
        self.pos <= self.data.len()
    }

    /// Every byte of the buffer, read or not.
    pub closed spec fn bytes(&self) -> Seq<u8> {
        self.data@
    }

    /// How many bytes lie before the read position.
    pub closed spec fn position(&self) -> nat {
        self.pos as nat
    }

    /// The bytes from the read position to the end.
    pub open spec fn remaining(&self) -> Seq<u8> {
        self.bytes().skip(self.position() as int)
    }

    /// A source over `data`, positioned at its first byte.
    pub fn new(data: Vec<u8>) -> (s: ByteSource)
        ensures
            s.bytes() == data@,
            s.position() == 0,
    {
        ByteSource { data, pos: 0 }
    }

    /// The length of the whole buffer.
    pub fn len(&self) -> (n: usize)
        ensures
            n == self.bytes().len(),
    {
        self.data.len()
    }

    /// The read position, counted from the start of the buffer.
    pub fn tell(&self) -> (p: usize)
        ensures
            p == self.position(),
            p <= self.bytes().len(),
    {
        proof {
            use_type_invariant(self);
        }
        self.pos
    }

    /// How many bytes are left to read.
    pub fn remaining_len(&self) -> (n: usize)
        ensures
            n == self.remaining().len(),
    {
        proof {
            use_type_invariant(self);
        }
        self.data.len() - self.pos
    }

    /// Gives the buffer back.
    pub fn into_inner(self) -> (data: Vec<u8>)
        ensures
            data@ == self.bytes(),
    {
        self.data
    }

    /// Moves the read position to `offset` bytes from the start. An offset
    /// past the end leaves the source at its end, where every read of one
    /// byte or more fails.
    pub fn seek(&mut self, offset: u64)
        ensures
            final(self).bytes() == old(self).bytes(),
            final(self).position() == if offset <= old(self).bytes().len() {
                offset as nat
            } else {
                old(self).bytes().len()
            },
    {
        let len = self.data.len();
        if offset <= len as u64 {
            self.pos = offset as usize;
        } else {
            self.pos = len;
        }
    }

    /// Reads one byte.
    pub fn read_u8(&mut self) -> (r: Result<u8, IoError>)
        ensures
            final(self).bytes() == old(self).bytes(),
            r == take_u8(old(self).remaining()).value,
            final(self).remaining() == take_u8(old(self).remaining()).rest,
    {
        proof {
            use_type_invariant(&*self);
        }
        if self.pos < self.data.len() {
            let b = self.data[self.pos];
            self.pos = self.pos + 1;
            Ok(b)
        } else {
            Err(IoError::UnexpectedEof)
        }
    }

    /// Reads exactly `n` bytes. When fewer are left the read fails and the
    /// source is left at its end.
    pub fn read_exact(&mut self, n: usize) -> (r: Result<Vec<u8>, IoError>)
        ensures
            final(self).bytes() == old(self).bytes(),
            final(self).remaining() == take_exact(old(self).remaining(), n as nat).rest,
            match take_exact(old(self).remaining(), n as nat).value {
                Ok(bytes) => r matches Ok(v) && v@ == bytes,
                Err(e) => r == Err::<Vec<u8>, IoError>(e),
            },
    {
        proof {
            use_type_invariant(&*self);
        }
        let len = self.data.len();
        if n <= len - self.pos {
            let ghost start = self.pos as int;
            let mut out: Vec<u8> = Vec::new();
            let mut i: usize = 0;
            while i < n
                invariant
                    i <= n,
                    self.pos + n <= self.data.len(),
                    out@ == self.data@.subrange(self.pos as int, self.pos + i),
                decreases n - i,
            {
                out.push(self.data[self.pos + i]);
                i = i + 1;
            }
            self.pos = self.pos + n;
            Ok(out)
        } else {
            self.pos = len;
            Err(IoError::UnexpectedEof)
        }
    }
}

} // verus!
