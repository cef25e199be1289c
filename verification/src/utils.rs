use crate::error::Error;
use vstd::prelude::*;

verus! {

/// The number `n`, or `usize::MAX` if `n` is larger than that.
pub open spec fn clamp_usize(n: nat) -> usize {
    if n > usize::MAX {
        usize::MAX
    } else {
        n as usize
    }
}

/// An output sink with a fixed amount of room.
///
/// A writer is handed over by value with every write and comes back as the
/// writer's next state, so at any time exactly one owner can write to it. A
/// write either takes all its bytes or fails; it never takes a part of them.
/// A write that fails says how much room there was and how much it needed.
pub trait Writer: Sized {
    /// The bytes written so far, oldest first.
    spec fn written(&self) -> Seq<u8>;

    /// How many more bytes the writer takes.
    spec fn room(&self) -> nat;

    /// The number of bytes the writer still takes.
    fn capacity(&self) -> (n: usize)
        ensures
            n == self.room(),
    ;

    /// Appends one byte, or fails if there is no room left.
    fn write_one(self, v: u8) -> (r: Result<Self, Error>)
        ensures
            r is Ok <==> self.room() >= 1,
            r matches Ok(w) ==> w.written() == self.written().push(v) && w.room() == self.room()
                - 1,
            r matches Err(e) ==> e == (Error::OutputBufferTooSmall { size: 0, required: 1 }),
    ;

    /// Appends all bytes of `v`, or fails if they do not all fit.
    fn write_many(self, v: &[u8]) -> (r: Result<Self, Error>)
        ensures
            r is Ok <==> self.room() >= v@.len(),
            r matches Ok(w) ==> w.written() == self.written() + v@ && w.room() == self.room()
                - v@.len(),
            r matches Err(e) ==> e == (Error::OutputBufferTooSmall {
                size: self.room() as usize,
                required: v@.len() as usize,
            }),
    ;
}

/// A writer over storage of a fixed size that is reserved when it is made.
pub struct BytesMut {
    buf: Vec<u8>,
    limit: usize,
}

impl BytesMut {
    #[verifier::type_invariant]
    spec fn inv(self) -> bool {
        self.buf@.len() <= self.limit
    }

    /// An empty writer that takes up to `limit` bytes.
    pub fn new(limit: usize) -> (w: Self)
        ensures
            w.written() == Seq::<u8>::empty(),
            w.room() == limit,
    {
        BytesMut { buf: Vec::with_capacity(limit), limit }
    }

    /// Gives up the writer for the bytes written to it.
    pub fn into_vec(self) -> (v: Vec<u8>)
        ensures
            v@ == self.written(),
    {
        self.buf
    }
}

impl Writer for BytesMut {
    closed spec fn written(&self) -> Seq<u8> {
        self.buf@
    }

    closed spec fn room(&self) -> nat {
        (self.limit - self.buf@.len()) as nat
    }

    fn capacity(&self) -> (n: usize) {
        proof {
            use_type_invariant(self);
        }
        self.limit - self.buf.len()
    }

    fn write_one(self, v: u8) -> (r: Result<Self, Error>) {
        proof {
            use_type_invariant(&self);
        }
        let limit = self.limit;
        let mut buf = self.buf;
        if buf.len() < limit {
            buf.push(v);
            Ok(BytesMut { buf, limit })
        } else {
            Err(Error::OutputBufferTooSmall { size: 0, required: 1 })
        }
    }

    fn write_many(self, v: &[u8]) -> (r: Result<Self, Error>) {
        proof {
            use_type_invariant(&self);
        }
        let limit = self.limit;
        let mut buf = self.buf;
        if v.len() <= limit - buf.len() {
            buf.extend_from_slice(v);
            Ok(BytesMut { buf, limit })
        } else {
            Err(Error::OutputBufferTooSmall { size: limit - buf.len(), required: v.len() })
        }
    }
}

/// A vector is a writer that grows as it is written to.
impl Writer for Vec<u8> {
    open spec fn written(&self) -> Seq<u8> {
        self@
    }

    open spec fn room(&self) -> nat {
        (usize::MAX - self@.len()) as nat
    }

    fn capacity(&self) -> (n: usize) {
        usize::MAX - self.len()
    }

    fn write_one(self, v: u8) -> (r: Result<Self, Error>) {
        let mut s = self;
        if s.len() < usize::MAX {
            s.push(v);
            Ok(s)
        } else {
            Err(Error::OutputBufferTooSmall { size: 0, required: 1 })
        }
    }

    fn write_many(self, v: &[u8]) -> (r: Result<Self, Error>) {
        let mut s = self;
        if v.len() <= usize::MAX - s.len() {
            s.extend_from_slice(v);
            Ok(s)
        } else {
            Err(Error::OutputBufferTooSmall { size: usize::MAX - s.len(), required: v.len() })
        }
    }
}

/// The product of two 32-bit numbers, which always fits 64 bits.
pub fn mul_u32(a: u32, b: u32) -> (n: u64)
    ensures
        n == a * b,
{
    assert(a * b <= 0xffff_ffff * 0xffff_ffff) by (nonlinear_arith)
        requires
            a <= 0xffff_ffff,
            b <= 0xffff_ffff,
    ;
    a as u64 * b as u64
}

} // verus!
