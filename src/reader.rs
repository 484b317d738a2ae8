use vstd::prelude::*;

use crate::error::Error;

verus! {

/// A byte source: owns its bytes and reads them front to back.
pub struct ByteReader {
    bytes: Vec<u8>,
    pos: usize,
}

impl View for ByteReader {
    /// The bytes not read yet.
    type V = Seq<u8>;

    closed spec fn view(&self) -> Seq<u8> {
        self.bytes@.subrange(self.pos as int, self.bytes@.len() as int)
    }
}

impl ByteReader {
    #[verifier::type_invariant]
    closed spec fn inv(self) -> bool {
        self.pos <= self.bytes.len()
    }

    /// A reader positioned at the first of `bytes`.
    pub fn new(bytes: Vec<u8>) -> (r: Self)
        ensures
            r@ == bytes@,
    {
        let r = ByteReader { bytes, pos: 0 };
        assert(r@ =~= bytes@);
        r
    }

    /// How many bytes are left.
    pub fn remaining(&self) -> (n: usize)
        ensures
            n == self@.len(),
    {
        proof {
            use_type_invariant(self);
        }
        self.bytes.len() - self.pos
    }

    /// Reads one byte, or fails with `UnexpectedEof` on an exhausted source.
    pub fn read_byte(&mut self) -> (r: Result<u8, Error>)
        ensures
            old(self)@.len() > 0 ==> r == Ok::<u8, Error>(old(self)@[0]) && final(self)@
                == old(self)@.skip(1),
            old(self)@.len() == 0 ==> r == Err::<u8, Error>(Error::UnexpectedEof) && final(self)@
                == old(self)@,
    {
        proof {
            use_type_invariant(&*self);
        }
        if self.pos < self.bytes.len() {
            let b = self.bytes[self.pos];
            self.pos = self.pos + 1;
            assert(self@ =~= old(self)@.skip(1));
            Ok(b)
        } else {
            Err(Error::UnexpectedEof)
        }
    }
}

} // verus!
