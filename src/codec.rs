use vstd::prelude::*;

use crate::error::Error;
use crate::reader::ByteReader;

verus! {

/// Encoding of a value into bytes.
///
/// Each type names the mathematical model its encoding depends on, says which
/// models have an encoding at all (`fits`), and gives the bytes of that
/// encoding (`wire`). The stream carries no type information: a reader must
/// know which type comes next.
pub trait Serialize {
    /// The mathematical value that the encoding depends on.
    type Model;

    spec fn model(&self) -> Self::Model;

    /// Whether the value has an encoding: every length fits in 32 bits and
    /// every character in one byte.
    spec fn fits(m: Self::Model) -> bool;

    /// The bytes that encode a value of model `m`.
    spec fn wire(m: Self::Model) -> Seq<u8>;

    /// Appends the encoding of `self` to `w`. Fails with `Unencodable`
    /// exactly when the value has no encoding; bytes written before the
    /// failure stay in `w`.
    fn serialize(&self, w: &mut Vec<u8>) -> (r: Result<(), Error>)
        ensures
            r is Ok <==> Self::fits(self.model()),
            old(w)@.is_prefix_of(final(w)@),
            r is Ok ==> final(w)@ == old(w)@ + Self::wire(self.model()),
            r is Err ==> r == Err::<(), Error>(Error::Unencodable),
    ;
}

/// Decoding of a value from bytes.
///
/// `parse` says, for every input, what decoding from its front gives: the
/// model of the value and how many bytes it took, or the error. The round
/// trip is part of the contract: decoding the encoding of a value, followed
/// by any bytes at all, gives that value back and takes exactly its bytes.
pub trait DeSerialize: Serialize + Sized {
    spec fn parse(input: Seq<u8>) -> Result<(Self::Model, nat), Error>;

    /// Decodes a fresh value from the front of `r`.
    fn decode(r: &mut ByteReader) -> (res: Result<Self, Error>)
        ensures
            match Self::parse(old(r)@) {
                Ok((m, n)) => {
                    &&& res is Ok
                    &&& res->Ok_0.model() == m
                    &&& n <= old(r)@.len()
                    &&& final(r)@ == old(r)@.skip(n as int)
                },
                Err(e) => res == Err::<Self, Error>(e),
            },
    ;

    /// Decodes from the front of `r` and replaces `self` with the result;
    /// what `self` held before plays no part.
    fn deserialize(&mut self, r: &mut ByteReader) -> (res: Result<(), Error>)
        ensures
            match Self::parse(old(r)@) {
                Ok((m, n)) => {
                    &&& res is Ok
                    &&& final(self).model() == m
                    &&& n <= old(r)@.len()
                    &&& final(r)@ == old(r)@.skip(n as int)
                },
                Err(e) => res == Err::<(), Error>(e),
            },
    ;

    /// Decoding the encoding of `m`, with any bytes after it, gives `m` and
    /// takes exactly the encoding's bytes.
    proof fn lemma_round_trip(m: Self::Model, rest: Seq<u8>)
        requires
            Self::fits(m),
        ensures
            Self::parse(Self::wire(m) + rest) == Ok::<(Self::Model, nat), Error>(
                (m, Self::wire(m).len()),
            ),
    ;
}

} // verus!
