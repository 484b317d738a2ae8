use vstd::prelude::*;

use crate::codec::{DeSerialize, Serialize};
use crate::error::Error;
use crate::reader::ByteReader;

verus! {

impl<T: Serialize> Serialize for Option<T> {
    type Model = Option<T::Model>;

    open spec fn model(&self) -> Option<T::Model> {
        match self {
            Some(v) => Some(v.model()),
            None => None,
        }
    }

    open spec fn fits(m: Option<T::Model>) -> bool {
        match m {
            Some(inner) => T::fits(inner),
            None => true,
        }
    }

    /// A presence byte (`0x01` or `0x00`), then the inner value's encoding
    /// if there is one.
    open spec fn wire(m: Option<T::Model>) -> Seq<u8> {
        match m {
            Some(inner) => seq![1u8] + T::wire(inner),
            None => seq![0u8],
        }
    }

    fn serialize(&self, w: &mut Vec<u8>) -> (r: Result<(), Error>) {
        match self {
            Some(v) => {
                w.push(1u8);
                let r = v.serialize(w);
                assert(r is Ok ==> final(w)@ =~= old(w)@ + Self::wire(self.model()));
                r
            },
            None => {
                w.push(0u8);
                assert(final(w)@ =~= old(w)@ + Self::wire(self.model()));
                Ok(())
            },
        }
    }
}

impl<T: DeSerialize> DeSerialize for Option<T> {
    /// A presence byte other than `0x00` and `0x01` is `InvalidEncoding`.
    open spec fn parse(input: Seq<u8>) -> Result<(Option<T::Model>, nat), Error> {
        if input.len() < 1 {
            Err(Error::UnexpectedEof)
        } else if input[0] == 0 {
            Ok((None, 1))
        } else if input[0] == 1 {
            match T::parse(input.skip(1)) {
                Ok((m, n)) => Ok((Some(m), n + 1)),
                Err(e) => Err(e),
            }
        } else {
            Err(Error::InvalidEncoding)
        }
    }

    /// A present value is decoded into a fresh inner value.
    fn decode(r: &mut ByteReader) -> (res: Result<Option<T>, Error>) {
        let present = match bool::decode(r) {
            Ok(b) => b,
            Err(e) => {
                return Err(e);
            },
        };
        if !present {
            return Ok(None);
        }
        let ghost after_flag = r@;
        match T::decode(r) {
            Ok(v) => {
                let ghost n = T::parse(after_flag)->Ok_0.1;
                assert(old(r)@.skip(1).skip(n as int) =~= old(r)@.skip((n + 1) as int));
                Ok(Some(v))
            },
            Err(e) => Err(e),
        }
    }

    /// Replaces `self` wholesale: a present value is decoded into a fresh
    /// inner value, so an absent destination takes a present value as well
    /// as a present one does.
    fn deserialize(&mut self, r: &mut ByteReader) -> (res: Result<(), Error>) {
        match Self::decode(r) {
            Ok(v) => {
                *self = v;
                Ok(())
            },
            Err(e) => Err(e),
        }
    }

    proof fn lemma_round_trip(m: Option<T::Model>, rest: Seq<u8>) {
        let input = Self::wire(m) + rest;
        match m {
            Some(inner) => {
                T::lemma_round_trip(inner, rest);
                assert(input.skip(1) =~= T::wire(inner) + rest);
            },
            None => {},
        }
    }
}

} // verus!
