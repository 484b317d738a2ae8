use vstd::prelude::*;

use crate::codec::{DeSerialize, Serialize};
use crate::error::Error;
use crate::reader::ByteReader;

verus! {

// A record takes part in the codec as the tuple of its fields, in declared
// order: the fields' encodings are concatenated with no tags, names or
// padding, and one field list serves both directions.

impl<'a, T: Serialize + ?Sized> Serialize for &'a T {
    type Model = T::Model;

    open spec fn model(&self) -> T::Model {
        (**self).model()
    }

    open spec fn fits(m: T::Model) -> bool {
        T::fits(m)
    }

    /// A reference is encoded as the value it points to.
    open spec fn wire(m: T::Model) -> Seq<u8> {
        T::wire(m)
    }

    fn serialize(&self, w: &mut Vec<u8>) -> (r: Result<(), Error>) {
        (**self).serialize(w)
    }
}

impl<A: Serialize, B: Serialize> Serialize for (A, B) {
    type Model = (A::Model, B::Model);

    open spec fn model(&self) -> (A::Model, B::Model) {
        (self.0.model(), self.1.model())
    }

    open spec fn fits(m: (A::Model, B::Model)) -> bool {
        A::fits(m.0) && B::fits(m.1)
    }

    /// The fields' encodings, in order.
    open spec fn wire(m: (A::Model, B::Model)) -> Seq<u8> {
        A::wire(m.0) + B::wire(m.1)
    }

    fn serialize(&self, w: &mut Vec<u8>) -> (r: Result<(), Error>) {
        match self.0.serialize(w) {
            Ok(()) => {},
            Err(e) => {
                return Err(e);
            },
        }
        let r = self.1.serialize(w);
        assert(r is Ok ==> final(w)@ =~= old(w)@ + Self::wire(self.model()));
        r
    }
}

impl<A: DeSerialize, B: DeSerialize> DeSerialize for (A, B) {
    open spec fn parse(input: Seq<u8>) -> Result<((A::Model, B::Model), nat), Error> {
        match A::parse(input) {
            Ok((a, n)) => match B::parse(input.skip(n as int)) {
                Ok((b, k)) => Ok(((a, b), n + k)),
                Err(e) => Err(e),
            },
            Err(e) => Err(e),
        }
    }

    fn decode(r: &mut ByteReader) -> (res: Result<(A, B), Error>) {
        let a = match A::decode(r) {
            Ok(v) => v,
            Err(e) => {
                return Err(e);
            },
        };
        let ghost n = A::parse(old(r)@)->Ok_0.1;
        let b = match B::decode(r) {
            Ok(v) => v,
            Err(e) => {
                return Err(e);
            },
        };
        let ghost k = B::parse(old(r)@.skip(n as int))->Ok_0.1;
        assert(old(r)@.skip(n as int).skip(k as int) =~= old(r)@.skip((n + k) as int));
        Ok((a, b))
    }

    fn deserialize(&mut self, r: &mut ByteReader) -> (res: Result<(), Error>) {
        match Self::decode(r) {
            Ok(v) => {
                *self = v;
                Ok(())
            },
            Err(e) => Err(e),
        }
    }

    proof fn lemma_round_trip(m: (A::Model, B::Model), rest: Seq<u8>) {
        let input = Self::wire(m) + rest;
        A::lemma_round_trip(m.0, B::wire(m.1) + rest);
        B::lemma_round_trip(m.1, rest);
        assert(input =~= A::wire(m.0) + (B::wire(m.1) + rest));
        assert(input.skip(A::wire(m.0).len() as int) =~= B::wire(m.1) + rest);
    }
}

impl<A: Serialize, B: Serialize, C: Serialize> Serialize for (A, B, C) {
    type Model = (A::Model, B::Model, C::Model);

    open spec fn model(&self) -> (A::Model, B::Model, C::Model) {
        (self.0.model(), self.1.model(), self.2.model())
    }

    open spec fn fits(m: (A::Model, B::Model, C::Model)) -> bool {
        A::fits(m.0) && B::fits(m.1) && C::fits(m.2)
    }

    /// The fields' encodings, in order.
    open spec fn wire(m: (A::Model, B::Model, C::Model)) -> Seq<u8> {
        A::wire(m.0) + B::wire(m.1) + C::wire(m.2)
    }

    fn serialize(&self, w: &mut Vec<u8>) -> (r: Result<(), Error>) {
        match self.0.serialize(w) {
            Ok(()) => {},
            Err(e) => {
                return Err(e);
            },
        }
        match self.1.serialize(w) {
            Ok(()) => {},
            Err(e) => {
                return Err(e);
            },
        }
        let r = self.2.serialize(w);
        assert(r is Ok ==> final(w)@ =~= old(w)@ + Self::wire(self.model()));
        r
    }
}

impl<A: DeSerialize, B: DeSerialize, C: DeSerialize> DeSerialize for (A, B, C) {
    open spec fn parse(input: Seq<u8>) -> Result<((A::Model, B::Model, C::Model), nat), Error> {
        match A::parse(input) {
            Ok((a, n)) => match B::parse(input.skip(n as int)) {
                Ok((b, k)) => match C::parse(input.skip((n + k) as int)) {
                    Ok((c, j)) => Ok(((a, b, c), n + k + j)),
                    Err(e) => Err(e),
                },
                Err(e) => Err(e),
            },
            Err(e) => Err(e),
        }
    }

    fn decode(r: &mut ByteReader) -> (res: Result<(A, B, C), Error>) {
        let a = match A::decode(r) {
            Ok(v) => v,
            Err(e) => {
                return Err(e);
            },
        };
        let ghost n = A::parse(old(r)@)->Ok_0.1;
        let b = match B::decode(r) {
            Ok(v) => v,
            Err(e) => {
                return Err(e);
            },
        };
        let ghost k = B::parse(old(r)@.skip(n as int))->Ok_0.1;
        assert(old(r)@.skip(n as int).skip(k as int) =~= old(r)@.skip((n + k) as int));
        let c = match C::decode(r) {
            Ok(v) => v,
            Err(e) => {
                return Err(e);
            },
        };
        let ghost j = C::parse(old(r)@.skip((n + k) as int))->Ok_0.1;
        assert(old(r)@.skip((n + k) as int).skip(j as int) =~= old(r)@.skip((n + k + j) as int));
        Ok((a, b, c))
    }

    fn deserialize(&mut self, r: &mut ByteReader) -> (res: Result<(), Error>) {
        match Self::decode(r) {
            Ok(v) => {
                *self = v;
                Ok(())
            },
            Err(e) => Err(e),
        }
    }

    proof fn lemma_round_trip(m: (A::Model, B::Model, C::Model), rest: Seq<u8>) {
        let input = Self::wire(m) + rest;
        let wa = A::wire(m.0);
        let wb = B::wire(m.1);
        A::lemma_round_trip(m.0, wb + C::wire(m.2) + rest);
        B::lemma_round_trip(m.1, C::wire(m.2) + rest);
        C::lemma_round_trip(m.2, rest);
        assert(input =~= wa + (wb + C::wire(m.2) + rest));
        assert(input.skip(wa.len() as int) =~= wb + (C::wire(m.2) + rest));
        assert(input.skip((wa.len() + wb.len()) as int) =~= C::wire(m.2) + rest);
    }
}

} // verus!
