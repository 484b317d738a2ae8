use vstd::prelude::*;

use crate::big_endian::{be_bytes, write_be};
use crate::codec::{DeSerialize, Serialize};
use crate::error::Error;
use crate::reader::ByteReader;
use crate::sequences::{
    decode_items, items_wire, lemma_items_wire_push, lemma_seq_round_trip, models, parse_seq,
    seq_fits, seq_wire,
};

verus! {

broadcast use vstd::string::axiom_spec_iter;

/// Relies on `String::push`: the character is appended at the end.
#[verifier::external_body]
fn push_char(s: &mut String, c: char)
    ensures
        final(s)@ == old(s)@.push(c),
{
    s.push(c);
}

impl Serialize for str {
    type Model = Seq<char>;

    open spec fn model(&self) -> Seq<char> {
        self@
    }

    /// At most `u32::MAX` characters, each in the single-byte range.
    open spec fn fits(m: Seq<char>) -> bool {
        seq_fits::<char>(m)
    }

    /// The character count, then one byte per character.
    open spec fn wire(m: Seq<char>) -> Seq<u8> {
        seq_wire::<char>(m)
    }

    fn serialize(&self, w: &mut Vec<u8>) -> (r: Result<(), Error>) {
        let len = self.unicode_len();
        if len > 0xFFFF_FFFF {
            return Err(Error::Unencodable);
        }
        write_be(len as u128, 4, w);
        let ghost head = w@;
        let ghost cs = self@;
        for c in it: self.chars()
            invariant
                len == cs.len() <= u32::MAX,
                cs == self@,
                it.seq() == cs,
                head == old(w)@ + be_bytes(cs.len(), 4),
                w@ == head + items_wire::<char>(cs.take(it.index() as int)),
                forall|j: int| 0 <= j < it.index() ==> (#[trigger] cs[j] as u32) < 256,
        {
            assert(c == cs[it.index() as int]);
            let ghost i = it.index() as int;
            match c.serialize(w) {
                Ok(()) => {},
                Err(e) => {
                    return Err(e);
                },
            }
            proof {
                lemma_items_wire_push::<char>(cs.take(i), cs[i]);
                assert(cs.take(i + 1) =~= cs.take(i).push(cs[i]));
            }
        }
        assert(cs.take(len as int) =~= cs);
        Ok(())
    }
}

impl Serialize for String {
    type Model = Seq<char>;

    open spec fn model(&self) -> Seq<char> {
        self@
    }

    /// At most `u32::MAX` characters, each in the single-byte range.
    open spec fn fits(m: Seq<char>) -> bool {
        seq_fits::<char>(m)
    }

    /// The character count, then one byte per character.
    open spec fn wire(m: Seq<char>) -> Seq<u8> {
        seq_wire::<char>(m)
    }

    fn serialize(&self, w: &mut Vec<u8>) -> (r: Result<(), Error>) {
        self.as_str().serialize(w)
    }
}

impl DeSerialize for String {
    /// Each byte after the count is the character with that code.
    open spec fn parse(input: Seq<u8>) -> Result<(Seq<char>, nat), Error> {
        parse_seq::<char>(input)
    }

    fn decode(r: &mut ByteReader) -> (res: Result<String, Error>) {
        let chars: Vec<char> = match decode_items(r) {
            Ok(v) => v,
            Err(e) => {
                return Err(e);
            },
        };
        assert(models(chars@) =~= chars@);
        let mut s = String::new();
        let mut i: usize = 0;
        while i < chars.len()
            invariant
                i <= chars.len(),
                s@ == chars@.take(i as int),
            decreases chars.len() - i,
        {
            push_char(&mut s, chars[i]);
            assert(chars@.take(i + 1) =~= chars@.take(i as int).push(chars[i as int]));
            i = i + 1;
        }
        assert(chars@.take(i as int) =~= chars@);
        Ok(s)
    }

    fn deserialize(&mut self, r: &mut ByteReader) -> (res: Result<(), Error>) {
        match Self::decode(r) {
            Ok(v) => {
                *self = v;
                Ok(())
            },
            Err(e) => Err(e),
        }
    }

    proof fn lemma_round_trip(m: Seq<char>, rest: Seq<u8>) {
        lemma_seq_round_trip::<char>(m, rest);
    }
}

} // verus!
