use vstd::prelude::*;

use crate::big_endian::{
    be_bytes, lemma_be_bytes_len, lemma_be_round_trip, lemma_pow256_values, parse_uint, pow256,
    read_be, signed_of, unsigned_of, write_be,
};
use crate::codec::{DeSerialize, Serialize};
use crate::error::Error;
use crate::reader::ByteReader;

verus! {

/// Decoding an `n`-byte unsigned number from the front of `input`.
pub open spec fn parse_unsigned(input: Seq<u8>, n: nat) -> Result<(int, nat), Error> {
    match parse_uint(input, n) {
        Ok((v, k)) => Ok((v as int, k)),
        Err(e) => Err(e),
    }
}

/// Decoding an `n`-byte two's-complement number from the front of `input`.
pub open spec fn parse_signed(input: Seq<u8>, n: nat) -> Result<(int, nat), Error> {
    match parse_uint(input, n) {
        Ok((v, k)) => Ok((signed_of(v, n), k)),
        Err(e) => Err(e),
    }
}

proof fn lemma_unsigned_round_trip(v: nat, n: nat, rest: Seq<u8>)
    requires
        v < pow256(n),
    ensures
        parse_unsigned(be_bytes(v, n) + rest, n) == Ok::<(int, nat), Error>((v as int, n)),
{
    lemma_be_bytes_len(v, n);
    lemma_be_round_trip(v, n);
    assert((be_bytes(v, n) + rest).take(n as int) =~= be_bytes(v, n));
}

proof fn lemma_signed_round_trip(x: int, n: nat, rest: Seq<u8>)
    requires
        n > 0,
        -pow256(n) <= 2 * x < pow256(n),
    ensures
        parse_signed(be_bytes(unsigned_of(x, n), n) + rest, n) == Ok::<(int, nat), Error>(
            (x, n),
        ),
{
    let v = unsigned_of(x, n);
    lemma_unsigned_round_trip(v, n, rest);
}

impl Serialize for u32 {
    type Model = u32;

    open spec fn model(&self) -> u32 {
        *self
    }

    open spec fn fits(m: u32) -> bool {
        true
    }

    /// Four bytes, big-endian.
    open spec fn wire(m: u32) -> Seq<u8> {
        be_bytes(m as nat, 4)
    }

    fn serialize(&self, w: &mut Vec<u8>) -> (r: Result<(), Error>) {
        write_be(*self as u128, 4, w);
        Ok(())
    }
}

impl DeSerialize for u32 {
    open spec fn parse(input: Seq<u8>) -> Result<(u32, nat), Error> {
        match parse_unsigned(input, 4) {
            Ok((v, k)) => Ok((v as u32, k)),
            Err(e) => Err(e),
        }
    }

    fn decode(r: &mut ByteReader) -> (res: Result<u32, Error>) {
        proof {
            lemma_pow256_values();
        }
        match read_be(r, 4) {
            Ok(v) => Ok(v as u32),
            Err(e) => Err(e),
        }
    }

    fn deserialize(&mut self, r: &mut ByteReader) -> (res: Result<(), Error>) {
        match Self::decode(r) {
            Ok(v) => {
                *self = v;
                Ok(())
            },
            Err(e) => Err(e),
        }
    }

    proof fn lemma_round_trip(m: u32, rest: Seq<u8>) {
        lemma_pow256_values();
        lemma_unsigned_round_trip(m as nat, 4, rest);
        lemma_be_bytes_len(m as nat, 4);
    }
}


impl Serialize for bool {
    type Model = bool;

    open spec fn model(&self) -> bool {
        *self
    }

    open spec fn fits(m: bool) -> bool {
        true
    }

    /// One byte: `0x01` for true, `0x00` for false.
    open spec fn wire(m: bool) -> Seq<u8> {
        seq![if m { 1u8 } else { 0u8 }]
    }

    fn serialize(&self, w: &mut Vec<u8>) -> (r: Result<(), Error>) {
        if *self {
            w.push(1u8);
        } else {
            w.push(0u8);
        }
        assert(final(w)@ =~= old(w)@ + Self::wire(self.model()));
        Ok(())
    }
}

impl DeSerialize for bool {
    /// Any byte other than `0x00` and `0x01` is `InvalidEncoding`.
    open spec fn parse(input: Seq<u8>) -> Result<(bool, nat), Error> {
        if input.len() < 1 {
            Err(Error::UnexpectedEof)
        } else if input[0] == 0 {
            Ok((false, 1))
        } else if input[0] == 1 {
            Ok((true, 1))
        } else {
            Err(Error::InvalidEncoding)
        }
    }

    fn decode(r: &mut ByteReader) -> (res: Result<bool, Error>) {
        match r.read_byte() {
            Ok(b) => {
                if b == 0 {
                    Ok(false)
                } else if b == 1 {
                    Ok(true)
                } else {
                    Err(Error::InvalidEncoding)
                }
            },
            Err(e) => Err(e),
        }
    }

    fn deserialize(&mut self, r: &mut ByteReader) -> (res: Result<(), Error>) {
        match Self::decode(r) {
            Ok(v) => {
                *self = v;
                Ok(())
            },
            Err(e) => Err(e),
        }
    }

    proof fn lemma_round_trip(m: bool, rest: Seq<u8>) {
    }
}

impl Serialize for char {
    type Model = char;

    open spec fn model(&self) -> char {
        *self
    }

    /// Only characters of the single-byte range (up to `U+00FF`) are
    /// encodable.
    open spec fn fits(m: char) -> bool {
        (m as u32) < 256
    }

    /// One byte: the character's code.
    open spec fn wire(m: char) -> Seq<u8> {
        seq![(m as u32) as u8]
    }

    fn serialize(&self, w: &mut Vec<u8>) -> (r: Result<(), Error>) {
        let code = *self as u32;
        if code < 256 {
            w.push(code as u8);
            assert(final(w)@ =~= old(w)@ + Self::wire(self.model()));
            Ok(())
        } else {
            Err(Error::Unencodable)
        }
    }
}

impl DeSerialize for char {
    /// Every byte is a character: the one with that code.
    open spec fn parse(input: Seq<u8>) -> Result<(char, nat), Error> {
        if input.len() < 1 {
            Err(Error::UnexpectedEof)
        } else {
            Ok((input[0] as char, 1))
        }
    }

    fn decode(r: &mut ByteReader) -> (res: Result<char, Error>) {
        match r.read_byte() {
            Ok(b) => Ok(b as char),
            Err(e) => Err(e),
        }
    }

    fn deserialize(&mut self, r: &mut ByteReader) -> (res: Result<(), Error>) {
        match Self::decode(r) {
            Ok(v) => {
                *self = v;
                Ok(())
            },
            Err(e) => Err(e),
        }
    }

    proof fn lemma_round_trip(m: char, rest: Seq<u8>) {
        let code = m as u32;
        vstd::utf8::char_u32_cast(m, code);
        let b = code as u8;
        assert(b as u32 == code);
        assert((Self::wire(m) + rest)[0] == b);
        assert(b as char == code as char);
    }
}

impl Serialize for u8 {
    type Model = u8;

    open spec fn model(&self) -> u8 {
        *self
    }

    open spec fn fits(m: u8) -> bool {
        true
    }

    /// One byte.
    open spec fn wire(m: u8) -> Seq<u8> {
        be_bytes(m as nat, 1)
    }

    fn serialize(&self, w: &mut Vec<u8>) -> (r: Result<(), Error>) {
        write_be(*self as u128, 1, w);
        Ok(())
    }
}

impl DeSerialize for u8 {
    open spec fn parse(input: Seq<u8>) -> Result<(u8, nat), Error> {
        match parse_unsigned(input, 1) {
            Ok((v, k)) => Ok((v as u8, k)),
            Err(e) => Err(e),
        }
    }

    fn decode(r: &mut ByteReader) -> (res: Result<u8, Error>) {
        proof {
            lemma_pow256_values();
        }
        match read_be(r, 1) {
            Ok(v) => Ok(v as u8),
            Err(e) => Err(e),
        }
    }

    fn deserialize(&mut self, r: &mut ByteReader) -> (res: Result<(), Error>) {
        match Self::decode(r) {
            Ok(v) => {
                *self = v;
                Ok(())
            },
            Err(e) => Err(e),
        }
    }

    proof fn lemma_round_trip(m: u8, rest: Seq<u8>) {
        lemma_pow256_values();
        lemma_unsigned_round_trip(m as nat, 1, rest);
        lemma_be_bytes_len(m as nat, 1);
    }
}

impl Serialize for u16 {
    type Model = u16;

    open spec fn model(&self) -> u16 {
        *self
    }

    open spec fn fits(m: u16) -> bool {
        true
    }

    /// Two bytes, big-endian.
    open spec fn wire(m: u16) -> Seq<u8> {
        be_bytes(m as nat, 2)
    }

    fn serialize(&self, w: &mut Vec<u8>) -> (r: Result<(), Error>) {
        write_be(*self as u128, 2, w);
        Ok(())
    }
}

impl DeSerialize for u16 {
    open spec fn parse(input: Seq<u8>) -> Result<(u16, nat), Error> {
        match parse_unsigned(input, 2) {
            Ok((v, k)) => Ok((v as u16, k)),
            Err(e) => Err(e),
        }
    }

    fn decode(r: &mut ByteReader) -> (res: Result<u16, Error>) {
        proof {
            lemma_pow256_values();
        }
        match read_be(r, 2) {
            Ok(v) => Ok(v as u16),
            Err(e) => Err(e),
        }
    }

    fn deserialize(&mut self, r: &mut ByteReader) -> (res: Result<(), Error>) {
        match Self::decode(r) {
            Ok(v) => {
                *self = v;
                Ok(())
            },
            Err(e) => Err(e),
        }
    }

    proof fn lemma_round_trip(m: u16, rest: Seq<u8>) {
        lemma_pow256_values();
        lemma_unsigned_round_trip(m as nat, 2, rest);
        lemma_be_bytes_len(m as nat, 2);
    }
}

impl Serialize for u64 {
    type Model = u64;

    open spec fn model(&self) -> u64 {
        *self
    }

    open spec fn fits(m: u64) -> bool {
        true
    }

    /// Eight bytes, big-endian.
    open spec fn wire(m: u64) -> Seq<u8> {
        be_bytes(m as nat, 8)
    }

    fn serialize(&self, w: &mut Vec<u8>) -> (r: Result<(), Error>) {
        write_be(*self as u128, 8, w);
        Ok(())
    }
}

impl DeSerialize for u64 {
    open spec fn parse(input: Seq<u8>) -> Result<(u64, nat), Error> {
        match parse_unsigned(input, 8) {
            Ok((v, k)) => Ok((v as u64, k)),
            Err(e) => Err(e),
        }
    }

    fn decode(r: &mut ByteReader) -> (res: Result<u64, Error>) {
        proof {
            lemma_pow256_values();
        }
        match read_be(r, 8) {
            Ok(v) => Ok(v as u64),
            Err(e) => Err(e),
        }
    }

    fn deserialize(&mut self, r: &mut ByteReader) -> (res: Result<(), Error>) {
        match Self::decode(r) {
            Ok(v) => {
                *self = v;
                Ok(())
            },
            Err(e) => Err(e),
        }
    }

    proof fn lemma_round_trip(m: u64, rest: Seq<u8>) {
        lemma_pow256_values();
        lemma_unsigned_round_trip(m as nat, 8, rest);
        lemma_be_bytes_len(m as nat, 8);
    }
}

impl Serialize for u128 {
    type Model = u128;

    open spec fn model(&self) -> u128 {
        *self
    }

    open spec fn fits(m: u128) -> bool {
        true
    }

    /// Sixteen bytes, big-endian.
    open spec fn wire(m: u128) -> Seq<u8> {
        be_bytes(m as nat, 16)
    }

    fn serialize(&self, w: &mut Vec<u8>) -> (r: Result<(), Error>) {
        write_be(*self, 16, w);
        Ok(())
    }
}

impl DeSerialize for u128 {
    open spec fn parse(input: Seq<u8>) -> Result<(u128, nat), Error> {
        match parse_unsigned(input, 16) {
            Ok((v, k)) => Ok((v as u128, k)),
            Err(e) => Err(e),
        }
    }

    fn decode(r: &mut ByteReader) -> (res: Result<u128, Error>) {
        proof {
            lemma_pow256_values();
        }
        match read_be(r, 16) {
            Ok(v) => Ok(v),
            Err(e) => Err(e),
        }
    }

    fn deserialize(&mut self, r: &mut ByteReader) -> (res: Result<(), Error>) {
        match Self::decode(r) {
            Ok(v) => {
                *self = v;
                Ok(())
            },
            Err(e) => Err(e),
        }
    }

    proof fn lemma_round_trip(m: u128, rest: Seq<u8>) {
        lemma_pow256_values();
        lemma_unsigned_round_trip(m as nat, 16, rest);
        lemma_be_bytes_len(m as nat, 16);
    }
}

// Signed integers travel as their two's-complement pattern. For a negative
// `x` of `n` bytes the pattern is `x + 256^n`, computed as the all-ones value
// minus `-x - 1` so that no intermediate overflows; decoding subtracts
// `256^n` from patterns with the top bit set.

impl Serialize for i8 {
    type Model = i8;

    open spec fn model(&self) -> i8 {
        *self
    }

    open spec fn fits(m: i8) -> bool {
        true
    }

    /// One byte, two's complement.
    open spec fn wire(m: i8) -> Seq<u8> {
        be_bytes(unsigned_of(m as int, 1), 1)
    }

    fn serialize(&self, w: &mut Vec<u8>) -> (r: Result<(), Error>) {
        proof {
            lemma_pow256_values();
        }
        let x = *self as i128;
        let u: u128 = if x < 0 {
            0xFF - (-(x + 1)) as u128
        } else {
            x as u128
        };
        write_be(u, 1, w);
        Ok(())
    }
}

impl DeSerialize for i8 {
    open spec fn parse(input: Seq<u8>) -> Result<(i8, nat), Error> {
        match parse_signed(input, 1) {
            Ok((v, k)) => Ok((v as i8, k)),
            Err(e) => Err(e),
        }
    }

    fn decode(r: &mut ByteReader) -> (res: Result<i8, Error>) {
        proof {
            lemma_pow256_values();
        }
        match read_be(r, 1) {
            Ok(v) => {
                let x: i8 = if v >= 0x80 {
                    (v as i128 - 0x100) as i8
                } else {
                    v as i8
                };
                Ok(x)
            },
            Err(e) => Err(e),
        }
    }

    fn deserialize(&mut self, r: &mut ByteReader) -> (res: Result<(), Error>) {
        match Self::decode(r) {
            Ok(v) => {
                *self = v;
                Ok(())
            },
            Err(e) => Err(e),
        }
    }

    proof fn lemma_round_trip(m: i8, rest: Seq<u8>) {
        lemma_pow256_values();
        lemma_signed_round_trip(m as int, 1, rest);
        lemma_be_bytes_len(unsigned_of(m as int, 1), 1);
    }
}

impl Serialize for i16 {
    type Model = i16;

    open spec fn model(&self) -> i16 {
        *self
    }

    open spec fn fits(m: i16) -> bool {
        true
    }

    /// Two bytes, big-endian, two's complement.
    open spec fn wire(m: i16) -> Seq<u8> {
        be_bytes(unsigned_of(m as int, 2), 2)
    }

    fn serialize(&self, w: &mut Vec<u8>) -> (r: Result<(), Error>) {
        proof {
            lemma_pow256_values();
        }
        let x = *self as i128;
        let u: u128 = if x < 0 {
            0xFFFF - (-(x + 1)) as u128
        } else {
            x as u128
        };
        write_be(u, 2, w);
        Ok(())
    }
}

impl DeSerialize for i16 {
    open spec fn parse(input: Seq<u8>) -> Result<(i16, nat), Error> {
        match parse_signed(input, 2) {
            Ok((v, k)) => Ok((v as i16, k)),
            Err(e) => Err(e),
        }
    }

    fn decode(r: &mut ByteReader) -> (res: Result<i16, Error>) {
        proof {
            lemma_pow256_values();
        }
        match read_be(r, 2) {
            Ok(v) => {
                let x: i16 = if v >= 0x8000 {
                    (v as i128 - 0x1_0000) as i16
                } else {
                    v as i16
                };
                Ok(x)
            },
            Err(e) => Err(e),
        }
    }

    fn deserialize(&mut self, r: &mut ByteReader) -> (res: Result<(), Error>) {
        match Self::decode(r) {
            Ok(v) => {
                *self = v;
                Ok(())
            },
            Err(e) => Err(e),
        }
    }

    proof fn lemma_round_trip(m: i16, rest: Seq<u8>) {
        lemma_pow256_values();
        lemma_signed_round_trip(m as int, 2, rest);
        lemma_be_bytes_len(unsigned_of(m as int, 2), 2);
    }
}

impl Serialize for i32 {
    type Model = i32;

    open spec fn model(&self) -> i32 {
        *self
    }

    open spec fn fits(m: i32) -> bool {
        true
    }

    /// Four bytes, big-endian, two's complement.
    open spec fn wire(m: i32) -> Seq<u8> {
        be_bytes(unsigned_of(m as int, 4), 4)
    }

    fn serialize(&self, w: &mut Vec<u8>) -> (r: Result<(), Error>) {
        proof {
            lemma_pow256_values();
        }
        let x = *self as i128;
        let u: u128 = if x < 0 {
            0xFFFF_FFFF - (-(x + 1)) as u128
        } else {
            x as u128
        };
        write_be(u, 4, w);
        Ok(())
    }
}

impl DeSerialize for i32 {
    open spec fn parse(input: Seq<u8>) -> Result<(i32, nat), Error> {
        match parse_signed(input, 4) {
            Ok((v, k)) => Ok((v as i32, k)),
            Err(e) => Err(e),
        }
    }

    fn decode(r: &mut ByteReader) -> (res: Result<i32, Error>) {
        proof {
            lemma_pow256_values();
        }
        match read_be(r, 4) {
            Ok(v) => {
                let x: i32 = if v >= 0x8000_0000 {
                    (v as i128 - 0x1_0000_0000) as i32
                } else {
                    v as i32
                };
                Ok(x)
            },
            Err(e) => Err(e),
        }
    }

    fn deserialize(&mut self, r: &mut ByteReader) -> (res: Result<(), Error>) {
        match Self::decode(r) {
            Ok(v) => {
                *self = v;
                Ok(())
            },
            Err(e) => Err(e),
        }
    }

    proof fn lemma_round_trip(m: i32, rest: Seq<u8>) {
        lemma_pow256_values();
        lemma_signed_round_trip(m as int, 4, rest);
        lemma_be_bytes_len(unsigned_of(m as int, 4), 4);
    }
}

impl Serialize for i64 {
    type Model = i64;

    open spec fn model(&self) -> i64 {
        *self
    }

    open spec fn fits(m: i64) -> bool {
        true
    }

    /// Eight bytes, big-endian, two's complement.
    open spec fn wire(m: i64) -> Seq<u8> {
        be_bytes(unsigned_of(m as int, 8), 8)
    }

    fn serialize(&self, w: &mut Vec<u8>) -> (r: Result<(), Error>) {
        proof {
            lemma_pow256_values();
        }
        let x = *self as i128;
        let u: u128 = if x < 0 {
            0xFFFF_FFFF_FFFF_FFFF - (-(x + 1)) as u128
        } else {
            x as u128
        };
        write_be(u, 8, w);
        Ok(())
    }
}

impl DeSerialize for i64 {
    open spec fn parse(input: Seq<u8>) -> Result<(i64, nat), Error> {
        match parse_signed(input, 8) {
            Ok((v, k)) => Ok((v as i64, k)),
            Err(e) => Err(e),
        }
    }

    fn decode(r: &mut ByteReader) -> (res: Result<i64, Error>) {
        proof {
            lemma_pow256_values();
        }
        match read_be(r, 8) {
            Ok(v) => {
                let x: i64 = if v >= 0x8000_0000_0000_0000 {
                    (v as i128 - 0x1_0000_0000_0000_0000) as i64
                } else {
                    v as i64
                };
                Ok(x)
            },
            Err(e) => Err(e),
        }
    }

    fn deserialize(&mut self, r: &mut ByteReader) -> (res: Result<(), Error>) {
        match Self::decode(r) {
            Ok(v) => {
                *self = v;
                Ok(())
            },
            Err(e) => Err(e),
        }
    }

    proof fn lemma_round_trip(m: i64, rest: Seq<u8>) {
        lemma_pow256_values();
        lemma_signed_round_trip(m as int, 8, rest);
        lemma_be_bytes_len(unsigned_of(m as int, 8), 8);
    }
}

impl Serialize for i128 {
    type Model = i128;

    open spec fn model(&self) -> i128 {
        *self
    }

    open spec fn fits(m: i128) -> bool {
        true
    }

    /// Sixteen bytes, big-endian, two's complement.
    open spec fn wire(m: i128) -> Seq<u8> {
        be_bytes(unsigned_of(m as int, 16), 16)
    }

    fn serialize(&self, w: &mut Vec<u8>) -> (r: Result<(), Error>) {
        proof {
            lemma_pow256_values();
        }
        let x = *self as i128;
        let u: u128 = if x < 0 {
            u128::MAX - (-(x + 1)) as u128
        } else {
            x as u128
        };
        write_be(u, 16, w);
        Ok(())
    }
}

impl DeSerialize for i128 {
    open spec fn parse(input: Seq<u8>) -> Result<(i128, nat), Error> {
        match parse_signed(input, 16) {
            Ok((v, k)) => Ok((v as i128, k)),
            Err(e) => Err(e),
        }
    }

    fn decode(r: &mut ByteReader) -> (res: Result<i128, Error>) {
        proof {
            lemma_pow256_values();
        }
        match read_be(r, 16) {
            Ok(v) => {
                let x: i128 = if v >= 0x8000_0000_0000_0000_0000_0000_0000_0000 {
                    -((u128::MAX - v) as i128) - 1
                } else {
                    v as i128
                };
                Ok(x)
            },
            Err(e) => Err(e),
        }
    }

    fn deserialize(&mut self, r: &mut ByteReader) -> (res: Result<(), Error>) {
        match Self::decode(r) {
            Ok(v) => {
                *self = v;
                Ok(())
            },
            Err(e) => Err(e),
        }
    }

    proof fn lemma_round_trip(m: i128, rest: Seq<u8>) {
        lemma_pow256_values();
        lemma_signed_round_trip(m as int, 16, rest);
        lemma_be_bytes_len(unsigned_of(m as int, 16), 16);
    }
}


} // verus!
