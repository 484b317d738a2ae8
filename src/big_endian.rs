use vstd::prelude::*;

use crate::error::Error;
use crate::reader::ByteReader;

verus! {

/// `256` raised to the power `n`.
pub open spec fn pow256(n: nat) -> nat
    decreases n,
{
    if n == 0 {
        1
    } else {
        256 * pow256((n - 1) as nat)
    }
}

/// The `n` low bytes of `v`, most significant first.
pub open spec fn be_bytes(v: nat, n: nat) -> Seq<u8>
    decreases n,
{
    if n == 0 {
        Seq::empty()
    } else {
        be_bytes(v / 256, (n - 1) as nat).push((v % 256) as u8)
    }
}

/// The number that `s` spells in base 256, most significant byte first.
pub open spec fn be_value(s: Seq<u8>) -> nat
    decreases s.len(),
{
    if s.len() == 0 {
        0
    } else {
        be_value(s.drop_last()) * 256 + s.last() as nat
    }
}

/// The two's-complement pattern of `x` in `n` bytes, read as unsigned.
pub open spec fn unsigned_of(x: int, n: nat) -> nat {
    if x < 0 {
        (x + pow256(n)) as nat
    } else {
        x as nat
    }
}

/// The signed number whose `n`-byte two's-complement pattern is `v`.
pub open spec fn signed_of(v: nat, n: nat) -> int {
    if 2 * v >= pow256(n) {
        v - pow256(n)
    } else {
        v as int
    }
}

/// Reading `n` unsigned bytes from the front of `input`: the number and the
/// count of bytes taken, or `UnexpectedEof` where fewer are left.
pub open spec fn parse_uint(input: Seq<u8>, n: nat) -> Result<(nat, nat), Error> {
    if input.len() < n {
        Err(Error::UnexpectedEof)
    } else {
        Ok((be_value(input.take(n as int)), n))
    }
}

pub proof fn lemma_pow256_values()
    ensures
        pow256(1) == 0x100,
        pow256(2) == 0x1_0000,
        pow256(4) == 0x1_0000_0000,
        pow256(8) == 0x1_0000_0000_0000_0000,
        pow256(16) == 0x1_0000_0000_0000_0000_0000_0000_0000_0000,
{
    reveal_with_fuel(pow256, 17);
}

pub proof fn lemma_pow256_monotonic(a: nat, b: nat)
    requires
        a <= b,
    ensures
        pow256(a) <= pow256(b),
    decreases b,
{
    if a < b {
        lemma_pow256_monotonic(a, (b - 1) as nat);
    }
}

pub proof fn lemma_be_bytes_len(v: nat, n: nat)
    ensures
        be_bytes(v, n).len() == n,
    decreases n,
{
    if n > 0 {
        lemma_be_bytes_len(v / 256, (n - 1) as nat);
    }
}

pub proof fn lemma_be_value_bound(s: Seq<u8>)
    ensures
        be_value(s) < pow256(s.len()),
    decreases s.len(),
{
    if s.len() > 0 {
        lemma_be_value_bound(s.drop_last());
        let p = pow256((s.len() - 1) as nat);
        assert(be_value(s.drop_last()) * 256 + s.last() < p * 256) by (nonlinear_arith)
            requires
                be_value(s.drop_last()) < p,
                s.last() < 256,
        ;
    }
}

/// Reading back `n` bytes written for `v` gives `v` again.
pub proof fn lemma_be_round_trip(v: nat, n: nat)
    requires
        v < pow256(n),
    ensures
        be_value(be_bytes(v, n)) == v,
    decreases n,
{
    if n > 0 {
        let p = pow256((n - 1) as nat);
        assert(v / 256 < p) by (nonlinear_arith)
            requires
                v < 256 * p,
        ;
        lemma_be_round_trip(v / 256, (n - 1) as nat);
        let s = be_bytes(v, n);
        assert(s.drop_last() =~= be_bytes(v / 256, (n - 1) as nat));
        assert((v / 256) * 256 + v % 256 == v) by (nonlinear_arith);
    }
}

/// Appends the `n` low bytes of `v` to `w`, most significant first.
pub fn write_be(v: u128, n: usize, w: &mut Vec<u8>)
    requires
        n <= 16,
    ensures
        final(w)@ == old(w)@ + be_bytes(v as nat, n as nat),
    decreases n,
{
    if n > 0 {
        write_be(v / 256, n - 1, w);
        w.push((v % 256) as u8);
        assert(final(w)@ =~= old(w)@ + be_bytes(v as nat, n as nat));
    } else {
        assert(final(w)@ =~= old(w)@ + be_bytes(v as nat, n as nat));
    }
}

/// Reads `n` bytes as an unsigned big-endian number.
pub fn read_be(r: &mut ByteReader, n: usize) -> (res: Result<u128, Error>)
    requires
        n <= 16,
    ensures
        match parse_uint(old(r)@, n as nat) {
            Ok((v, k)) => res == Ok::<u128, Error>(v as u128) && final(r)@ == old(r)@.skip(
                k as int,
            ) && v < pow256(n as nat),
            Err(e) => res == Err::<u128, Error>(e),
        },
{
    if r.remaining() < n {
        return Err(Error::UnexpectedEof);
    }
    let ghost start = r@;
    let mut acc: u128 = 0;
    let mut i: usize = 0;
    while i < n
        invariant
            i <= n <= 16,
            n <= start.len(),
            r@ == start.skip(i as int),
            acc as nat == be_value(start.take(i as int)),
            acc < pow256(i as nat),
        decreases n - i,
    {
        let ghost before = r@;
        let b = match r.read_byte() {
            Ok(b) => b,
            Err(e) => return Err(e),
        };
        proof {
            assert(b == start[i as int]);
            assert(r@ =~= start.skip(i + 1));
            assert(start.take(i + 1).drop_last() =~= start.take(i as int));
            lemma_pow256_monotonic((i + 1) as nat, 16);
            lemma_pow256_values();
            assert(acc * 256 + b < pow256(i as nat) * 256) by (nonlinear_arith)
                requires
                    acc < pow256(i as nat),
                    b < 256,
            ;
        }
        acc = acc * 256 + b as u128;
        i = i + 1;
    }
    assert(start.take(n as int) =~= start.take(i as int));
    Ok(acc)
}

} // verus!
