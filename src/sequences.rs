use vstd::prelude::*;

use std::collections::VecDeque;

use crate::big_endian::{
    be_bytes, lemma_be_bytes_len, lemma_be_round_trip, lemma_pow256_values, parse_uint, pow256,
    read_be, write_be,
};
use crate::codec::{DeSerialize, Serialize};
use crate::error::Error;
use crate::reader::ByteReader;

verus! {

/// The models of the items of `s`, in order.
pub open spec fn models<T: Serialize>(s: Seq<T>) -> Seq<T::Model> {
    s.map_values(|x: T| x.model())
}

/// The encodings of the items, one after the other.
pub open spec fn items_wire<T: Serialize>(ms: Seq<T::Model>) -> Seq<u8>
    decreases ms.len(),
{
    if ms.len() == 0 {
        Seq::empty()
    } else {
        T::wire(ms[0]) + items_wire::<T>(ms.drop_first())
    }
}

/// A sequence: its count as a 32-bit big-endian number, then its items.
pub open spec fn seq_wire<T: Serialize>(ms: Seq<T::Model>) -> Seq<u8> {
    be_bytes(ms.len(), 4) + items_wire::<T>(ms)
}

/// A sequence is encodable when its count fits in 32 bits and each item is.
pub open spec fn seq_fits<T: Serialize>(ms: Seq<T::Model>) -> bool {
    &&& ms.len() <= u32::MAX
    &&& forall|i: int| 0 <= i < ms.len() ==> T::fits(#[trigger] ms[i])
}

/// Puts `first`, taken from `n` bytes, in front of what the bytes after
/// them decoded to.
pub open spec fn chain<M>(first: Seq<M>, n: nat, later: Result<(Seq<M>, nat), Error>) -> Result<
    (Seq<M>, nat),
    Error,
> {
    match later {
        Ok((more, k)) => Ok((first + more, n + k)),
        Err(e) => Err(e),
    }
}

/// Decoding `count` items one after the other from the front of `input`;
/// the first failure is the result.
pub open spec fn parse_items<T: DeSerialize>(count: nat, input: Seq<u8>) -> Result<
    (Seq<T::Model>, nat),
    Error,
>
    decreases count,
{
    if count == 0 {
        Ok((Seq::empty(), 0))
    } else {
        match T::parse(input) {
            Ok((m, n)) => chain(
                seq![m],
                n,
                parse_items::<T>((count - 1) as nat, input.skip(n as int)),
            ),
            Err(e) => Err(e),
        }
    }
}

/// Decoding a sequence: a 32-bit count, then that many items.
pub open spec fn parse_seq<T: DeSerialize>(input: Seq<u8>) -> Result<(Seq<T::Model>, nat), Error> {
    match parse_uint(input, 4) {
        Ok((count, k)) => chain(Seq::empty(), k, parse_items::<T>(count, input.skip(k as int))),
        Err(e) => Err(e),
    }
}

pub proof fn lemma_chain_assoc<M>(
    a: Seq<M>,
    n: nat,
    b: Seq<M>,
    k: nat,
    later: Result<(Seq<M>, nat), Error>,
)
    ensures
        chain(a, n, chain(b, k, later)) == chain(a + b, n + k, later),
{
    match later {
        Ok((more, j)) => {
            assert(a + (b + more) =~= (a + b) + more);
        },
        Err(_) => {},
    }
}

pub proof fn lemma_items_wire_push<T: Serialize>(ms: Seq<T::Model>, m: T::Model)
    ensures
        items_wire::<T>(ms.push(m)) == items_wire::<T>(ms) + T::wire(m),
    decreases ms.len(),
{
    if ms.len() == 0 {
        let one = ms.push(m);
        assert(one.drop_first() =~= Seq::<T::Model>::empty());
        assert(items_wire::<T>(one.drop_first()) =~= Seq::<u8>::empty());
        assert(one[0] == m);
        assert(items_wire::<T>(one) =~= T::wire(m));
    } else {
        lemma_items_wire_push::<T>(ms.drop_first(), m);
        assert(ms.push(m).drop_first() =~= ms.drop_first().push(m));
        assert(items_wire::<T>(ms.push(m)) =~= items_wire::<T>(ms) + T::wire(m));
    }
}

/// Decoding the items' encodings, followed by anything, gives the items.
pub proof fn lemma_items_round_trip<T: DeSerialize>(ms: Seq<T::Model>, rest: Seq<u8>)
    requires
        forall|i: int| 0 <= i < ms.len() ==> T::fits(#[trigger] ms[i]),
    ensures
        parse_items::<T>(ms.len(), items_wire::<T>(ms) + rest) == Ok::<
            (Seq<T::Model>, nat),
            Error,
        >((ms, items_wire::<T>(ms).len())),
    decreases ms.len(),
{
    if ms.len() == 0 {
        assert(items_wire::<T>(ms).len() == 0);
        assert(ms =~= Seq::<T::Model>::empty());
    } else {
        let tail = ms.drop_first();
        let tail_bytes = items_wire::<T>(tail) + rest;
        assert(T::fits(ms[0]));
        assert forall|i: int| 0 <= i < tail.len() implies T::fits(#[trigger] tail[i]) by {
            assert(tail[i] == ms[i + 1]);
        }
        lemma_items_round_trip::<T>(tail, rest);
        T::lemma_round_trip(ms[0], tail_bytes);
        let input = items_wire::<T>(ms) + rest;
        assert(input =~= T::wire(ms[0]) + tail_bytes);
        assert(input.skip(T::wire(ms[0]).len() as int) =~= tail_bytes);
        assert(seq![ms[0]] + tail =~= ms);
    }
}

/// Decoding a sequence's encoding, followed by anything, gives the sequence.
pub proof fn lemma_seq_round_trip<T: DeSerialize>(ms: Seq<T::Model>, rest: Seq<u8>)
    requires
        seq_fits::<T>(ms),
    ensures
        parse_seq::<T>(seq_wire::<T>(ms) + rest) == Ok::<(Seq<T::Model>, nat), Error>(
            (ms, seq_wire::<T>(ms).len()),
        ),
{
    lemma_pow256_values();
    lemma_be_bytes_len(ms.len(), 4);
    lemma_be_round_trip(ms.len(), 4);
    let input = seq_wire::<T>(ms) + rest;
    assert(input.take(4) =~= be_bytes(ms.len(), 4));
    assert(input.skip(4) =~= items_wire::<T>(ms) + rest);
    lemma_items_round_trip::<T>(ms, rest);
    assert(Seq::<T::Model>::empty() + ms =~= ms);
}

/// Writes the count of `v`, then each item of `v`.
pub fn serialize_items<T: Serialize>(v: &[T], w: &mut Vec<u8>) -> (r: Result<(), Error>)
    ensures
        r is Ok <==> seq_fits::<T>(models(v@)),
        old(w)@.is_prefix_of(final(w)@),
        r is Ok ==> final(w)@ == old(w)@ + seq_wire::<T>(models(v@)),
        r is Err ==> r == Err::<(), Error>(Error::Unencodable),
{
    let ghost ms = models(v@);
    if v.len() > 0xFFFF_FFFF {
        return Err(Error::Unencodable);
    }
    write_be(v.len() as u128, 4, w);
    let ghost head = w@;
    let mut i: usize = 0;
    while i < v.len()
        invariant
            i <= v.len() <= u32::MAX,
            ms == models(v@),
            head == old(w)@ + be_bytes(ms.len(), 4),
            w@ == head + items_wire::<T>(ms.take(i as int)),
            forall|j: int| 0 <= j < i ==> T::fits(#[trigger] ms[j]),
        decreases v.len() - i,
    {
        match v[i].serialize(w) {
            Ok(()) => {},
            Err(e) => {
                return Err(e);
            },
        }
        proof {
            lemma_items_wire_push::<T>(ms.take(i as int), ms[i as int]);
            assert(ms.take(i + 1) =~= ms.take(i as int).push(ms[i as int]));
        }
        i = i + 1;
    }
    assert(ms.take(i as int) =~= ms);
    Ok(())
}

/// Reads a count, then that many items.
pub fn decode_items<T: DeSerialize>(r: &mut ByteReader) -> (res: Result<Vec<T>, Error>)
    ensures
        match parse_seq::<T>(old(r)@) {
            Ok((ms, n)) => {
                &&& res is Ok
                &&& models(res->Ok_0@) == ms
                &&& n <= old(r)@.len()
                &&& final(r)@ == old(r)@.skip(n as int)
            },
            Err(e) => res == Err::<Vec<T>, Error>(e),
        },
{
    let count = match read_be(r, 4) {
        Ok(c) => c,
        Err(e) => {
            return Err(e);
        },
    };
    proof {
        lemma_pow256_values();
    }
    let ghost start = r@;
    let ghost mut used: nat = 0;
    let mut items: Vec<T> = Vec::new();
    let mut i: u128 = 0;
    assert(models(items@) =~= Seq::<T::Model>::empty());
    assert(start.skip(0) =~= start);
    while i < count
        invariant
            i <= count < pow256(4),
            parse_uint(old(r)@, 4) == Ok::<(nat, nat), Error>((count as nat, 4)),
            start == old(r)@.skip(4),
            used <= start.len(),
            r@ == start.skip(used as int),
            parse_items::<T>(count as nat, start) == chain(
                models(items@),
                used,
                parse_items::<T>((count - i) as nat, r@),
            ),
        decreases count - i,
    {
        let ghost before = r@;
        match T::decode(r) {
            Ok(v) => {
                proof {
                    let (m, n) = T::parse(before)->Ok_0;
                    lemma_chain_assoc(
                        models(items@),
                        used,
                        seq![m],
                        n,
                        parse_items::<T>((count - i - 1) as nat, r@),
                    );
                    assert(start.skip(used as int).skip(n as int) =~= start.skip((used + n) as int));
                    used = used + n;
                }
                let ghost old_items = items@;
                items.push(v);
                assert(models(items@) =~= models(old_items) + seq![v.model()]);
                i = i + 1;
            },
            Err(e) => {
                assert(parse_items::<T>((count - i) as nat, before) == Err::<
                    (Seq<T::Model>, nat),
                    Error,
                >(e));
                return Err(e);
            },
        }
    }
    assert(models(items@) + Seq::<T::Model>::empty() =~= models(items@));
    assert(Seq::<T::Model>::empty() + models(items@) =~= models(items@));
    assert(old(r)@.skip(4).skip(used as int) =~= old(r)@.skip((4 + used) as int));
    Ok(items)
}

impl<T: Serialize> Serialize for [T] {
    type Model = Seq<T::Model>;

    open spec fn model(&self) -> Seq<T::Model> {
        models(self@)
    }

    open spec fn fits(m: Seq<T::Model>) -> bool {
        seq_fits::<T>(m)
    }

    open spec fn wire(m: Seq<T::Model>) -> Seq<u8> {
        seq_wire::<T>(m)
    }

    fn serialize(&self, w: &mut Vec<u8>) -> (r: Result<(), Error>) {
        serialize_items(self, w)
    }
}

impl<T: Serialize> Serialize for Vec<T> {
    type Model = Seq<T::Model>;

    open spec fn model(&self) -> Seq<T::Model> {
        models(self@)
    }

    open spec fn fits(m: Seq<T::Model>) -> bool {
        seq_fits::<T>(m)
    }

    open spec fn wire(m: Seq<T::Model>) -> Seq<u8> {
        seq_wire::<T>(m)
    }

    fn serialize(&self, w: &mut Vec<u8>) -> (r: Result<(), Error>) {
        serialize_items(self.as_slice(), w)
    }
}

impl<T: DeSerialize> DeSerialize for Vec<T> {
    open spec fn parse(input: Seq<u8>) -> Result<(Seq<T::Model>, nat), Error> {
        parse_seq::<T>(input)
    }

    fn decode(r: &mut ByteReader) -> (res: Result<Vec<T>, Error>) {
        decode_items(r)
    }

    fn deserialize(&mut self, r: &mut ByteReader) -> (res: Result<(), Error>) {
        match decode_items(r) {
            Ok(v) => {
                *self = v;
                Ok(())
            },
            Err(e) => Err(e),
        }
    }

    proof fn lemma_round_trip(m: Seq<T::Model>, rest: Seq<u8>) {
        lemma_seq_round_trip::<T>(m, rest);
    }
}


impl<T: Serialize> Serialize for VecDeque<T> {
    type Model = Seq<T::Model>;

    open spec fn model(&self) -> Seq<T::Model> {
        models(self@)
    }

    open spec fn fits(m: Seq<T::Model>) -> bool {
        seq_fits::<T>(m)
    }

    /// Front to back, as a sequence.
    open spec fn wire(m: Seq<T::Model>) -> Seq<u8> {
        seq_wire::<T>(m)
    }

    fn serialize(&self, w: &mut Vec<u8>) -> (r: Result<(), Error>) {
        let ghost ms = models(self@);
        if self.len() > 0xFFFF_FFFF {
            return Err(Error::Unencodable);
        }
        write_be(self.len() as u128, 4, w);
        let ghost head = w@;
        let mut i: usize = 0;
        while i < self.len()
            invariant
                i <= self@.len() <= u32::MAX,
                ms == models(self@),
                head == old(w)@ + be_bytes(ms.len(), 4),
                w@ == head + items_wire::<T>(ms.take(i as int)),
                forall|j: int| 0 <= j < i ==> T::fits(#[trigger] ms[j]),
            decreases self@.len() - i,
        {
            let item = &self[i];
            assert(item.model() == ms[i as int]);
            match item.serialize(w) {
                Ok(()) => {},
                Err(e) => {
                    assert(!seq_fits::<T>(ms));
                    return Err(e);
                },
            }
            proof {
                lemma_items_wire_push::<T>(ms.take(i as int), ms[i as int]);
                assert(ms.take(i + 1) =~= ms.take(i as int).push(ms[i as int]));
            }
            i = i + 1;
        }
        assert(ms.take(i as int) =~= ms);
        Ok(())
    }
}

impl<T: DeSerialize> DeSerialize for VecDeque<T> {
    open spec fn parse(input: Seq<u8>) -> Result<(Seq<T::Model>, nat), Error> {
        parse_seq::<T>(input)
    }

    fn decode(r: &mut ByteReader) -> (res: Result<VecDeque<T>, Error>) {
        let mut items: Vec<T> = match decode_items(r) {
            Ok(v) => v,
            Err(e) => {
                return Err(e);
            },
        };
        let ghost all = items@;
        let mut queue: VecDeque<T> = VecDeque::new();
        while items.len() > 0
            invariant
                items@ == all.take(items.len() as int),
                queue@ == all.skip(items.len() as int),
                items.len() <= all.len(),
            decreases items.len(),
        {
            let ghost k = items.len() as int;
            match items.pop() {
                Some(v) => {
                    queue.push_front(v);
                    assert(all.skip(k - 1) =~= seq![all[k - 1]] + all.skip(k));
                    assert(items@ =~= all.take(k - 1));
                },
                None => {},
            }
        }
        assert(queue@ =~= all);
        Ok(queue)
    }

    fn deserialize(&mut self, r: &mut ByteReader) -> (res: Result<(), Error>) {
        match Self::decode(r) {
            Ok(v) => {
                *self = v;
                Ok(())
            },
            Err(e) => Err(e),
        }
    }

    proof fn lemma_round_trip(m: Seq<T::Model>, rest: Seq<u8>) {
        lemma_seq_round_trip::<T>(m, rest);
    }
}

} // verus!
