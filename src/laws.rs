use vstd::prelude::*;

use crate::big_endian::{lemma_be_bytes_len, unsigned_of};
use crate::codec::{DeSerialize, Serialize};
use crate::error::Error;
use crate::sequences::{items_wire, seq_wire};

verus! {

/// The total length of the items' encodings.
pub open spec fn wire_len_sum<T: Serialize>(ms: Seq<T::Model>) -> nat
    decreases ms.len(),
{
    if ms.len() == 0 {
        0
    } else {
        T::wire(ms[0]).len() + wire_len_sum::<T>(ms.drop_first())
    }
}

/// Round trip: for every type that decodes and every encodable value `v`,
/// decoding the bytes that `serialize` writes for `v`, whatever follows
/// them, gives a value with the model of `v` and takes exactly those bytes.
pub proof fn law_round_trip<T: DeSerialize>(v: &T, rest: Seq<u8>)
    requires
        T::fits(v.model()),
    ensures
        T::parse(T::wire(v.model()) + rest) == Ok::<(T::Model, nat), Error>(
            (v.model(), T::wire(v.model()).len()),
        ),
{
    T::lemma_round_trip(v.model(), rest);
}

/// Fixed width: every value of a scalar type of width `N` bytes is encoded
/// in exactly `N` bytes.
pub proof fn law_scalar_widths()
    ensures
        forall|x: bool| (#[trigger] <bool as Serialize>::wire(x)).len() == 1,
        forall|x: char| (#[trigger] <char as Serialize>::wire(x)).len() == 1,
        forall|x: u8| (#[trigger] <u8 as Serialize>::wire(x)).len() == 1,
        forall|x: i8| (#[trigger] <i8 as Serialize>::wire(x)).len() == 1,
        forall|x: u16| (#[trigger] <u16 as Serialize>::wire(x)).len() == 2,
        forall|x: i16| (#[trigger] <i16 as Serialize>::wire(x)).len() == 2,
        forall|x: u32| (#[trigger] <u32 as Serialize>::wire(x)).len() == 4,
        forall|x: i32| (#[trigger] <i32 as Serialize>::wire(x)).len() == 4,
        forall|x: u64| (#[trigger] <u64 as Serialize>::wire(x)).len() == 8,
        forall|x: i64| (#[trigger] <i64 as Serialize>::wire(x)).len() == 8,
        forall|x: u128| (#[trigger] <u128 as Serialize>::wire(x)).len() == 16,
        forall|x: i128| (#[trigger] <i128 as Serialize>::wire(x)).len() == 16,
{
    assert forall|x: u8| (#[trigger] <u8 as Serialize>::wire(x)).len() == 1 by {
        lemma_be_bytes_len(x as nat, 1);
    }
    assert forall|x: i8| (#[trigger] <i8 as Serialize>::wire(x)).len() == 1 by {
        lemma_be_bytes_len(unsigned_of(x as int, 1), 1);
    }
    assert forall|x: u16| (#[trigger] <u16 as Serialize>::wire(x)).len() == 2 by {
        lemma_be_bytes_len(x as nat, 2);
    }
    assert forall|x: i16| (#[trigger] <i16 as Serialize>::wire(x)).len() == 2 by {
        lemma_be_bytes_len(unsigned_of(x as int, 2), 2);
    }
    assert forall|x: u32| (#[trigger] <u32 as Serialize>::wire(x)).len() == 4 by {
        lemma_be_bytes_len(x as nat, 4);
    }
    assert forall|x: i32| (#[trigger] <i32 as Serialize>::wire(x)).len() == 4 by {
        lemma_be_bytes_len(unsigned_of(x as int, 4), 4);
    }
    assert forall|x: u64| (#[trigger] <u64 as Serialize>::wire(x)).len() == 8 by {
        lemma_be_bytes_len(x as nat, 8);
    }
    assert forall|x: i64| (#[trigger] <i64 as Serialize>::wire(x)).len() == 8 by {
        lemma_be_bytes_len(unsigned_of(x as int, 8), 8);
    }
    assert forall|x: u128| (#[trigger] <u128 as Serialize>::wire(x)).len() == 16 by {
        lemma_be_bytes_len(x as nat, 16);
    }
    assert forall|x: i128| (#[trigger] <i128 as Serialize>::wire(x)).len() == 16 by {
        lemma_be_bytes_len(unsigned_of(x as int, 16), 16);
    }
}

proof fn lemma_items_wire_len<T: Serialize>(ms: Seq<T::Model>)
    ensures
        items_wire::<T>(ms).len() == wire_len_sum::<T>(ms),
    decreases ms.len(),
{
    if ms.len() > 0 {
        lemma_items_wire_len::<T>(ms.drop_first());
    }
}

/// Sequence length: a sequence of items is encoded in 4 bytes of count plus
/// the sum of the lengths of the items' encodings.
pub proof fn law_sequence_length<T: Serialize>(ms: Seq<T::Model>)
    ensures
        seq_wire::<T>(ms).len() == 4 + wire_len_sum::<T>(ms),
{
    lemma_be_bytes_len(ms.len(), 4);
    lemma_items_wire_len::<T>(ms);
}

proof fn lemma_char_items_len(cs: Seq<char>)
    ensures
        wire_len_sum::<char>(cs) == cs.len(),
    decreases cs.len(),
{
    if cs.len() > 0 {
        lemma_char_items_len(cs.drop_first());
    }
}

/// Text length: text of `n` characters is encoded in `4 + n` bytes.
pub proof fn law_text_length(cs: Seq<char>)
    ensures
        <String as Serialize>::wire(cs).len() == 4 + cs.len(),
        <str as Serialize>::wire(cs).len() == 4 + cs.len(),
{
    law_sequence_length::<char>(cs);
    lemma_char_items_len(cs);
}

/// Record layout: a record of three fields is encoded as the concatenation
/// of its fields' encodings in declared order, and decoding those bytes,
/// whatever follows them, gives the three fields back and takes exactly
/// those bytes.
pub proof fn law_record_layout<A: DeSerialize, B: DeSerialize, C: DeSerialize>(
    a: A::Model,
    b: B::Model,
    c: C::Model,
    rest: Seq<u8>,
)
    requires
        A::fits(a),
        B::fits(b),
        C::fits(c),
    ensures
        <(A, B, C) as Serialize>::wire((a, b, c)) == A::wire(a) + B::wire(b) + C::wire(c),
        <(A, B, C) as DeSerialize>::parse(A::wire(a) + B::wire(b) + C::wire(c) + rest) == Ok::<
            ((A::Model, B::Model, C::Model), nat),
            Error,
        >(((a, b, c), A::wire(a).len() + B::wire(b).len() + C::wire(c).len())),
{
    <(A, B, C) as DeSerialize>::lemma_round_trip((a, b, c), rest);
}

} // verus!
