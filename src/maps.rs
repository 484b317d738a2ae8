use vstd::prelude::*;

use std::collections::{BTreeMap, BTreeSet, HashMap, HashSet};
use std::hash::Hash;
use vstd::laws_cmp::obeys_cmp;
use vstd::std_specs::btree::{increasing_seq, spec_btree_keys_iter, spec_btree_map_iter};
use vstd::std_specs::hash::{obeys_key_model, spec_hash_keys_iter, spec_hash_map_iter};
use vstd::std_specs::iter::IteratorSpec;

use crate::codec::{DeSerialize, Serialize};
use crate::error::Error;
use crate::reader::ByteReader;
use crate::sequences::{
    decode_items, items_wire, lemma_seq_round_trip, models, parse_seq, seq_fits, seq_wire,
};

verus! {

broadcast use vstd::std_specs::hash::group_hash_axioms, vstd::std_specs::btree::group_btree_axioms;

// A map goes on the wire as the sequence of its (key, value) pairs in its own
// iteration order, and a set as the sequence of its keys. The order of a
// hashed container is unspecified, so the contracts say that the bytes encode
// some listing of the entries, each once. A key type whose hashing or
// ordering disagrees with its equality breaks the collection itself, so these
// functions require the key type to be consistent (`obeys_key_model` for the
// hashed containers, `obeys_cmp` for the ordered ones).

/// `es` lists the entries of `m`: each key of `m` with its value, once, in
/// some order.
pub open spec fn lists_entries<K, V>(es: Seq<(K, V)>, m: Map<K, V>) -> bool {
    &&& es.len() == m.dom().len()
    &&& forall|i: int|
        0 <= i < es.len() ==> m.contains_key(#[trigger] es[i].0) && m[es[i].0] == es[i].1
    &&& forall|k: K| #[trigger] m.contains_key(k) ==> es.contains((k, m[k]))
    &&& forall|i: int, j: int| 0 <= i < j < es.len() ==> #[trigger] es[i].0 != #[trigger] es[j].0
}

/// A map is encodable when its size fits in 32 bits and each key and value
/// is encodable.
pub open spec fn map_fits<K: Serialize, V: Serialize>(m: Map<K, V>) -> bool {
    &&& m.dom().len() <= u32::MAX
    &&& forall|k: K| #[trigger] m.contains_key(k) ==> K::fits(k.model()) && V::fits(m[k].model())
}

/// The map that inserting the entries of `es` in order builds: a later
/// entry for a key replaces an earlier one.
pub open spec fn insert_all<K, V>(es: Seq<(K, V)>) -> Map<K, V>
    decreases es.len(),
{
    if es.len() == 0 {
        Map::empty()
    } else {
        insert_all(es.drop_last()).insert(es.last().0, es.last().1)
    }
}

proof fn lemma_ref_pairs_wire<K: Serialize, V: Serialize>(ms: Seq<(K::Model, V::Model)>)
    ensures
        items_wire::<(&K, &V)>(ms) == items_wire::<(K, V)>(ms),
    decreases ms.len(),
{
    if ms.len() > 0 {
        lemma_ref_pairs_wire::<K, V>(ms.drop_first());
    }
}

/// The entries that a listing of references points to.
pub open spec fn owned_entries<K, V>(listed: Seq<(&K, &V)>) -> Seq<(K, V)> {
    listed.map_values(|p: (&K, &V)| (*p.0, *p.1))
}

/// What vstd states of a map's iteration order makes it a listing of the
/// map's entries.
proof fn lemma_iteration_lists_entries<K, V>(listed: Seq<(&K, &V)>, m: Map<K, V>)
    requires
        listed.len() == m.dom().len(),
        forall|i: int|
            #![trigger m.contains_key(*listed[i].0)]
            0 <= i < listed.len() ==> m.contains_key(*listed[i].0) && m[*listed[i].0]
                == *listed[i].1,
        forall|k: K| #[trigger] m.contains_key(k) ==> listed.contains((&k, &m[k])),
        listed.no_duplicates(),
    ensures
        lists_entries(owned_entries(listed), m),
{
    let es = owned_entries(listed);
    assert forall|i: int| 0 <= i < es.len() implies m.contains_key(#[trigger] es[i].0) && m[es[i].0]
        == es[i].1 by {
        assert(m.contains_key(*listed[i].0));
    }
    assert forall|k: K| #[trigger] m.contains_key(k) implies es.contains((k, m[k])) by {
        let i = listed.index_of((&k, &m[k]));
        assert(es[i] == (k, m[k]));
    }
    assert forall|i: int, j: int| 0 <= i < j < es.len() implies #[trigger] es[i].0
        != #[trigger] es[j].0 by {
        if es[i].0 == es[j].0 {
            assert(m.contains_key(*listed[i].0));
            assert(m.contains_key(*listed[j].0));
            assert(listed[i] == listed[j]);
        }
    }
}

proof fn lemma_listing_fits<K: Serialize, V: Serialize>(es: Seq<(K, V)>, m: Map<K, V>)
    requires
        lists_entries(es, m),
    ensures
        seq_fits::<(K, V)>(models(es)) <==> map_fits::<K, V>(m),
{
    let ms = models(es);
    if seq_fits::<(K, V)>(ms) {
        assert forall|k: K| #[trigger] m.contains_key(k) implies K::fits(k.model()) && V::fits(
            m[k].model(),
        ) by {
            let i = es.index_of((k, m[k]));
            assert(<(K, V) as Serialize>::fits(ms[i]));
        }
    }
    if map_fits::<K, V>(m) {
        assert forall|i: int| 0 <= i < ms.len() implies <(K, V) as Serialize>::fits(
            #[trigger] ms[i],
        ) by {
            assert(m.contains_key(es[i].0));
        }
    }
}

/// Writes the number of entries of `m`, then each key and its value, in the
/// map's iteration order.
pub fn serialize_hash_map<K: Serialize, V: Serialize>(m: &HashMap<K, V>, w: &mut Vec<u8>) -> (r:
    Result<(), Error>)
    requires
        obeys_key_model::<K>(),
    ensures
        r is Ok <==> map_fits::<K, V>(m@),
        old(w)@.is_prefix_of(final(w)@),
        r is Ok ==> exists|es: Seq<(K, V)>|
            lists_entries(es, m@) && final(w)@ == old(w)@ + #[trigger] seq_wire::<(K, V)>(
                models(es),
            ),
        r is Err ==> r == Err::<(), Error>(Error::Unencodable),
{
    let ghost full = spec_hash_map_iter(m).remaining();
    let mut entries: Vec<(&K, &V)> = Vec::new();
    for kv in it: m.iter()
        invariant
            it.seq() == full,
            entries@ == full.take(it.index() as int),
    {
        entries.push(kv);
    }
    let ghost listed = entries@;
    assert(listed =~= full);
    let r = entries.serialize(w);
    proof {
        let es = owned_entries(listed);
        lemma_iteration_lists_entries(listed, m@);
        assert(models(listed) =~= models(es));
        lemma_ref_pairs_wire::<K, V>(models(es));
        lemma_listing_fits::<K, V>(es, m@);
        assert(seq_wire::<(&K, &V)>(models(listed)) == seq_wire::<(K, V)>(models(es)));
        if r is Ok {
            assert(final(w)@ == old(w)@ + seq_wire::<(K, V)>(models(es)));
        }
    }
    r
}


/// Reads a count, then that many (key, value) pairs, and inserts them in
/// stream order: a later pair for a key replaces an earlier one.
pub fn deserialize_hash_map<K: DeSerialize + Hash + Eq, V: DeSerialize>(r: &mut ByteReader) -> (res:
    Result<HashMap<K, V>, Error>)
    requires
        obeys_key_model::<K>(),
    ensures
        match parse_seq::<(K, V)>(old(r)@) {
            Ok((ms, n)) => {
                &&& res is Ok
                &&& n <= old(r)@.len()
                &&& final(r)@ == old(r)@.skip(n as int)
                &&& exists|es: Seq<(K, V)>|
                    models(es) == ms && #[trigger] insert_all(es) == res->Ok_0@
            },
            Err(e) => res == Err::<HashMap<K, V>, Error>(e),
        },
{
    let items: Vec<(K, V)> = match decode_items(r) {
        Ok(v) => v,
        Err(e) => {
            return Err(e);
        },
    };
    let ghost es = items@;
    let mut map: HashMap<K, V> = HashMap::new();
    assert(es.take(0) =~= Seq::<(K, V)>::empty());
    for kv in it: items.into_iter()
        invariant
            obeys_key_model::<K>(),
            it.seq() == es,
            map@ == insert_all(es.take(it.index() as int)),
    {
        let ghost i = it.index() as int;
        assert(kv == es[i]);
        let (k, v) = kv;
        map.insert(k, v);
        assert(es.take(i + 1).drop_last() =~= es.take(i));
        assert(es.take(i + 1).last() == es[i]);
    }
    assert(es.take(es.len() as int) =~= es);
    Ok(map)
}


/// `ks` lists the members of `s`, each once, in some order.
pub open spec fn lists_keys<K>(ks: Seq<K>, s: Set<K>) -> bool {
    &&& ks.len() == s.len()
    &&& ks.no_duplicates()
    &&& ks.to_set() == s
}

/// A set is encodable when its size fits in 32 bits and each member is
/// encodable.
pub open spec fn set_fits<K: Serialize>(s: Set<K>) -> bool {
    &&& s.len() <= u32::MAX
    &&& forall|k: K| #[trigger] s.contains(k) ==> K::fits(k.model())
}

/// The keys of a listing of entries, in the same order.
pub open spec fn keys_of<K, V>(es: Seq<(K, V)>) -> Seq<K> {
    es.map_values(|e: (K, V)| e.0)
}

proof fn lemma_ref_keys_wire<K: Serialize>(ms: Seq<K::Model>)
    ensures
        items_wire::<&K>(ms) == items_wire::<K>(ms),
    decreases ms.len(),
{
    if ms.len() > 0 {
        lemma_ref_keys_wire::<K>(ms.drop_first());
    }
}

proof fn lemma_keys_fit<K: Serialize>(ks: Seq<K>, s: Set<K>)
    requires
        lists_keys(ks, s),
    ensures
        seq_fits::<K>(models(ks)) <==> set_fits::<K>(s),
{
    let ms = models(ks);
    if seq_fits::<K>(ms) {
        assert forall|k: K| #[trigger] s.contains(k) implies K::fits(k.model()) by {
            assert(ks.to_set().contains(k));
            let i = ks.index_of(k);
            assert(K::fits(ms[i]));
        }
    }
    if set_fits::<K>(s) {
        assert forall|i: int| 0 <= i < ms.len() implies K::fits(#[trigger] ms[i]) by {
            assert(ks.to_set().contains(ks[i]));
        }
    }
}

/// Writes the number of members of `s`, then each member, in the set's
/// iteration order.
pub fn serialize_hash_set<K: Serialize>(s: &HashSet<K>, w: &mut Vec<u8>) -> (r: Result<(), Error>)
    requires
        obeys_key_model::<K>(),
    ensures
        r is Ok <==> set_fits::<K>(s@),
        old(w)@.is_prefix_of(final(w)@),
        r is Ok ==> exists|ks: Seq<K>|
            lists_keys(ks, s@) && final(w)@ == old(w)@ + #[trigger] seq_wire::<K>(models(ks)),
        r is Err ==> r == Err::<(), Error>(Error::Unencodable),
{
    let ghost full = spec_hash_keys_iter(s).remaining();
    let mut keys: Vec<&K> = Vec::new();
    for k in it: s.iter()
        invariant
            it.seq() == full,
            keys@ == full.take(it.index() as int),
    {
        keys.push(k);
    }
    let ghost listed = keys@;
    assert(listed =~= full);
    let r = keys.serialize(w);
    proof {
        let ks = listed.unref();
        assert(models(listed) =~= models(ks));
        lemma_ref_keys_wire::<K>(models(ks));
        lemma_keys_fit::<K>(ks, s@);
        assert(seq_wire::<&K>(models(listed)) == seq_wire::<K>(models(ks)));
        if r is Ok {
            assert(final(w)@ == old(w)@ + seq_wire::<K>(models(ks)));
        }
    }
    r
}

/// Reads a count, then that many members, and inserts them.
pub fn deserialize_hash_set<K: DeSerialize + Hash + Eq>(r: &mut ByteReader) -> (res: Result<
    HashSet<K>,
    Error,
>)
    requires
        obeys_key_model::<K>(),
    ensures
        match parse_seq::<K>(old(r)@) {
            Ok((ms, n)) => {
                &&& res is Ok
                &&& n <= old(r)@.len()
                &&& final(r)@ == old(r)@.skip(n as int)
                &&& exists|ks: Seq<K>| models(ks) == ms && #[trigger] ks.to_set() == res->Ok_0@
            },
            Err(e) => res == Err::<HashSet<K>, Error>(e),
        },
{
    let items: Vec<K> = match decode_items(r) {
        Ok(v) => v,
        Err(e) => {
            return Err(e);
        },
    };
    let ghost ks = items@;
    let mut set: HashSet<K> = HashSet::new();
    assert(ks.take(0).to_set() =~= Set::<K>::empty());
    for k in it: items.into_iter()
        invariant
            obeys_key_model::<K>(),
            it.seq() == ks,
            set@ == ks.take(it.index() as int).to_set(),
    {
        let ghost i = it.index() as int;
        assert(k == ks[i]);
        set.insert(k);
        assert(ks.take(i + 1) =~= ks.take(i).push(ks[i]));
        proof {
            ks.take(i).lemma_push_to_set_commute(ks[i]);
        }
    }
    assert(ks.take(ks.len() as int) =~= ks);
    Ok(set)
}

/// Writes the number of entries of `m`, then each key and its value, in
/// increasing key order.
pub fn serialize_btree_map<K: Serialize + Ord, V: Serialize>(m: &BTreeMap<K, V>, w: &mut Vec<u8>) -> (r:
    Result<(), Error>)
    requires
        obeys_cmp::<K>(),
    ensures
        r is Ok <==> map_fits::<K, V>(m@),
        old(w)@.is_prefix_of(final(w)@),
        r is Ok ==> exists|es: Seq<(K, V)>|
            {
                &&& lists_entries(es, m@)
                &&& increasing_seq(keys_of(es))
                &&& final(w)@ == old(w)@ + #[trigger] seq_wire::<(K, V)>(models(es))
            },
        r is Err ==> r == Err::<(), Error>(Error::Unencodable),
{
    let ghost full = spec_btree_map_iter(m).remaining();
    let mut entries: Vec<(&K, &V)> = Vec::new();
    for kv in it: m.iter()
        invariant
            it.seq() == full,
            entries@ == full.take(it.index() as int),
    {
        entries.push(kv);
    }
    let ghost listed = entries@;
    assert(listed =~= full);
    let r = entries.serialize(w);
    proof {
        let es = owned_entries(listed);
        lemma_iteration_lists_entries(listed, m@);
        assert(keys_of(es) =~= listed.map_values(|kv: (&K, &V)| *kv.0));
        assert(models(listed) =~= models(es));
        lemma_ref_pairs_wire::<K, V>(models(es));
        lemma_listing_fits::<K, V>(es, m@);
        assert(seq_wire::<(&K, &V)>(models(listed)) == seq_wire::<(K, V)>(models(es)));
        if r is Ok {
            assert(final(w)@ == old(w)@ + seq_wire::<(K, V)>(models(es)));
        }
    }
    r
}

/// Reads a count, then that many (key, value) pairs, and inserts them in
/// stream order: a later pair for a key replaces an earlier one.
pub fn deserialize_btree_map<K: DeSerialize + Ord, V: DeSerialize>(r: &mut ByteReader) -> (res:
    Result<BTreeMap<K, V>, Error>)
    requires
        obeys_cmp::<K>(),
    ensures
        match parse_seq::<(K, V)>(old(r)@) {
            Ok((ms, n)) => {
                &&& res is Ok
                &&& n <= old(r)@.len()
                &&& final(r)@ == old(r)@.skip(n as int)
                &&& exists|es: Seq<(K, V)>|
                    models(es) == ms && #[trigger] insert_all(es) == res->Ok_0@
            },
            Err(e) => res == Err::<BTreeMap<K, V>, Error>(e),
        },
{
    let items: Vec<(K, V)> = match decode_items(r) {
        Ok(v) => v,
        Err(e) => {
            return Err(e);
        },
    };
    let ghost es = items@;
    let mut map: BTreeMap<K, V> = BTreeMap::new();
    assert(es.take(0) =~= Seq::<(K, V)>::empty());
    for kv in it: items.into_iter()
        invariant
            obeys_cmp::<K>(),
            it.seq() == es,
            map@ == insert_all(es.take(it.index() as int)),
    {
        let ghost i = it.index() as int;
        assert(kv == es[i]);
        let (k, v) = kv;
        map.insert(k, v);
        assert(es.take(i + 1).drop_last() =~= es.take(i));
        assert(es.take(i + 1).last() == es[i]);
    }
    assert(es.take(es.len() as int) =~= es);
    Ok(map)
}

/// Writes the number of members of `s`, then each member, in the set's
/// iteration order (increasing).
pub fn serialize_btree_set<K: Serialize + Ord>(s: &BTreeSet<K>, w: &mut Vec<u8>) -> (r: Result<
    (),
    Error,
>)
    requires
        obeys_cmp::<K>(),
    ensures
        r is Ok <==> set_fits::<K>(s@),
        old(w)@.is_prefix_of(final(w)@),
        r is Ok ==> exists|ks: Seq<K>|
            lists_keys(ks, s@) && final(w)@ == old(w)@ + #[trigger] seq_wire::<K>(models(ks)),
        r is Err ==> r == Err::<(), Error>(Error::Unencodable),
{
    let ghost full = spec_btree_keys_iter(s).remaining();
    let mut keys: Vec<&K> = Vec::new();
    for k in it: s.iter()
        invariant
            it.seq() == full,
            keys@ == full.take(it.index() as int),
    {
        keys.push(k);
    }
    let ghost listed = keys@;
    assert(listed =~= full);
    let r = keys.serialize(w);
    proof {
        let ks = listed.unref();
        assert(models(listed) =~= models(ks));
        lemma_ref_keys_wire::<K>(models(ks));
        lemma_keys_fit::<K>(ks, s@);
        assert(seq_wire::<&K>(models(listed)) == seq_wire::<K>(models(ks)));
        if r is Ok {
            assert(final(w)@ == old(w)@ + seq_wire::<K>(models(ks)));
        }
    }
    r
}

/// Reads a count, then that many members, and inserts them.
pub fn deserialize_btree_set<K: DeSerialize + Ord>(r: &mut ByteReader) -> (res: Result<
    BTreeSet<K>,
    Error,
>)
    requires
        obeys_cmp::<K>(),
    ensures
        match parse_seq::<K>(old(r)@) {
            Ok((ms, n)) => {
                &&& res is Ok
                &&& n <= old(r)@.len()
                &&& final(r)@ == old(r)@.skip(n as int)
                &&& exists|ks: Seq<K>| models(ks) == ms && #[trigger] ks.to_set() == res->Ok_0@
            },
            Err(e) => res == Err::<BTreeSet<K>, Error>(e),
        },
{
    let items: Vec<K> = match decode_items(r) {
        Ok(v) => v,
        Err(e) => {
            return Err(e);
        },
    };
    let ghost ks = items@;
    let mut set: BTreeSet<K> = BTreeSet::new();
    assert(ks.take(0).to_set() =~= Set::<K>::empty());
    for k in it: items.into_iter()
        invariant
            obeys_cmp::<K>(),
            it.seq() == ks,
            set@ == ks.take(it.index() as int).to_set(),
    {
        let ghost i = it.index() as int;
        assert(k == ks[i]);
        set.insert(k);
        assert(ks.take(i + 1) =~= ks.take(i).push(ks[i]));
        proof {
            ks.take(i).lemma_push_to_set_commute(ks[i]);
        }
    }
    assert(ks.take(ks.len() as int) =~= ks);
    Ok(set)
}


proof fn lemma_insert_all_distinct<K, V>(es: Seq<(K, V)>)
    requires
        forall|i: int, j: int| 0 <= i < j < es.len() ==> #[trigger] es[i].0 != #[trigger] es[j].0,
    ensures
        forall|i: int|
            0 <= i < es.len() ==> #[trigger] insert_all(es).contains_key(es[i].0) && insert_all(
                es,
            )[es[i].0] == es[i].1,
        forall|k: K| #[trigger]
            insert_all(es).contains_key(k) ==> exists|i: int| 0 <= i < es.len() && es[i].0 == k,
    decreases es.len(),
{
    if es.len() > 0 {
        let front = es.drop_last();
        assert forall|i: int, j: int| 0 <= i < j < front.len() implies #[trigger] front[i].0
            != #[trigger] front[j].0 by {
            assert(front[i] == es[i] && front[j] == es[j]);
        }
        lemma_insert_all_distinct(front);
        let last = es.len() - 1;
        assert(insert_all(es) == insert_all(front).insert(es[last].0, es[last].1));
        assert forall|i: int| 0 <= i < es.len() implies #[trigger] insert_all(es).contains_key(
            es[i].0,
        ) && insert_all(es)[es[i].0] == es[i].1 by {
            if i < last {
                assert(front[i] == es[i]);
                assert(es[i].0 != es[last].0);
                assert(insert_all(front).contains_key(front[i].0));
            }
        }
        assert forall|k: K| #[trigger] insert_all(es).contains_key(k) implies exists|i: int|
            0 <= i < es.len() && es[i].0 == k by {
            if k != es[last].0 {
                assert(insert_all(front).contains_key(k));
                let i = choose|i: int| 0 <= i < front.len() && front[i].0 == k;
                assert(es[i] == front[i]);
            } else {
                assert(es[last].0 == k);
            }
        }
    }
}

/// Inserting a listing of the entries of `m` into an empty map gives `m`.
proof fn lemma_listing_rebuilds<K, V>(es: Seq<(K, V)>, m: Map<K, V>)
    requires
        lists_entries(es, m),
    ensures
        insert_all(es) == m,
{
    lemma_insert_all_distinct(es);
    let built = insert_all(es);
    assert forall|k: K| #[trigger] m.contains_key(k) implies built.contains_key(k) && built[k]
        == m[k] by {
        let i = es.index_of((k, m[k]));
        assert(es[i].0 == k);
    }
    assert(built =~= m);
}

/// Map round trip: the bytes written for an encodable map, whatever follows
/// them, decode to the (key, value) models of the listing that was written,
/// and inserting entries with those models in order gives the map back,
/// where keys and values are determined by their models (as integers,
/// booleans and characters are).
pub proof fn law_map_round_trip<K: DeSerialize, V: DeSerialize>(
    m: Map<K, V>,
    es: Seq<(K, V)>,
    decoded: Seq<(K, V)>,
    rest: Seq<u8>,
)
    requires
        map_fits::<K, V>(m),
        lists_entries(es, m),
        models(decoded) == models(es),
        forall|a: K, b: K| a.model() == b.model() ==> a == b,
        forall|a: V, b: V| a.model() == b.model() ==> a == b,
    ensures
        parse_seq::<(K, V)>(seq_wire::<(K, V)>(models(es)) + rest) == Ok::<
            (Seq<(K::Model, V::Model)>, nat),
            Error,
        >((models(es), seq_wire::<(K, V)>(models(es)).len())),
        insert_all(decoded) == m,
{
    lemma_listing_fits::<K, V>(es, m);
    lemma_seq_round_trip::<(K, V)>(models(es), rest);
    assert(decoded.len() == es.len());
    assert forall|i: int| 0 <= i < es.len() implies decoded[i] == es[i] by {
        assert(models(decoded)[i] == models(es)[i]);
    }
    assert(decoded =~= es);
    lemma_listing_rebuilds(es, m);
}

/// Set round trip: the bytes written for an encodable set, whatever follows
/// them, decode to the models of the listing that was written, and the
/// members with those models make up the set again, where members are
/// determined by their models (as integers, booleans and characters are).
pub proof fn law_set_round_trip<K: DeSerialize>(
    s: Set<K>,
    ks: Seq<K>,
    decoded: Seq<K>,
    rest: Seq<u8>,
)
    requires
        set_fits::<K>(s),
        lists_keys(ks, s),
        models(decoded) == models(ks),
        forall|a: K, b: K| a.model() == b.model() ==> a == b,
    ensures
        parse_seq::<K>(seq_wire::<K>(models(ks)) + rest) == Ok::<(Seq<K::Model>, nat), Error>(
            (models(ks), seq_wire::<K>(models(ks)).len()),
        ),
        decoded.to_set() == s,
{
    lemma_keys_fit::<K>(ks, s);
    lemma_seq_round_trip::<K>(models(ks), rest);
    assert(decoded.len() == ks.len());
    assert forall|i: int| 0 <= i < ks.len() implies decoded[i] == ks[i] by {
        assert(i < decoded.len());
        assert(models(decoded)[i] == decoded[i].model());
        assert(models(ks)[i] == ks[i].model());
        assert(models(decoded)[i] == models(ks)[i]);
    }
    assert(decoded =~= ks);
}

} // verus!
