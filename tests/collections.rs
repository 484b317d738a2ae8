use bincodec::{
    deserialize_btree_map, deserialize_btree_set, deserialize_hash_map, deserialize_hash_set,
    serialize_btree_map, serialize_btree_set, serialize_hash_map, serialize_hash_set, ByteReader,
    DeSerialize, Error, Serialize,
};
use std::collections::{BTreeMap, BTreeSet, BinaryHeap, HashMap, HashSet, LinkedList, VecDeque};

#[test]
fn test_serialize_slice() {
    let l = ['a', 'b', 'c', 'd'];
    let mut buf: Vec<u8> = Vec::new();
    assert_eq!(buf.len(), 0);
    let _ = l.serialize(&mut buf);
    assert_eq!(buf.len(), 8);
    assert_eq!(*(buf.get(4).unwrap()) as char, 'a');
    assert_eq!(*(buf.get(5).unwrap()) as char, 'b');
    assert_eq!(*(buf.get(6).unwrap()) as char, 'c');
    assert_eq!(*(buf.get(7).unwrap()) as char, 'd');
}

#[test]
fn test_serialize_deserialize_option() {
    // serialize/deserialize Some
    let o: Option<String> = Some(String::from("abcd"));
    let mut buf: Vec<u8> = Vec::new();
    assert_eq!(buf.len(), 0);
    let _ = o.serialize(&mut buf);
    assert_eq!(buf.len(), 9);
    assert_eq!(*(buf.get(0).unwrap()) as u8, 1);
    assert_eq!(*(buf.get(5).unwrap()) as char, 'a');
    assert_eq!(*(buf.get(6).unwrap()) as char, 'b');
    assert_eq!(*(buf.get(7).unwrap()) as char, 'c');
    assert_eq!(*(buf.get(8).unwrap()) as char, 'd');

    let mut buf = ByteReader::new(buf);
    let mut val: Option<String> = Some(String::new());
    let _ = val.deserialize(&mut buf);
    assert_eq!(val, Some(String::from("abcd")));

    // serialize/deserialize None
    let o: Option<String> = None;
    let mut buf: Vec<u8> = Vec::new();
    assert_eq!(buf.len(), 0);
    let _ = o.serialize(&mut buf);
    assert_eq!(buf.len(), 1);
    assert_eq!(*(buf.get(0).unwrap()) as u8, 0);

    let mut buf = ByteReader::new(buf);
    let mut val: Option<String> = Some(String::new());
    let _ = val.deserialize(&mut buf);
    assert_eq!(val, None);

    // an absent destination takes a present value: it is decoded afresh
    let o: Option<String> = Some(String::from("abcd"));
    let mut buf: Vec<u8> = Vec::new();
    let _ = o.serialize(&mut buf);

    let mut buf = ByteReader::new(buf);
    let mut val: Option<String> = None;
    let r = val.deserialize(&mut buf);
    match r {
        Err(e) => {
            panic!("{}", e.message());
        }
        _ => {}
    }
    assert_eq!(val, Some(String::from("abcd")));
}

#[test]
fn option_presence_byte_must_be_zero_or_one() {
    let mut r = ByteReader::new(vec![2, 0, 0, 0, 0]);
    let mut val: Option<String> = None;
    assert_eq!(val.deserialize(&mut r), Err(Error::InvalidEncoding));
}

#[test]
fn test_serialize_deserialize_vector() {
    let mut buf: Vec<u8> = Vec::new();
    assert_eq!(buf.len(), 0);
    let _ = vec!['a', 'b', 'c', 'd'].serialize(&mut buf);
    assert_eq!(buf.len(), 8);
    assert_eq!(*(buf.get(4).unwrap()) as char, 'a');
    assert_eq!(*(buf.get(5).unwrap()) as char, 'b');
    assert_eq!(*(buf.get(6).unwrap()) as char, 'c');
    assert_eq!(*(buf.get(7).unwrap()) as char, 'd');

    let mut buf = ByteReader::new(buf);
    let mut val: Vec<char> = Vec::new();
    let _ = val.deserialize(&mut buf);
    assert_eq!(val.len(), 4);
    assert_eq!(val[0], 'a');
    assert_eq!(val[1], 'b');
    assert_eq!(val[2], 'c');
    assert_eq!(val[3], 'd');
}

#[test]
fn vector_count_prefix_is_big_endian() {
    let mut buf: Vec<u8> = Vec::new();
    assert_eq!(vec!['a', 'b', 'c', 'd'].serialize(&mut buf), Ok(()));
    assert_eq!(buf, vec![0x00, 0x00, 0x00, 0x04, b'a', b'b', b'c', b'd']);
}

#[test]
fn nested_vectors_round_trip() {
    let v: Vec<Vec<u16>> = vec![vec![1, 0x0203], vec![], vec![0xFFFF]];
    let mut buf: Vec<u8> = Vec::new();
    assert_eq!(v.serialize(&mut buf), Ok(()));
    assert_eq!(buf.len(), 4 + (4 + 4) + 4 + (4 + 2));
    let mut r = ByteReader::new(buf);
    assert_eq!(Vec::<Vec<u16>>::decode(&mut r), Ok(v));
}

#[test]
fn vector_with_missing_items_is_eof() {
    let mut r = ByteReader::new(vec![0, 0, 0, 3, 1, 2]);
    let mut val: Vec<u8> = Vec::new();
    assert_eq!(val.deserialize(&mut r), Err(Error::UnexpectedEof));
}

#[test]
fn vector_of_options_round_trips() {
    let v: Vec<Option<bool>> = vec![Some(true), None, Some(false)];
    let mut buf: Vec<u8> = Vec::new();
    assert_eq!(v.serialize(&mut buf), Ok(()));
    assert_eq!(buf, vec![0, 0, 0, 3, 1, 1, 0, 1, 0]);
    let mut r = ByteReader::new(buf);
    let mut val: Vec<Option<bool>> = Vec::new();
    assert_eq!(val.deserialize(&mut r), Ok(()));
    assert_eq!(val, v);
}

#[test]
fn test_serialize_deserialize_vector_deque() {
    let mut buf: Vec<u8> = Vec::new();
    assert_eq!(buf.len(), 0);
    let mut vec_deque: VecDeque<char> = VecDeque::new();
    vec_deque.push_back('a');
    vec_deque.push_back('b');
    vec_deque.push_back('c');
    vec_deque.push_back('d');
    let _ = vec_deque.serialize(&mut buf);
    assert_eq!(buf.len(), 8);
    assert_eq!(*(buf.get(4).unwrap()) as char, 'a');
    assert_eq!(*(buf.get(5).unwrap()) as char, 'b');
    assert_eq!(*(buf.get(6).unwrap()) as char, 'c');
    assert_eq!(*(buf.get(7).unwrap()) as char, 'd');

    let mut buf = ByteReader::new(buf);
    let mut val: VecDeque<char> = VecDeque::new();
    let _ = val.deserialize(&mut buf);
    assert_eq!(val.len(), 4);
    assert_eq!(val[0], 'a');
    assert_eq!(val[1], 'b');
    assert_eq!(val[2], 'c');
    assert_eq!(val[3], 'd');
}

// A linked list or a heap goes on the wire as the sequence of its items in
// iteration order, and is rebuilt from the decoded sequence.

#[test]
fn test_serialize_deserialize_linked_list() {
    let mut buf: Vec<u8> = Vec::new();
    assert_eq!(buf.len(), 0);
    let mut linked_list: LinkedList<char> = LinkedList::new();
    linked_list.push_back('a');
    linked_list.push_back('b');
    linked_list.push_back('c');
    linked_list.push_back('d');
    let items: Vec<&char> = linked_list.iter().collect();
    let _ = items.serialize(&mut buf);
    assert_eq!(buf.len(), 8);
    assert_eq!(*(buf.get(4).unwrap()) as char, 'a');
    assert_eq!(*(buf.get(5).unwrap()) as char, 'b');
    assert_eq!(*(buf.get(6).unwrap()) as char, 'c');
    assert_eq!(*(buf.get(7).unwrap()) as char, 'd');

    let mut buf = ByteReader::new(buf);
    let mut items: Vec<char> = Vec::new();
    let _ = items.deserialize(&mut buf);
    let mut val: LinkedList<char> = items.into_iter().collect();
    assert_eq!(val.len(), 4);
    assert_eq!(val.pop_front().unwrap(), 'a');
    assert_eq!(val.pop_front().unwrap(), 'b');
    assert_eq!(val.pop_front().unwrap(), 'c');
    assert_eq!(val.pop_front().unwrap(), 'd');
}

#[test]
fn test_serialize_deserialize_hash_map() {
    let mut buf: Vec<u8> = Vec::new();
    assert_eq!(buf.len(), 0);
    let mut hash_map: HashMap<char, i8> = HashMap::new();
    hash_map.insert('a', 0i8);
    hash_map.insert('b', 1i8);
    hash_map.insert('c', 2i8);
    hash_map.insert('d', 3i8);
    let _ = serialize_hash_map(&hash_map, &mut buf);
    assert_eq!(buf.len(), 12);

    let mut buf = ByteReader::new(buf);
    let val: HashMap<char, i8> = deserialize_hash_map(&mut buf).unwrap();
    assert_eq!(val.len(), 4);
    assert_eq!(*val.get(&'a').unwrap(), 0i8);
    assert_eq!(*val.get(&'b').unwrap(), 1i8);
    assert_eq!(*val.get(&'c').unwrap(), 2i8);
    assert_eq!(*val.get(&'d').unwrap(), 3i8);
}

#[test]
fn test_serialize_deserialize_btree_map() {
    let mut buf: Vec<u8> = Vec::new();
    assert_eq!(buf.len(), 0);
    let mut btree_map: BTreeMap<char, i8> = BTreeMap::new();
    btree_map.insert('a', 0i8);
    btree_map.insert('b', 1i8);
    btree_map.insert('c', 2i8);
    btree_map.insert('d', 3i8);
    let _ = serialize_btree_map(&btree_map, &mut buf);
    assert_eq!(buf.len(), 12);

    let mut buf = ByteReader::new(buf);
    let val: BTreeMap<char, i8> = deserialize_btree_map(&mut buf).unwrap();
    assert_eq!(val.len(), 4);
    assert_eq!(*val.get(&'a').unwrap(), 0i8);
    assert_eq!(*val.get(&'b').unwrap(), 1i8);
    assert_eq!(*val.get(&'c').unwrap(), 2i8);
    assert_eq!(*val.get(&'d').unwrap(), 3i8);
}

#[test]
fn test_serialize_deserialize_hash_set() {
    let mut buf: Vec<u8> = Vec::new();
    assert_eq!(buf.len(), 0);
    let mut hash_set: HashSet<char> = HashSet::new();
    hash_set.insert('a');
    hash_set.insert('b');
    hash_set.insert('c');
    hash_set.insert('d');
    let _ = serialize_hash_set(&hash_set, &mut buf);
    assert_eq!(buf.len(), 8);

    let mut buf = ByteReader::new(buf);
    let val: HashSet<char> = deserialize_hash_set(&mut buf).unwrap();
    assert_eq!(val.len(), 4);
    assert_eq!(*val.get(&'a').unwrap(), 'a');
    assert_eq!(*val.get(&'b').unwrap(), 'b');
    assert_eq!(*val.get(&'c').unwrap(), 'c');
    assert_eq!(*val.get(&'d').unwrap(), 'd');
}

#[test]
fn test_serialize_deserialize_btree_set() {
    let mut buf: Vec<u8> = Vec::new();
    assert_eq!(buf.len(), 0);
    let mut btree_set: BTreeSet<char> = BTreeSet::new();
    btree_set.insert('a');
    btree_set.insert('b');
    btree_set.insert('c');
    btree_set.insert('d');
    let _ = serialize_btree_set(&btree_set, &mut buf);
    assert_eq!(buf.len(), 8);

    let mut buf = ByteReader::new(buf);
    let val: BTreeSet<char> = deserialize_btree_set(&mut buf).unwrap();
    assert_eq!(val.len(), 4);
    assert_eq!(*val.get(&'a').unwrap(), 'a');
    assert_eq!(*val.get(&'b').unwrap(), 'b');
    assert_eq!(*val.get(&'c').unwrap(), 'c');
    assert_eq!(*val.get(&'d').unwrap(), 'd');
}

#[test]
fn test_serialize_deserialize_binary_heap() {
    let mut buf: Vec<u8> = Vec::new();
    assert_eq!(buf.len(), 0);
    let mut binary_heap: BinaryHeap<char> = BinaryHeap::new();
    binary_heap.push('c');
    binary_heap.push('a');
    binary_heap.push('d');
    binary_heap.push('b');
    let items: Vec<&char> = binary_heap.iter().collect();
    let _ = items.serialize(&mut buf);
    assert_eq!(buf.len(), 8);

    let mut buf = ByteReader::new(buf);
    let mut items: Vec<char> = Vec::new();
    let _ = items.deserialize(&mut buf);
    let mut val: BinaryHeap<char> = items.into_iter().collect();
    assert_eq!(val.len(), 4);
    assert_eq!(val.pop().unwrap(), 'd');
    assert_eq!(val.pop().unwrap(), 'c');
    assert_eq!(val.pop().unwrap(), 'b');
    assert_eq!(val.pop().unwrap(), 'a');
}

#[test]
fn btree_map_writes_entries_in_key_order() {
    let mut m: BTreeMap<u8, bool> = BTreeMap::new();
    m.insert(3, true);
    m.insert(1, false);
    let mut buf: Vec<u8> = Vec::new();
    assert_eq!(serialize_btree_map(&m, &mut buf), Ok(()));
    assert_eq!(buf, vec![0, 0, 0, 2, 1, 0, 3, 1]);
}

#[test]
fn btree_set_writes_members_in_order() {
    let s: BTreeSet<i16> = [5, -1, 2].into_iter().collect();
    let mut buf: Vec<u8> = Vec::new();
    assert_eq!(serialize_btree_set(&s, &mut buf), Ok(()));
    assert_eq!(buf, vec![0, 0, 0, 3, 0xFF, 0xFF, 0, 2, 0, 5]);
}

#[test]
fn later_duplicate_key_wins_on_decode() {
    let mut r = ByteReader::new(vec![0, 0, 0, 2, b'k', 1, b'k', 2]);
    let m: HashMap<char, u8> = deserialize_hash_map(&mut r).unwrap();
    assert_eq!(m.len(), 1);
    assert_eq!(m[&'k'], 2);
    let mut r = ByteReader::new(vec![0, 0, 0, 2, b'k', 1, b'k', 2]);
    let m: BTreeMap<char, u8> = deserialize_btree_map(&mut r).unwrap();
    assert_eq!(m[&'k'], 2);
}

#[test]
fn duplicate_members_collapse_on_decode() {
    let mut r = ByteReader::new(vec![0, 0, 0, 3, 7, 7, 9]);
    let s: HashSet<u8> = deserialize_hash_set(&mut r).unwrap();
    assert_eq!(s.len(), 2);
    let mut r = ByteReader::new(vec![0, 0, 0, 3, 7, 7, 9]);
    let s: BTreeSet<u8> = deserialize_btree_set(&mut r).unwrap();
    assert_eq!(s.into_iter().collect::<Vec<u8>>(), vec![7, 9]);
}

#[test]
fn map_with_wide_char_key_is_unencodable() {
    let mut m: HashMap<char, u8> = HashMap::new();
    m.insert('€', 1);
    let mut buf: Vec<u8> = Vec::new();
    assert_eq!(serialize_hash_map(&m, &mut buf), Err(Error::Unencodable));
}

#[test]
fn truncated_map_is_eof() {
    let mut r = ByteReader::new(vec![0, 0, 0, 2, b'a', 1, b'b']);
    let res: Result<HashMap<char, u8>, Error> = deserialize_hash_map(&mut r);
    assert_eq!(res, Err(Error::UnexpectedEof));
}
