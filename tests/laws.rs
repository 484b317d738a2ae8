use bincodec::{ByteReader, DeSerialize, Error, Serialize};

fn encode<T: Serialize + ?Sized>(v: &T) -> Vec<u8> {
    let mut buf: Vec<u8> = Vec::new();
    assert_eq!(v.serialize(&mut buf), Ok(()));
    buf
}

#[test]
fn scalars_round_trip_with_trailing_bytes() {
    let mut buf = encode(&-0x0102030405060708i64);
    buf.extend_from_slice(&encode(&u128::MAX));
    buf.extend_from_slice(&encode(&i8::MIN));
    buf.push(0xAA);
    let mut r = ByteReader::new(buf);
    assert_eq!(i64::decode(&mut r), Ok(-0x0102030405060708i64));
    assert_eq!(u128::decode(&mut r), Ok(u128::MAX));
    assert_eq!(i8::decode(&mut r), Ok(i8::MIN));
    assert_eq!(r.remaining(), 1);
}

#[test]
fn signed_extremes_round_trip() {
    for v in [i16::MIN, -1, 0, 1, i16::MAX] {
        let mut r = ByteReader::new(encode(&v));
        assert_eq!(i16::decode(&mut r), Ok(v));
    }
    for v in [i128::MIN, -1, 0, i128::MAX] {
        let mut r = ByteReader::new(encode(&v));
        assert_eq!(i128::decode(&mut r), Ok(v));
    }
}

#[test]
fn scalar_widths_are_fixed() {
    assert_eq!(encode(&false).len(), 1);
    assert_eq!(encode(&'z').len(), 1);
    assert_eq!(encode(&0u8).len(), 1);
    assert_eq!(encode(&-1i8).len(), 1);
    assert_eq!(encode(&0u16).len(), 2);
    assert_eq!(encode(&i16::MIN).len(), 2);
    assert_eq!(encode(&u32::MAX).len(), 4);
    assert_eq!(encode(&0i32).len(), 4);
    assert_eq!(encode(&1u64).len(), 8);
    assert_eq!(encode(&i64::MIN).len(), 8);
    assert_eq!(encode(&0u128).len(), 16);
    assert_eq!(encode(&-1i128).len(), 16);
}

#[test]
fn negative_i32_is_big_endian_twos_complement() {
    assert_eq!(encode(&-0x01020304i32), vec![0xFE, 0xFD, 0xFC, 0xFC]);
    let mut r = ByteReader::new(vec![0xFE, 0xFD, 0xFC, 0xFC]);
    assert_eq!(i32::decode(&mut r), Ok(-0x01020304i32));
}

#[test]
fn bool_bytes_are_validated() {
    let mut r = ByteReader::new(vec![0x02]);
    let mut val = true;
    assert_eq!(val.deserialize(&mut r), Err(Error::InvalidEncoding));
    let mut r = ByteReader::new(vec![0x00, 0x01]);
    assert_eq!(bool::decode(&mut r), Ok(false));
    assert_eq!(bool::decode(&mut r), Ok(true));
    assert_eq!(encode(&false), vec![0x00]);
}

#[test]
fn option_encodings() {
    assert_eq!(
        encode(&Some(String::from("abcd"))),
        vec![0x01, 0, 0, 0, 4, b'a', b'b', b'c', b'd']
    );
    assert_eq!(encode(&None::<String>), vec![0x00]);
}

#[test]
fn short_scalar_is_eof() {
    let mut r = ByteReader::new(vec![1, 2, 3]);
    assert_eq!(u32::decode(&mut r), Err(Error::UnexpectedEof));
    let mut r = ByteReader::new(vec![]);
    assert_eq!(bool::decode(&mut r), Err(Error::UnexpectedEof));
    assert_eq!(char::decode(&mut r), Err(Error::UnexpectedEof));
}

#[test]
fn container_length_is_prefix_plus_items() {
    let v: Vec<u32> = vec![1, 2, 3];
    assert_eq!(encode(&v).len(), 4 + 3 * 4);
    let e: Vec<u64> = Vec::new();
    assert_eq!(encode(&e), vec![0, 0, 0, 0]);
    assert_eq!(encode("hello").len(), 4 + 5);
}

#[test]
fn error_messages() {
    assert_eq!(
        Error::InvalidEncoding.message(),
        "deserialize bool error: invalid bool value"
    );
    assert_eq!(Error::UnexpectedEof.message(), "unexpected end of input");
}
