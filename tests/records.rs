use bincodec::{ByteReader, DeSerialize, Serialize};

// The record's fields, in declared order: (a: i32, b: String, c: Option<f32>),
// with the float carried as its IEEE-754 bit pattern.
type XxxxFields = (i32, String, Option<u32>);

#[derive(Debug)]
struct Xxxx {
    a: i32,
    b: String,
    c: Option<f32>,
}

impl Xxxx {
    fn new() -> Xxxx {
        Xxxx {
            a: 0i32,
            b: String::new(),
            c: Some(0.0f32),
        }
    }

    fn fields(&self) -> XxxxFields {
        (self.a, self.b.clone(), self.c.map(f32::to_bits))
    }

    fn from_fields(f: XxxxFields) -> Xxxx {
        Xxxx {
            a: f.0,
            b: f.1,
            c: f.2.map(f32::from_bits),
        }
    }
}

#[test]
fn test_serialize_deserialize_struct() {
    let mut x = Xxxx::new();
    x.a = 100;
    x.b = String::from("hello world");
    x.c = Some(0.123456f32);
    let mut buf: Vec<u8> = Vec::new();
    let _ = (x.a, x.b.clone(), x.c.map(f32::to_bits)).serialize(&mut buf);

    let mut buf = ByteReader::new(buf);
    let mut fields: XxxxFields = Xxxx::new().fields();
    let _ = fields.deserialize(&mut buf);
    let val = Xxxx::from_fields(fields);
    assert_eq!(val.a, 100);
    assert_eq!(val.b, String::from("hello world"));
    assert_eq!(val.c, Some(0.123456f32));
}

#[test]
fn test_serialize_deserialize_struct_with_macro() {
    let mut x = Xxxx::new();
    x.a = 100;
    x.b = String::from("hello world");
    x.c = Some(0.123456f32);
    let mut buf: Vec<u8> = Vec::new();
    let _ = x.fields().serialize(&mut buf);

    let mut buf = ByteReader::new(buf);
    let mut val: Xxxx = Xxxx::new();
    let mut fields = val.fields();
    let _ = fields.deserialize(&mut buf);
    val = Xxxx::from_fields(fields);
    assert_eq!(val.a, 100);
    assert_eq!(val.b, String::from("hello world"));
    assert_eq!(val.c, Some(0.123456f32));
}

#[test]
fn record_is_concatenation_of_fields_in_order() {
    let x = (100i32, String::from("hi"), Some(0.5f32.to_bits()));
    let mut whole: Vec<u8> = Vec::new();
    assert_eq!(x.serialize(&mut whole), Ok(()));

    let mut parts: Vec<u8> = Vec::new();
    assert_eq!(x.0.serialize(&mut parts), Ok(()));
    assert_eq!(x.1.serialize(&mut parts), Ok(()));
    assert_eq!(x.2.serialize(&mut parts), Ok(()));
    assert_eq!(whole, parts);
    assert_eq!(whole.len(), 4 + (4 + 2) + (1 + 4));

    let mut r = ByteReader::new(whole);
    assert_eq!(<(i32, String, Option<u32>)>::decode(&mut r), Ok(x));
    assert_eq!(r.remaining(), 0);
}

#[test]
fn pair_round_trips() {
    let x = (String::from("key"), -7i64);
    let mut buf: Vec<u8> = Vec::new();
    assert_eq!(x.serialize(&mut buf), Ok(()));
    assert_eq!(buf.len(), 7 + 8);
    let mut r = ByteReader::new(buf);
    let mut val = (String::new(), 0i64);
    assert_eq!(val.deserialize(&mut r), Ok(()));
    assert_eq!(val, x);
}
