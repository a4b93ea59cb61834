use bytes::BytesMut;
use my_redis::resp::deserialize::decode;
use my_redis::resp::{
    Array, Boolean, BulkError, BulkString, Double, Integer, Key, Null, Resp,
    RespDeserializeError, RespMap, RespSet, Serialize, SimpleError, SimpleString,
};

#[test]
fn test_deserialize_simple_string() {
    let buf: &[u8] = b"+OK\r\n";
    let mut bytes = BytesMut::from(buf);
    let r = Resp::try_from(&mut bytes).unwrap();
    assert_eq!(r, Resp::SimpleString(SimpleString::new("OK")));

    let buf: &[u8] = b"+OK\r";
    let mut bytes = BytesMut::from(buf);
    let r = Resp::try_from(&mut bytes);
    assert!(r.is_err());

    let buf: &[u8] = b"+OK\r\n+OK\r\n";
    let mut bytes = BytesMut::from(buf);
    let r = Resp::try_from(&mut bytes);
    assert!(r.is_err());
}

#[test]
fn test_deserialize_simple_error() {
    let buf: &[u8] = b"-ERR\r\n";
    let mut bytes = BytesMut::from(buf);
    let r = Resp::try_from(&mut bytes).unwrap();
    assert_eq!(r, Resp::SimpleError(SimpleError::new("ERR")));

    let buf: &[u8] = b"-ERR\r";
    let mut bytes = BytesMut::from(buf);
    let r = Resp::try_from(&mut bytes);
    assert!(r.is_err());

    let buf: &[u8] = b"-ERR\r\n+OK\r\n";
    let mut bytes = BytesMut::from(buf);
    let r = Resp::try_from(&mut bytes);
    assert!(r.is_err());
}

#[test]
fn test_deserialize_map() {
    let buf: &[u8] = b"%2\r\n+value1\r\n!5\r\nerror\r\n#t\r\n*0\r\n";
    let mut bytes = BytesMut::from(buf);
    let r = Resp::try_from(&mut bytes).unwrap();
    let mut m = RespMap::default();
    m.insert(
        Key::SimpleString(SimpleString::new("value1")),
        Resp::BulkError(BulkError::new("error")),
    );
    m.insert(
        Key::Boolean(Boolean::new(true)),
        Resp::Array(Array::default()),
    );
    assert_eq!(r, Resp::RespMap(Box::new(m)))
}

#[test]
fn test_deserialize_integer() {
    let buf: &[u8] = b":123\r\n";
    let mut bytes = BytesMut::from(buf);
    let r = Resp::try_from(&mut bytes).unwrap();
    assert_eq!(r, Resp::Integer(Integer::new(123)));

    let buf: &[u8] = b":123\r";
    let mut bytes = BytesMut::from(buf);
    let r = Resp::try_from(&mut bytes);
    assert!(r.is_err());

    let buf: &[u8] = b":123\r\n+OK\r\n";
    let mut bytes = BytesMut::from(buf);
    let r = Resp::try_from(&mut bytes);
    assert!(r.is_err());
}

#[test]
fn test_deserialize_bulk_string() {
    let buf: &[u8] = b"$6\r\nfoobar\r\n";
    let mut bytes = BytesMut::from(buf);
    let r = Resp::try_from(&mut bytes).unwrap();
    assert_eq!(r, Resp::BulkString(BulkString::new("foobar", false)));

    let buf: &[u8] = b"$0\r\n\r\n";
    let mut bytes = BytesMut::from(buf);
    let r = Resp::try_from(&mut bytes).unwrap();
    assert_eq!(r, Resp::BulkString(BulkString::new("", false)));

    let buf: &[u8] = b"$-1\r\n";
    let mut bytes = BytesMut::from(buf);
    let r = Resp::try_from(&mut bytes).unwrap();
    assert_eq!(r, Resp::BulkString(BulkString::new("", true)));

    let buf: &[u8] = b"$6\r\nfoobar\r";
    let mut bytes = BytesMut::from(buf);
    let r = Resp::try_from(&mut bytes);
    assert!(r.is_err());

    let buf: &[u8] = b"$6\r\nfoobar\r\n+OK\r\n";
    let mut bytes = BytesMut::from(buf);
    let r = Resp::try_from(&mut bytes);
    assert!(r.is_err());
}

#[test]
fn test_deserialize_null() {
    let buf: &[u8] = b"_\r\n";
    let mut bytes = BytesMut::from(buf);
    let r = Resp::try_from(&mut bytes).unwrap();
    assert_eq!(r, Resp::Null(Null {}));

    let buf: &[u8] = b"_\r";
    let mut bytes = BytesMut::from(buf);
    let r = Resp::try_from(&mut bytes);
    assert!(r.is_err());

    let buf: &[u8] = b"_\r\n+OK\r\n";
    let mut bytes = BytesMut::from(buf);
    let r = Resp::try_from(&mut bytes);
    assert!(r.is_err());
}

#[test]
fn test_deserialize_boolean() {
    let buf: &[u8] = b"#t\r\n";
    let mut bytes = BytesMut::from(buf);
    let r = Resp::try_from(&mut bytes).unwrap();
    assert_eq!(r, Resp::Boolean(Boolean::new(true)));

    let buf: &[u8] = b"#f\r\n";
    let mut bytes = BytesMut::from(buf);
    let r = Resp::try_from(&mut bytes).unwrap();
    assert_eq!(r, Resp::Boolean(Boolean::new(false)));

    let buf: &[u8] = b"#t\r";
    let mut bytes = BytesMut::from(buf);
    let r = Resp::try_from(&mut bytes);
    assert!(r.is_err());

    let buf: &[u8] = b"#t\r\n+OK\r\n";
    let mut bytes = BytesMut::from(buf);
    let r = Resp::try_from(&mut bytes);
    assert!(r.is_err());
}

fn number_of(r: &Resp) -> f64 {
    match r {
        Resp::Double(d) => d.as_str().parse::<f64>().unwrap(),
        _ => panic!("Expected Double"),
    }
}

#[test]
fn test_deserialize_double() {
    let buf: &[u8] = b",123.45\r\n";
    let mut bytes = BytesMut::from(buf);
    let r = Resp::try_from(&mut bytes).unwrap();
    assert_eq!(r, Resp::Double(Double::new("123.45").unwrap()));
    assert_eq!(number_of(&r), 123.45);

    let buf: &[u8] = b",+1e9\r\n";
    let mut bytes = BytesMut::from(buf);
    let r = Resp::try_from(&mut bytes).unwrap();
    assert_eq!(r, Resp::Double(Double::new("+1e9").unwrap()));
    assert_eq!(number_of(&r), 1e9);

    let buf: &[u8] = b",-1.23e-9\r\n";
    let mut bytes = BytesMut::from(buf);
    let r = Resp::try_from(&mut bytes).unwrap();
    assert_eq!(r, Resp::Double(Double::new("-1.23e-9").unwrap()));
    assert_eq!(number_of(&r), -1.23e-9);

    let buf: &[u8] = b",123.45\r";
    let mut bytes = BytesMut::from(buf);
    let r = Resp::try_from(&mut bytes);
    assert!(r.is_err());

    let buf: &[u8] = b",123.45\r\n+OK\r\n";
    let mut bytes = BytesMut::from(buf);
    let r = Resp::try_from(&mut bytes);
    assert!(r.is_err());
}

#[test]
fn test_deserialize_bulk_error() {
    let buf: &[u8] = b"!5\r\nerror\r\n";
    let mut bytes = BytesMut::from(buf);
    let r = Resp::try_from(&mut bytes).unwrap();
    assert_eq!(r, Resp::BulkError(BulkError::new("error")));

    let buf: &[u8] = b"!5\r\nerror\r";
    let mut bytes = BytesMut::from(buf);
    let r = Resp::try_from(&mut bytes);
    assert!(r.is_err());

    let buf: &[u8] = b"!5\r\nerror\r\n+OK\r\n";
    let mut bytes = BytesMut::from(buf);
    let r = Resp::try_from(&mut bytes);
    assert!(r.is_err());
}

#[test]
fn test_deserialize_array() {
    let buf: &[u8] = b"*3\r\n+OK\r\n:123\r\n$6\r\nfoobar\r\n";
    let mut bytes = BytesMut::from(buf);
    let r: Resp = Resp::try_from(&mut bytes).unwrap();
    let mut a = Array::default();
    a.push(Resp::SimpleString(SimpleString::new("OK")));
    a.push(Resp::Integer(Integer::new(123)));
    a.push(Resp::BulkString(BulkString::new("foobar", false)));
    assert_eq!(r, Resp::Array(a));

    let buf: &[u8] = b"*0\r\n";
    let mut bytes = BytesMut::from(buf);
    let r: Resp = Resp::try_from(&mut bytes).unwrap();
    let a = Array::default();
    assert_eq!(r, Resp::Array(a));

    let buf: &[u8] = b"*-1\r\n";
    let mut bytes = BytesMut::from(buf);
    let r: Resp = Resp::try_from(&mut bytes).unwrap();
    let a = Array::new(vec![], true);
    assert_eq!(r, Resp::Array(a));

    let buf: &[u8] = b"*3\r\n+OK\r\n:123\r\n$6\r\nfoobar\r";
    let mut bytes = BytesMut::from(buf);
    let r = Resp::try_from(&mut bytes);
    assert!(r.is_err());

    let buf: &[u8] = b"*3\r\n+OK\r\n:123\r\n$6\r\nfoobar\r\n+OK\r\n";
    let mut bytes = BytesMut::from(buf);
    let r = Resp::try_from(&mut bytes);
    assert!(r.is_err());
}

#[test]
fn test_deserialize_set() {
    let buf: &[u8] = b"~2\r\n+value1\r\n#f\r\n";
    let mut bytes = BytesMut::from(buf);
    let r: Resp = Resp::try_from(&mut bytes).unwrap();
    let mut s = RespSet::default();
    s.insert(Key::SimpleString(SimpleString::new("value1")));
    s.insert(Key::Boolean(Boolean::new(false)));
    assert_eq!(r, Resp::RespSet(s));

    let buf: &[u8] = b"~0\r\n";
    let mut bytes = BytesMut::from(buf);
    let r: Resp = Resp::try_from(&mut bytes).unwrap();
    let s = RespSet::default();
    assert_eq!(r, Resp::RespSet(s));

    let buf: &[u8] = b"~2\r\n+value1\r\n#f\r";
    let mut bytes = BytesMut::from(buf);
    let r = Resp::try_from(&mut bytes);
    assert!(r.is_err());

    let buf: &[u8] = b"~2\r\n+value1\r\n#f\r\n+OK\r\n";
    let mut bytes = BytesMut::from(buf);
    let r = Resp::try_from(&mut bytes);
    assert!(r.is_err());
}

#[test]
fn invalid_negative_length_is_malformed() {
    assert_eq!(decode(b"$-2\r\n"), Err(RespDeserializeError::WrongFormat));
    assert_eq!(decode(b"*-2\r\n"), Err(RespDeserializeError::WrongFormat));
    assert_eq!(decode(b"!-1\r\n"), Err(RespDeserializeError::WrongFormat));
    assert_eq!(decode(b"%-1\r\n"), Err(RespDeserializeError::WrongFormat));
    assert_eq!(decode(b"~-1\r\n"), Err(RespDeserializeError::WrongFormat));
}

#[test]
fn each_fault_has_its_input() {
    assert_eq!(decode(b"?OK\r\n"), Err(RespDeserializeError::UnknownRespType));
    assert_eq!(decode(b"+OK"), Err(RespDeserializeError::NotComplete));
    assert_eq!(decode(b"+O\rK\r\n"), Err(RespDeserializeError::WrongFormat));
    assert_eq!(decode(b"+\xff\r\n"), Err(RespDeserializeError::Utf8Error));
    assert_eq!(decode(b"$2\r\n\xc3\x28\r\n"), Err(RespDeserializeError::Utf8Error));
}

#[test]
fn fewer_than_three_bytes_are_not_complete() {
    assert_eq!(decode(b""), Err(RespDeserializeError::NotComplete));
    assert_eq!(decode(b"?"), Err(RespDeserializeError::NotComplete));
    assert_eq!(decode(b"_\r"), Err(RespDeserializeError::NotComplete));
    assert_eq!(decode(b"\r\n"), Err(RespDeserializeError::NotComplete));
}

#[test]
fn lone_carriage_return_is_malformed() {
    assert_eq!(decode(b"+OK\rx"), Err(RespDeserializeError::WrongFormat));
    assert_eq!(decode(b"+OK\r"), Err(RespDeserializeError::NotComplete));
    assert_eq!(decode(b"_x\n"), Err(RespDeserializeError::WrongFormat));
}

#[test]
fn wrong_bytes_behind_a_bulk_body_are_malformed() {
    assert_eq!(decode(b"$3\r\nfooXY"), Err(RespDeserializeError::WrongFormat));
    assert_eq!(decode(b"$3\r\nfoo\r"), Err(RespDeserializeError::NotComplete));
    assert_eq!(decode(b"!3\r\nfoobar\r\n"), Err(RespDeserializeError::WrongFormat));
}

#[test]
fn leftover_bytes_are_malformed() {
    assert_eq!(decode(b"_\r\n_\r\n"), Err(RespDeserializeError::WrongFormat));
    assert_eq!(decode(b"*1\r\n:1\r\n:2\r\n"), Err(RespDeserializeError::WrongFormat));
}

#[test]
fn numerals_are_read_as_the_types_take_them() {
    assert_eq!(decode(b":+5\r\n"), Ok(Resp::Integer(Integer::new(5))));
    assert_eq!(decode(b":-0\r\n"), Ok(Resp::Integer(Integer::new(0))));
    assert_eq!(decode(b":007\r\n"), Ok(Resp::Integer(Integer::new(7))));
    assert_eq!(
        decode(b":-9223372036854775808\r\n"),
        Ok(Resp::Integer(Integer::new(i64::MIN)))
    );
    assert_eq!(
        decode(b":9223372036854775808\r\n"),
        Err(RespDeserializeError::WrongFormat)
    );
    assert_eq!(decode(b":\r\n"), Err(RespDeserializeError::WrongFormat));
    assert_eq!(decode(b":-\r\n"), Err(RespDeserializeError::WrongFormat));
    assert_eq!(decode(b":1 \r\n"), Err(RespDeserializeError::WrongFormat));
    assert_eq!(decode(b"!+3\r\nfoo\r\n"), Ok(Resp::BulkError(BulkError::new("foo"))));
    assert_eq!(decode(b"!-0\r\n\r\n"), Err(RespDeserializeError::WrongFormat));
    assert_eq!(
        decode(b"$-0\r\n\r\n"),
        Ok(Resp::BulkString(BulkString::new("", false)))
    );
}

#[test]
fn double_text_follows_the_grammar() {
    for good in [
        "0", "5.", ".5", "3.14", "-3.14", "2.5E10", "2.5e-10", "1e+5", "inf", "-inf",
        "+infinity", "NaN", "nan", "INF",
    ] {
        assert!(Double::new(good).is_some(), "{}", good);
        assert!(good.parse::<f64>().is_ok(), "{}", good);
    }
    for bad in [
        "", ".", "e5", "+", "-", "1e", "1e+", "1.2.3", " 1", "1 ", "0x10", "infinit", "na",
        "1,5", "--1", "+-1", ".e1",
    ] {
        assert!(Double::new(bad).is_none(), "{}", bad);
        assert!(bad.parse::<f64>().is_err(), "{}", bad);
    }
    assert_eq!(decode(b",abc\r\n"), Err(RespDeserializeError::WrongFormat));
    assert_eq!(decode(b",\r\n"), Err(RespDeserializeError::WrongFormat));
}

#[test]
fn boolean_body_is_one_letter() {
    assert_eq!(decode(b"#x\r\n"), Err(RespDeserializeError::WrongFormat));
    assert_eq!(decode(b"#tt\r\n"), Err(RespDeserializeError::WrongFormat));
    assert_eq!(decode(b"#\r\n"), Err(RespDeserializeError::WrongFormat));
}

#[test]
fn map_key_that_cannot_be_a_key_is_malformed() {
    assert_eq!(
        decode(b"%1\r\n*0\r\n:1\r\n"),
        Err(RespDeserializeError::WrongFormat)
    );
    assert_eq!(decode(b"~1\r\n,1.5\r\n"), Err(RespDeserializeError::WrongFormat));
    assert_eq!(decode(b"%1\r\n*0\r\n"), Err(RespDeserializeError::WrongFormat));
}

#[test]
fn map_keeps_the_last_value_of_a_key_in_key_order() {
    let r = decode(b"%3\r\n:2\r\n+a\r\n:1\r\n+b\r\n:2\r\n+c\r\n").unwrap();
    let mut m = RespMap::new();
    m.insert(Key::Integer(Integer::new(1)), Resp::SimpleString(SimpleString::new("b")));
    m.insert(Key::Integer(Integer::new(2)), Resp::SimpleString(SimpleString::new("c")));
    assert_eq!(r, Resp::RespMap(Box::new(m)));
    assert_eq!(
        r.serialize(),
        "%2\r\n:1\r\n+b\r\n:2\r\n+c\r\n".as_bytes()
    );
}

fn samples() -> Vec<Resp> {
    let mut map = RespMap::new();
    map.insert(
        Key::BulkString(BulkString::new("k", false)),
        Resp::Array(Array::new(
            vec![Resp::Null(Null), Resp::Boolean(Boolean::new(true))],
            false,
        )),
    );
    map.insert(Key::Null(Null), Resp::Integer(Integer::new(-7)));
    map.insert(
        Key::SimpleError(SimpleError::new("e")),
        Resp::Double(Double::new("-7.4e-7").unwrap()),
    );
    let mut set = RespSet::new();
    set.insert(Key::Boolean(Boolean::new(true)));
    set.insert(Key::Integer(Integer::new(3)));
    set.insert(Key::BulkError(BulkError::new("oops")));
    set.insert(Key::BulkString(BulkString::new("", true)));
    vec![
        Resp::SimpleString(SimpleString::new("OK")),
        Resp::SimpleString(SimpleString::new("")),
        Resp::SimpleString(SimpleString::new("line\nfeed")),
        Resp::SimpleError(SimpleError::new("ERR gr\u{fc}n")),
        Resp::Integer(Integer::new(i64::MIN)),
        Resp::Integer(Integer::new(i64::MAX)),
        Resp::BulkString(BulkString::new("with\r\nbreak", false)),
        Resp::BulkString(BulkString::new("", false)),
        Resp::BulkString(BulkString::new("", true)),
        Resp::Array(Array::new(vec![], false)),
        Resp::Array(Array::new(vec![], true)),
        Resp::Null(Null),
        Resp::Boolean(Boolean::new(false)),
        Resp::Double(Double::new("3.99").unwrap()),
        Resp::Double(Double::new("+1.234e8").unwrap()),
        Resp::BulkError(BulkError::new("SYNTAX invalid syntax")),
        Resp::RespSet(set),
        Resp::Array(Array::new(
            vec![
                Resp::RespMap(Box::new(map)),
                Resp::Array(Array::new(vec![Resp::Integer(Integer::new(1))], false)),
            ],
            false,
        )),
    ]
}

#[test]
fn written_values_read_back() {
    for v in samples() {
        let bytes = v.serialize();
        assert_eq!(decode(&bytes), Ok(v.clone()));
        let mut buf = BytesMut::from(&bytes[..]);
        assert_eq!(Resp::try_from(&mut buf), Ok(v));
        assert!(buf.is_empty());
    }
}

#[test]
fn null_and_empty_read_back_apart() {
    let null = decode(b"$-1\r\n").unwrap();
    let empty = decode(b"$0\r\n\r\n").unwrap();
    assert_ne!(null, empty);
    let null = decode(b"*-1\r\n").unwrap();
    let empty = decode(b"*0\r\n").unwrap();
    assert_ne!(null, empty);
}

#[test]
fn every_shorter_run_is_not_complete() {
    for v in samples() {
        let bytes = v.serialize();
        for n in 0..bytes.len() {
            assert_eq!(decode(&bytes[..n]), Err(RespDeserializeError::NotComplete));
        }
    }
}

#[test]
fn bytes_fed_in_pieces_wait_in_the_buffer() {
    for v in samples() {
        let bytes = v.serialize();
        let mut buf = BytesMut::new();
        for (i, b) in bytes.iter().enumerate() {
            assert_eq!(
                Resp::try_from(&mut buf),
                Err(RespDeserializeError::NotComplete)
            );
            assert_eq!(&buf[..], &bytes[..i]);
            buf.extend_from_slice(&[*b]);
        }
        assert_eq!(Resp::try_from(&mut buf), Ok(v));
        assert!(buf.is_empty());
    }
}

#[test]
fn a_fault_leaves_the_buffer_as_it_was() {
    let mut buf = BytesMut::from(&b"+OK\r\n+OK\r\n"[..]);
    assert_eq!(
        Resp::try_from(&mut buf),
        Err(RespDeserializeError::WrongFormat)
    );
    assert_eq!(&buf[..], b"+OK\r\n+OK\r\n");
}
