use my_redis::resp::{
    Array, Boolean, BulkError, BulkString, Double, Integer, Key, Null, Resp, RespMap, RespSet,
    Serialize, SimpleError, SimpleString,
};

#[test]
fn test_serialize_simple_string() {
    let s = SimpleString::new("OK");
    assert_eq!(s.serialize(), "+OK\r\n".as_bytes());
}

#[test]
fn test_serialize_simple_error() {
    let s = SimpleError::new("ERR");
    assert_eq!(s.serialize(), "-ERR\r\n".as_bytes());
}

#[test]
fn test_serialze_integer() {
    let s = Integer::new(123);
    assert_eq!(s.serialize(), ":123\r\n".as_bytes());
}

#[test]
fn test_serialize_negative_integer() {
    let s = Integer::new(-123);
    assert_eq!(s.serialize(), ":-123\r\n".as_bytes());
}

#[test]
fn test_serialize_bulk_string() {
    let s = BulkString {
        value: "foobar".to_string(),
        is_null: false,
    };
    assert_eq!(s.serialize(), "$6\r\nfoobar\r\n".as_bytes());

    let s = BulkString {
        value: "".to_string(),
        is_null: false,
    };
    assert_eq!(s.serialize(), "$0\r\n\r\n".as_bytes());
}

#[test]
fn test_serialize_null() {
    let s = Null {};
    assert_eq!(s.serialize(), "_\r\n".as_bytes());
}

#[test]
fn test_serialize_boolean() {
    let s = Boolean::new(true);
    assert_eq!(s.serialize(), "#t\r\n".as_bytes());

    let s = Boolean::new(false);
    assert_eq!(s.serialize(), "#f\r\n".as_bytes());
}

#[test]
fn test_serialize_bulk_error() {
    let s = BulkError::new("SYNTAX invalid syntax");
    assert_eq!(s.serialize(), "!21\r\nSYNTAX invalid syntax\r\n".as_bytes());
}

#[test]
fn test_serialize_array() {
    let s = Array::new(
        vec![
            Resp::SimpleString(SimpleString::new("OK")),
            Resp::Integer(Integer::new(123)),
            Resp::BulkString(BulkString::new("foobar", false)),
        ],
        false,
    );
    assert_eq!(
        s.serialize(),
        "*3\r\n+OK\r\n:123\r\n$6\r\nfoobar\r\n".as_bytes()
    );
}

#[test]
fn test_serialize_map() {
    let mut s = RespMap::default();
    s.insert(
        Key::SimpleString(SimpleString::new("value1")),
        Resp::BulkError(BulkError::new("error")),
    );
    s.insert(
        Key::Boolean(Boolean::new(true)),
        Resp::Array(Array::default()),
    );
    assert_eq!(
        s.serialize(),
        "%2\r\n+value1\r\n!5\r\nerror\r\n#t\r\n*0\r\n".as_bytes()
    );
}

#[test]
fn test_serialize_set() {
    let mut s = RespSet::default();
    assert_eq!(s.serialize(), "~0\r\n".as_bytes());

    s.insert(Key::SimpleString(SimpleString::new("value1")));
    s.insert(Key::Boolean(Boolean::default()));

    assert_eq!(s.serialize(), "~2\r\n+value1\r\n#f\r\n".as_bytes());
}

#[test]
fn test_serialize_double() {
    let s = Double::new("3.99").unwrap();
    assert_eq!(s.serialize(), ",3.99\r\n".as_bytes());

    let s = Double::new("-3.88").unwrap();
    assert_eq!(s.serialize(), ",-3.88\r\n".as_bytes());

    let s = Double::new("+1.234e8").unwrap();
    assert_eq!(s.serialize(), ",+1.234e8\r\n".as_bytes());

    let s = Double::new("-7.4e-7").unwrap();
    assert_eq!(Resp::Double(s).serialize(), ",-7.4e-7\r\n".as_bytes());
}

#[test]
fn serialize_null_bulk_string_and_null_array() {
    let s = BulkString::new("", true);
    assert_eq!(s.serialize(), "$-1\r\n".as_bytes());
    let a = Array::new(vec![], true);
    assert_eq!(a.serialize(), "*-1\r\n".as_bytes());
    let a = Array::new(vec![], false);
    assert_eq!(a.serialize(), "*0\r\n".as_bytes());
}

#[test]
fn serialize_bulk_length_counts_bytes() {
    let s = BulkString::new("h\u{e9}llo", false);
    assert_eq!(s.serialize(), "$6\r\nh\u{e9}llo\r\n".as_bytes());
}

#[test]
fn serialize_integer_extremes() {
    assert_eq!(
        Integer::new(i64::MIN).serialize(),
        ":-9223372036854775808\r\n".as_bytes()
    );
    assert_eq!(
        Integer::new(i64::MAX).serialize(),
        ":9223372036854775807\r\n".as_bytes()
    );
    assert_eq!(Integer::new(0).serialize(), ":0\r\n".as_bytes());
}

#[test]
fn serialize_set_inside_value_is_written() {
    let mut s = RespSet::new();
    s.insert(Key::Integer(Integer::new(2)));
    s.insert(Key::Integer(Integer::new(1)));
    s.insert(Key::Integer(Integer::new(2)));
    assert_eq!(Resp::RespSet(s).serialize(), "~2\r\n:1\r\n:2\r\n".as_bytes());
}
