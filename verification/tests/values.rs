use my_redis::resp::decimal::{parse_i64, parse_u64, push_i64, push_u64};
use my_redis::resp::double::check_double_text;
use my_redis::resp::order::{slice_lt, str_eq, str_lt};
use my_redis::resp::{
    Array, Boolean, BulkError, BulkString, Double, Integer, Key, Null, Resp, RespMap, RespSet,
    SimpleError, SimpleString,
};

fn keys_in_order() -> Vec<Key> {
    vec![
        Key::SimpleString(SimpleString::new("")),
        Key::SimpleString(SimpleString::new("a")),
        Key::SimpleString(SimpleString::new("ab")),
        Key::SimpleString(SimpleString::new("b")),
        Key::SimpleString(SimpleString::new("\u{e9}")),
        Key::SimpleError(SimpleError::new("a")),
        Key::SimpleError(SimpleError::new("z")),
        Key::Integer(Integer::new(i64::MIN)),
        Key::Integer(Integer::new(-1)),
        Key::Integer(Integer::new(0)),
        Key::Integer(Integer::new(7)),
        Key::BulkString(BulkString::new("", false)),
        Key::BulkString(BulkString::new("", true)),
        Key::BulkString(BulkString::new("k", false)),
        Key::BulkString(BulkString::new("k", true)),
        Key::BulkString(BulkString::new("kk", false)),
        Key::BulkError(BulkError::new("e")),
        Key::BulkError(BulkError::new("f")),
        Key::Null(Null),
        Key::Boolean(Boolean::new(false)),
        Key::Boolean(Boolean::new(true)),
    ]
}

#[test]
fn keys_are_ordered_by_kind_then_by_what_they_hold() {
    let keys = keys_in_order();
    for i in 0..keys.len() {
        for j in 0..keys.len() {
            assert_eq!(keys[i].precedes(&keys[j]), i < j, "{} {}", i, j);
            assert_eq!(keys[i].same(&keys[j]), i == j, "{} {}", i, j);
        }
    }
}

#[test]
fn key_order_is_the_order_of_the_operators() {
    let keys = keys_in_order();
    for a in keys.iter() {
        for b in keys.iter() {
            assert_eq!(a.precedes(b), a < b);
            assert_eq!(a.same(b), a == b);
        }
    }
}

#[test]
fn text_is_ordered_byte_by_byte() {
    assert!(slice_lt(b"", b"a"));
    assert!(!slice_lt(b"", b""));
    assert!(slice_lt(b"ab", b"b"));
    assert!(slice_lt(b"a", b"ab"));
    assert!(!slice_lt(b"ab", b"a"));
    assert!(!slice_lt(b"b", b"ab"));
    assert!(str_lt("Z", "a"));
    assert!(str_lt("z", "\u{e9}"));
    assert!(str_eq("gr\u{fc}n", "gr\u{fc}n"));
    assert!(!str_eq("a", "ab"));
    assert!(!str_eq("ab", "ac"));
}

#[test]
fn map_keeps_entries_in_key_order() {
    let mut m = RespMap::new();
    let keys = keys_in_order();
    for (n, k) in keys.iter().enumerate().rev() {
        m.insert(k.clone(), Resp::Integer(Integer::new(n as i64)));
    }
    assert_eq!(m.len(), keys.len());
    for (n, k) in keys.iter().enumerate() {
        assert_eq!(m.key_at(n), k);
        assert_eq!(m.value_at(n), &Resp::Integer(Integer::new(n as i64)));
        assert_eq!(m.get(k), Some(&Resp::Integer(Integer::new(n as i64))));
    }
    m.insert(keys[3].clone(), Resp::Null(Null));
    assert_eq!(m.len(), keys.len());
    assert_eq!(m.get(&keys[3]), Some(&Resp::Null(Null)));
    assert_eq!(RespMap::new().get(&keys[0]), None);
    assert_eq!(m.clone(), m);
}

#[test]
fn set_keeps_members_in_key_order_each_once() {
    let mut s = RespSet::new();
    let keys = keys_in_order();
    for k in keys.iter().rev() {
        assert!(s.insert(k.clone()));
    }
    for k in keys.iter() {
        assert!(!s.insert(k.clone()));
        assert!(s.contains(k));
    }
    assert_eq!(s.len(), keys.len());
    for (n, k) in keys.iter().enumerate() {
        assert_eq!(s.get(n), k);
    }
    assert!(!RespSet::new().contains(&keys[0]));
    assert_eq!(s.clone(), s);
}

#[test]
fn array_holds_values_in_the_order_given() {
    let mut a = Array::default();
    assert_eq!(a.len(), 0);
    assert!(!a.is_null());
    a.push(Resp::Null(Null));
    a.push(Resp::Boolean(Boolean::new(true)));
    assert_eq!(a.len(), 2);
    assert_eq!(a.get(1), &Resp::Boolean(Boolean::new(true)));
    assert_eq!(a.clone(), a);
    assert_eq!(
        a.into_items(),
        vec![Resp::Null(Null), Resp::Boolean(Boolean::new(true))]
    );
    assert!(Array::new(vec![], true).is_null());
}

#[test]
fn values_give_back_what_they_were_made_of() {
    assert_eq!(SimpleString::new("a").as_str(), "a");
    assert_eq!(SimpleError::new("b").as_str(), "b");
    assert_eq!(BulkError::new("c").as_str(), "c");
    assert_eq!(Integer::new(-3).get(), -3);
    assert_eq!(Boolean::new(true).get(), true);
    assert_eq!(Double::new("1.5").unwrap().as_str(), "1.5");
    assert_eq!(SimpleString::default().as_str(), "");
    assert_eq!(Integer::default().get(), 0);
    assert_eq!(Boolean::default().get(), false);
    assert_eq!(Double::default().as_str(), "0");
    assert_eq!(BulkString::default(), BulkString::new("", false));
    assert_eq!(SimpleString::new("x").clone(), SimpleString::new("x"));
}

fn digits(n: u64) -> Vec<u8> {
    let mut out = vec![b'>'];
    push_u64(&mut out, n);
    out
}

fn numeral(n: i64) -> Vec<u8> {
    let mut out = vec![b'>'];
    push_i64(&mut out, n);
    out
}

#[test]
fn numbers_are_written_in_decimal() {
    assert_eq!(digits(0), b">0");
    assert_eq!(digits(9), b">9");
    assert_eq!(digits(10), b">10");
    assert_eq!(digits(u64::MAX), b">18446744073709551615");
    assert_eq!(numeral(0), b">0");
    assert_eq!(numeral(-1), b">-1");
    assert_eq!(numeral(i64::MIN), b">-9223372036854775808");
    assert_eq!(numeral(i64::MAX), b">9223372036854775807");
}

#[test]
fn numerals_are_read_as_the_operators_read_them() {
    let texts = [
        "", "+", "-", "0", "-0", "+0", "00012", "12a", "a12", " 12", "+-1", "-+1", "1_000",
        "9223372036854775807", "9223372036854775808", "-9223372036854775808",
        "-9223372036854775809", "18446744073709551615", "18446744073709551616",
        "000000000000000000000000000000018446744073709551615", "99999999999999999999999",
    ];
    for t in texts {
        assert_eq!(parse_i64(t.as_bytes()), t.parse::<i64>().ok(), "{}", t);
        assert_eq!(parse_u64(t.as_bytes()), t.parse::<u64>().ok(), "{}", t);
    }
}

#[test]
fn double_text_is_what_the_number_parser_takes() {
    let texts = [
        "1", "-1", "+1", "1.", ".1", "1.1", "1e1", "1E1", "1e-1", "1e+1", ".1e1", "1.e1",
        "inf", "Inf", "INFINITY", "-Infinity", "nan", "+NaN", "", ".", "e1", "1e", "1ee1",
        "1e1.5", "1..1", "infin", "nane", "1 ", "\u{e9}", "0x1p3", "1f", "++1",
    ];
    for t in texts {
        assert_eq!(
            check_double_text(t.as_bytes()),
            t.parse::<f64>().is_ok(),
            "{}",
            t
        );
    }
}
