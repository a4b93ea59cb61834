use my_redis::backend::Storage;
use my_redis::cmd::{reply_of_lookup, Command, CommandError, CommandExecutor, Echo, Get, SetCmd};
use my_redis::resp::deserialize::decode;
use my_redis::resp::{
    Array, BulkString, Double, Integer, Key, Null, Resp, RespMap, RespSet, Serialize,
    SimpleString,
};

#[test]
fn test_try_from_resp() {
    let mut arr = Array::default();
    arr.push(Resp::BulkString(BulkString::new("GET", false)));
    arr.push(Resp::BulkString(BulkString::new("key", false)));
    let resp = Resp::Array(arr);
    let cmd = Command::try_from(resp).unwrap();
    match cmd {
        Command::Get(Get { key }) => {
            assert_eq!(
                key,
                Key::BulkString(BulkString {
                    value: "key".to_string(),
                    is_null: false
                })
            );
        }
        _ => panic!("Expected Get"),
    }

    let mut arr = Array::default();
    arr.push(Resp::BulkString(BulkString::new("SET", false)));
    arr.push(Resp::BulkString(BulkString::new("key", false)));
    arr.push(Resp::Integer(Integer::new(1)));
    let resp = Resp::Array(arr);
    let cmd = Command::try_from(resp).unwrap();
    match cmd {
        Command::SetCmd(SetCmd { key, value }) => {
            assert_eq!(
                key,
                Key::BulkString(BulkString {
                    value: "key".to_string(),
                    is_null: false
                })
            );
            assert_eq!(value, Resp::Integer(Integer::new(1)));
        }
        _ => panic!("Expected Set"),
    }

    let mut arr = Array::default();
    arr.push(Resp::BulkString(BulkString::new("SET", false)));
    arr.push(Resp::BulkString(BulkString::new("key", false)));
    let resp = Resp::Array(arr);
    let cmd = Command::try_from(resp);
    assert!(cmd.is_err());
    assert_eq!(cmd.unwrap_err(), CommandError::WrongNumberOfArguments(2, 1));

    let resp = Resp::BulkString(BulkString::new("SET", false));
    let cmd = Command::try_from(resp);
    assert!(cmd.is_err());
    assert_eq!(cmd.unwrap_err(), CommandError::WrongFormat);
}

#[test]
fn test_parse_echo() {
    let mut arr = Array::default();
    arr.push(Resp::BulkString(BulkString::new("ECHO", false)));
    arr.push(Resp::BulkString(BulkString::new("Hello World", false)));
    let resp = Resp::Array(arr);
    let cmd = Command::try_from(resp).unwrap();
    match cmd {
        Command::Echo(Echo { msg }) => {
            assert_eq!(
                msg,
                Resp::BulkString(BulkString {
                    value: "Hello World".to_string(),
                    is_null: false
                })
            );
        }
        _ => panic!("Expected ECHO"),
    }
}

fn request(parts: Vec<Resp>) -> Resp {
    Resp::Array(Array::new(parts, false))
}

fn word(text: &str) -> Resp {
    Resp::BulkString(BulkString::new(text, false))
}

#[test]
fn arity_is_checked() {
    let r = Command::try_from(request(vec![word("SET"), word("k")]));
    assert_eq!(r.unwrap_err(), CommandError::WrongNumberOfArguments(2, 1));
    let r = Command::try_from(request(vec![word("GET"), word("k"), word("extra")]));
    assert_eq!(r.unwrap_err(), CommandError::WrongNumberOfArguments(1, 2));
    let r = Command::try_from(request(vec![word("GET")]));
    assert_eq!(r.unwrap_err(), CommandError::WrongNumberOfArguments(1, 0));
    let r = Command::try_from(request(vec![word("ECHO")]));
    assert_eq!(r.unwrap_err(), CommandError::WrongNumberOfArguments(1, 0));
    let r = Command::try_from(request(vec![word("ECHO"), word("a"), word("b")]));
    assert_eq!(r.unwrap_err(), CommandError::WrongNumberOfArguments(1, 2));
    let r = Command::try_from(request(vec![word("COMMAND"), word("DOCS")]));
    assert_eq!(r.unwrap_err(), CommandError::WrongNumberOfArguments(0, 1));
    let r = Command::try_from(request(vec![word("COMMAND")]));
    assert!(matches!(r, Ok(Command::Cmd)));
}

#[test]
fn arity_is_checked_before_the_key() {
    let bad_key = Resp::Array(Array::default());
    let r = Command::try_from(request(vec![word("SET"), bad_key]));
    assert_eq!(r.unwrap_err(), CommandError::WrongNumberOfArguments(2, 1));
}

#[test]
fn values_that_cannot_be_keys_are_refused() {
    let bad_keys = || {
        vec![
            Resp::Array(Array::default()),
            Resp::RespMap(Box::new(RespMap::new())),
            Resp::RespSet(RespSet::new()),
            Resp::Double(Double::new("1.5").unwrap()),
        ]
    };
    for k in bad_keys() {
        let r = Command::try_from(request(vec![word("GET"), k]));
        assert_eq!(r.unwrap_err(), CommandError::UnsupportedKey);
    }
    for k in bad_keys() {
        let r = Command::try_from(request(vec![word("SET"), k, word("v")]));
        assert_eq!(r.unwrap_err(), CommandError::UnsupportedKey);
    }
    assert!(Key::try_from(Resp::Array(Array::default())).is_err());
    assert_eq!(
        Key::try_from(Resp::Null(Null)).unwrap(),
        Key::Null(Null)
    );
    assert_eq!(Resp::from(Key::Integer(Integer::new(4))), Resp::Integer(Integer::new(4)));
}

#[test]
fn name_is_matched_in_any_letter_case() {
    let r = Command::try_from(request(vec![word("get"), word("k")]));
    assert!(matches!(r, Ok(Command::Get(_))));
    let r = Command::try_from(request(vec![word("sEt"), word("k"), word("v")]));
    assert!(matches!(r, Ok(Command::SetCmd(_))));
    let r = Command::try_from(request(vec![word("Echo"), word("m")]));
    assert!(matches!(r, Ok(Command::Echo(_))));
    let r = Command::try_from(request(vec![word("command")]));
    assert!(matches!(r, Ok(Command::Cmd)));
}

#[test]
fn unknown_name_is_given_back_in_upper_case() {
    let r = Command::try_from(request(vec![word("ping")]));
    assert_eq!(
        r.unwrap_err(),
        CommandError::UnsupportedCommand("PING".to_string())
    );
    let r = Command::with_name("ping", vec![]);
    assert_eq!(
        r.unwrap_err(),
        CommandError::UnsupportedCommand("ping".to_string())
    );
    let r = Command::with_name("get", vec![word("k")]);
    assert_eq!(
        r.unwrap_err(),
        CommandError::UnsupportedCommand("get".to_string())
    );
}

#[test]
fn request_must_be_an_array_that_starts_with_a_bulk_string() {
    let r = Command::try_from(Resp::Null(Null));
    assert_eq!(r.unwrap_err(), CommandError::WrongFormat);
    let r = Command::try_from(request(vec![]));
    assert_eq!(r.unwrap_err(), CommandError::WrongFormat);
    let r = Command::try_from(Resp::Array(Array::new(vec![], true)));
    assert_eq!(r.unwrap_err(), CommandError::WrongFormat);
    let r = Command::try_from(request(vec![
        Resp::SimpleString(SimpleString::new("GET")),
        word("k"),
    ]));
    assert_eq!(r.unwrap_err(), CommandError::WrongFormat);
}

#[test]
fn lookup_reply_is_the_value_or_null() {
    assert_eq!(reply_of_lookup(None), Resp::Null(Null));
    assert_eq!(
        reply_of_lookup(Some(Resp::Integer(Integer::new(5)))),
        Resp::Integer(Integer::new(5))
    );
}

#[test]
fn echo_and_cmd_reply_without_the_store() {
    let storage = Storage::new();
    let cmd = Command::Echo(Echo { msg: word("hi") });
    assert_eq!(cmd.execute(&storage), word("hi"));
    assert_eq!(
        Command::Cmd.execute(&storage),
        Resp::SimpleString(SimpleString::new("OK"))
    );
    assert_eq!(storage.execute(Command::Cmd), None);
    assert_eq!(storage.execute(cmd), None);
}

struct Fixed(Option<Resp>);

impl CommandExecutor for Fixed {
    fn execute(&self, _cmd: Command) -> Option<Resp> {
        self.0.clone()
    }
}

#[test]
fn lookup_replies_with_what_the_executor_found() {
    let get = Command::Get(Get {
        key: Key::Integer(Integer::new(1)),
    });
    let hit = Fixed(Some(word("found")));
    assert_eq!(get.execute(&hit), word("found"));
    let miss = Fixed(None);
    assert_eq!(get.execute(&miss), Resp::Null(Null));
    let set = Command::SetCmd(SetCmd {
        key: Key::Integer(Integer::new(1)),
        value: word("v"),
    });
    assert_eq!(
        set.execute(&hit),
        Resp::SimpleString(SimpleString::new("OK"))
    );
}

fn round(storage: &Storage, request: &[u8]) -> Vec<u8> {
    let value = decode(request).unwrap();
    let cmd = Command::try_from(value).unwrap();
    cmd.execute(storage).serialize()
}

#[test]
fn get_set_get_end_to_end() {
    let storage = Storage::new();
    let reply = round(&storage, b"*2\r\n$3\r\nGET\r\n$3\r\nfoo\r\n");
    assert_eq!(reply, b"_\r\n");
    let reply = round(&storage, b"*3\r\n$3\r\nSET\r\n$3\r\nfoo\r\n$3\r\nbar\r\n");
    assert_eq!(reply, b"+OK\r\n");
    let reply = round(&storage, b"*2\r\n$3\r\nGET\r\n$3\r\nfoo\r\n");
    assert_eq!(reply, b"$3\r\nbar\r\n");
}
