use bytes::BytesMut;
use my_redis::backend::Storage;
use my_redis::cmd::{Command, CommandError, CommandExecutor, Get, SetCmd};
use my_redis::codec::{Codec, CodecError};
use my_redis::resp::{BulkString, Integer, Key, Null, Resp, RespDeserializeError, SimpleString};

#[test]
fn test_storage() {
    let storage = Storage::new();
    let key = Key::BulkString(BulkString::new("key", false));
    let value = Resp::Integer(Integer::new(42));
    let res = storage.execute(Command::SetCmd(SetCmd {
        key: key.clone(),
        value: value.clone(),
    }));
    assert!(res.is_none());
    let res = storage.execute(Command::Get(Get { key }));
    assert!(res.is_some());
    assert_eq!(res, Some(value));
}

#[test]
fn lookup_of_an_unbound_key_finds_nothing() {
    let storage = Storage::default();
    let key = Key::Integer(Integer::new(1));
    assert_eq!(storage.execute(Command::Get(Get { key })), None);
}

#[test]
fn last_binding_wins() {
    let storage = Storage::new();
    let key = Key::SimpleString(SimpleString::new("k"));
    for n in 0..3 {
        storage.execute(Command::SetCmd(SetCmd {
            key: key.clone(),
            value: Resp::Integer(Integer::new(n)),
        }));
    }
    assert_eq!(
        storage.execute(Command::Get(Get { key })),
        Some(Resp::Integer(Integer::new(2)))
    );
}

#[test]
fn clones_share_one_table() {
    let storage = Storage::new();
    let other = storage.clone();
    let key = Key::Null(Null);
    other.execute(Command::SetCmd(SetCmd {
        key: key.clone(),
        value: Resp::Null(Null),
    }));
    assert_eq!(
        storage.execute(Command::Get(Get { key })),
        Some(Resp::Null(Null))
    );
}

#[test]
fn many_bindings_are_all_found_again() {
    let storage = Storage::new();
    for n in 0..200 {
        let reply = Command::SetCmd(SetCmd {
            key: Key::Integer(Integer::new(n)),
            value: Resp::Integer(Integer::new(n * n)),
        })
        .execute(&storage);
        assert_eq!(reply, Resp::SimpleString(SimpleString::new("OK")));
    }
    for n in 0..200 {
        let reply = Command::Get(Get {
            key: Key::Integer(Integer::new(n)),
        })
        .execute(&storage);
        assert_eq!(reply, Resp::Integer(Integer::new(n * n)));
    }
}

#[test]
fn codec_reads_a_command_when_the_bytes_are_complete() {
    let mut codec = Codec;
    let mut buf = BytesMut::new();
    let request = b"*2\r\n$3\r\nGET\r\n$3\r\nfoo\r\n";
    for b in request.iter() {
        assert_eq!(codec.decode(&mut buf).unwrap().is_none(), true);
        buf.extend_from_slice(&[*b]);
    }
    let cmd = codec.decode(&mut buf).unwrap().unwrap();
    assert!(buf.is_empty());
    match cmd {
        Command::Get(Get { key }) => {
            assert_eq!(key, Key::BulkString(BulkString::new("foo", false)))
        }
        _ => panic!("Expected Get"),
    }
}

#[test]
fn codec_tells_the_faults_apart() {
    let mut codec = Codec;
    let mut buf = BytesMut::from(&b"$-2\r\n"[..]);
    assert_eq!(
        codec.decode(&mut buf).unwrap_err(),
        CodecError::Resp(RespDeserializeError::WrongFormat)
    );
    let mut buf = BytesMut::from(&b"*1\r\n$4\r\nPING\r\n"[..]);
    assert_eq!(
        codec.decode(&mut buf).unwrap_err(),
        CodecError::Command(CommandError::UnsupportedCommand("PING".to_string()))
    );
}

#[test]
fn codec_writes_replies_one_behind_the_other() {
    let mut codec = Codec;
    let mut buf = BytesMut::new();
    codec
        .encode(Resp::SimpleString(SimpleString::new("OK")), &mut buf)
        .unwrap();
    codec.encode(Resp::Null(Null), &mut buf).unwrap();
    assert_eq!(&buf[..], b"+OK\r\n_\r\n");
}
