//! The framing of a connection: a command is read from the bytes that came
//! in, and a reply is written to the bytes that go out.
use crate::cmd::{command_of, Command, CommandError};
use crate::resp::deserialize::{buffer_bytes, buffer_extend, buffer_slice, decoded};
use crate::resp::serialize::encode;
use crate::resp::{Resp, RespDeserializeError, Serialize};
use bytes::BytesMut;
use vstd::prelude::*;

verus! {

/// Why no command was read, or no reply written.
#[derive(Debug, PartialEq)]
pub enum CodecError {
    /// The bytes stand for no value.
    Resp(RespDeserializeError),
    /// The value asks for no command.
    Command(CommandError),
    /// The reply does not fit behind what the buffer holds.
    TooLong,
}

/// Reads commands and writes replies.
#[derive(Debug, Clone, Copy, Default)]
pub struct Codec;

impl Codec {
    /// Reads the command that the bytes of `buf` ask for, and takes those
    /// bytes out of `buf`. Where the bytes are not complete there is no
    /// command yet and no fault; they wait in `buf` for the rest. After a
    /// fault `buf` is as it was.
    pub fn decode(&mut self, buf: &mut BytesMut) -> (r: Result<Option<Command>, CodecError>)
        ensures
            match decoded(buffer_bytes(*old(buf))) {
                Err(RespDeserializeError::NotComplete) => r matches Ok(None),
                Err(e) => r matches Err(CodecError::Resp(x)) && x == e,
                Ok(v) => match command_of(v) {
                    Ok(c) => r matches Ok(Some(cmd)) && cmd@ == c,
                    Err(e) => r matches Err(CodecError::Command(x)) && x@ == e,
                },
            },
            decoded(buffer_bytes(*old(buf))) is Ok ==> buffer_bytes(*final(buf)) == Seq::<
                u8,
            >::empty(),
            decoded(buffer_bytes(*old(buf))) is Err ==> buffer_bytes(*final(buf)) == buffer_bytes(
                *old(buf),
            ),
    {
        match Resp::try_from(buf) {
            Ok(resp) => match Command::try_from(resp) {
                Ok(cmd) => Ok(Some(cmd)),
                Err(e) => Err(CodecError::Command(e)),
            },
            Err(e) => match e {
                RespDeserializeError::NotComplete => Ok(None),
                _ => Err(CodecError::Resp(e)),
            },
        }
    }

    /// Writes the bytes that stand for `item` behind what `buf` holds. Where
    /// they do not fit, `buf` is left as it was.
    pub fn encode(&mut self, item: Resp, buf: &mut BytesMut) -> (r: Result<(), CodecError>)
        ensures
            match r {
                Ok(_) => buffer_bytes(*final(buf)) == buffer_bytes(*old(buf)) + encode(item@),
                Err(e) => e == CodecError::TooLong && buffer_bytes(*final(buf)) == buffer_bytes(
                    *old(buf),
                ) && buffer_bytes(*old(buf)).len() + encode(item@).len() > isize::MAX,
            },
    {
        let bytes = item.serialize();
        let held = buffer_slice(buf).len();
        let limit: usize = isize::MAX as usize;
        if held > limit || bytes.len() > limit - held {
            return Err(CodecError::TooLong);
        }
        buffer_extend(buf, bytes.as_slice());
        Ok(())
    }
}

} // verus!
