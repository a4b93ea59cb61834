//! A key-value server core speaking the RESP wire protocol: the value model,
//! a byte-exact decoder and encoder, the command layer and the storage engine.
pub mod backend;
pub mod cmd;
pub mod codec;
pub mod resp;
