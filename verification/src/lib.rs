//! A minimal Redis-protocol server core: the RESP wire codec (byte-exact
//! encoding, incremental decoding from a streaming buffer), the command
//! layer (parsing decoded arrays into typed, validated commands) and an
//! in-memory multi-type key-value store the commands execute against.
//!
//! The grammar itself lives in [`resp::wire`] as specification functions;
//! the encoder and decoder are proved to follow it exactly, and the
//! round-trip and prefix-incompleteness laws are proved over it.
pub mod backend;
pub mod cmd;
pub mod resp;

pub use backend::Backend;
pub use cmd::{
    Command, CommandError, Echo, Get, HGet, HGetAll, HMGet, HSet, SAdd, SIsMember, SetCmd,
    Unrecognized,
};
pub use resp::{
    BulkString, FrameVal, NullBulkString, RespArray, RespDouble, RespError, RespFrame, RespMap,
    RespNull, RespNullArray, RespSet, SimpleError, SimpleString,
};
pub use resp::encoder::RespEncoder;
