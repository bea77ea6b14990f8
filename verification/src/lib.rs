//! A RESP-style binary wire protocol — an incremental, partial-tolerant
//! decoder, a pure length calculator, a canonical encoder — and a minimal
//! command layer over an in-memory key/value and hash-table store.
pub mod frame;
pub mod wire;
mod trusted;
pub mod numtext;
pub mod bytesbuf;
pub mod double;
pub mod encode;
pub mod decode;
pub mod store;
pub mod cmd;
pub mod laws;

pub use frame::{
    RespError, RespFrame, SimpleString, SimpleError, RespInteger, RespBulkString,
    RespNullBulkString, RespArray, RespNullArray, RespNull, RespBooleans, RespDoubles,
    RespBulkErrors, RespMaps, RespSets, FrameSpec,
};
