//! A codec for the Redis serialization protocol: frames to wire bytes and
//! back, with a probe that tells a whole frame from a partial one.
pub mod buffer;
pub mod codec;
pub mod decimal;
pub mod frame;
pub mod laws;
pub mod wire;

pub use codec::{decode_frame, encode_frame_bytes, parse_at, probe_at, RespDecode, RespEncode};
pub use frame::{
    BulkString, RespArray, RespDouble, RespError, RespFrame, RespMap, RespNull, RespNullArray,
    RespNullBulkString, RespSet, SimpleError, SimpleString,
};
