//! A codec for RESP, the serialization protocol that Redis speaks.
//!
//! The crate holds the value model ([`RespValue`]), the conversions between
//! protocol values and application types, and a streaming codec
//! ([`RespCodec`]) that turns values into wire bytes and buffered wire bytes
//! back into values.
//!
//! The modules, from the leaves up:
//!
//! - [`decimal`]: numbers in decimal digits;
//! - [`text`]: text out of bytes;
//! - [`value`] and [`error`]: the values, the failures and their contents;
//! - [`wire`] and [`parse`]: the wire format as mathematics, written and read;
//! - [`buffer`]: the byte buffer of the `bytes` crate;
//! - [`encode`] and [`decode`]: the functions that write and read frames;
//! - [`codec`]: the streaming interface;
//! - [`convert`]: between values and application types;
//! - [`laws`]: what is proved of the format as a whole.

pub mod buffer;
pub mod codec;
pub mod convert;
pub mod decimal;
pub mod decode;
pub mod encode;
pub mod error;
pub mod laws;
pub mod parse;
pub mod text;
pub mod value;
pub mod wire;

pub use codec::RespCodec;
pub use convert::{to_resp_array, FromResp, ToResp, ToRespInteger, ToRespString};
pub use error::Error;
pub use value::RespValue;
