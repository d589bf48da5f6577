//! The codec: the streaming interface over a byte buffer.

use crate::buffer::{as_slice, held, split_to};
use crate::decode::decode;
use crate::encode::{wire_len, write_value};
use crate::error::Error;
use crate::parse::{lemma_parse_advances, parse, Parsed};
use crate::value::RespValue;
use crate::wire::wire;
use bytes::BytesMut;
use vstd::prelude::*;

verus! {

/// `std::io::Error`, taken as it is: nothing is known of such an error.
#[verifier::external_type_specification]
#[verifier::external_body]
pub struct ExIoError(std::io::Error);

/// `std::io::Error::from` on `ErrorKind::OutOfMemory`: the fault that
/// [`RespCodec::encode`] reports when a frame cannot be added to the buffer.
/// An I/O error is opaque here, so nothing is said of it.
#[verifier::external_body]
fn out_of_memory() -> (fault: std::io::Error) {
    std::io::Error::from(std::io::ErrorKind::OutOfMemory)
}

/// Reads frames from a buffer and writes frames to a buffer. The codec keeps
/// no state of its own between calls.
pub struct RespCodec;

impl RespCodec {
    /// Appends the frame of `msg` to `buf`.
    ///
    /// This fails only where the buffer and the frame together would be longer
    /// than any buffer can be; the buffer is then left as it was.
    pub fn encode(&mut self, msg: RespValue, buf: &mut BytesMut) -> (done: Result<
        (),
        std::io::Error,
    >)
        ensures
            done is Ok <==> held(*old(buf)).len() + wire(msg@).len() <= usize::MAX,
            done is Ok ==> held(*final(buf)) == held(*old(buf)) + wire(msg@),
            done is Err ==> held(*final(buf)) == held(*old(buf)),
    {
        let fits = match wire_len(&msg) {
            Some(len) => as_slice(buf).len().checked_add(len).is_some(),
            None => false,
        };
        if fits {
            write_value(&msg, buf);
            Ok(())
        } else {
            Err(out_of_memory())
        }
    }

    /// Reads one frame from the front of `buf`.
    ///
    /// Where `buf` holds a whole frame, the frame's bytes leave the buffer and
    /// its value is handed out. Where bytes are missing the answer is
    /// `Ok(None)`, and where the bytes break the protocol it is the error; the
    /// buffer is then left as it was.
    pub fn decode(&mut self, buf: &mut BytesMut) -> (found: Result<Option<RespValue>, Error>)
        ensures
            match parse(held(*old(buf)), 0) {
                Parsed::Incomplete => found matches Ok(None) && held(*final(buf)) == held(
                    *old(buf),
                ),
                Parsed::Malformed(fault) => found matches Err(e) && e@ == fault.error() && held(
                    *final(buf),
                ) == held(*old(buf)),
                Parsed::Complete(value, next) => found matches Ok(Some(item)) && item@ == value
                    && held(*final(buf)) == held(*old(buf)).skip(next),
            },
    {
        proof {
            lemma_parse_advances(held(*old(buf)), 0);
        }
        let decoded = decode(as_slice(buf), 0);
        match decoded {
            Ok(None) => Ok(None),
            Ok(Some((pos, item))) => {
                split_to(buf, pos);
                Ok(Some(item))
            },
            Err(e) => Err(e),
        }
    }
}

} // verus!
