//! The failures that reading and converting protocol values can end in.

use crate::value::{RespValue, SpecValue};
use vstd::prelude::*;
use vstd::string::StringExecFns;

verus! {

/// What went wrong while a value was decoded or converted.
#[derive(Debug, PartialEq, Eq)]
pub enum Error {
    /// The bytes, or the value, did not have the expected shape: a
    /// diagnostic message and, where there is one, the offending value.
    RESP(String, Option<RespValue>),
    /// The peer answered with an error; this is its text.
    Remote(String),
}

/// The mathematical content of an [`Error`].
#[verifier::ext_equal]
pub enum SpecError {
    /// The message, and the content of the value where there is one.
    Resp(Seq<char>, Option<SpecValue>),
    /// The text of the peer's error.
    Remote(Seq<char>),
}

impl View for Error {
    type V = SpecError;

    open spec fn view(&self) -> SpecError {
        match self {
            Error::RESP(message, value) => SpecError::Resp(
                message@,
                match value {
                    Some(v) => Some(v@),
                    None => None,
                },
            ),
            Error::Remote(text) => SpecError::Remote(text@),
        }
    }
}

impl Clone for Error {
    /// A copy with the same content.
    fn clone(&self) -> (copy: Error)
        ensures
            copy@ == self@,
    {
        match self {
            Error::RESP(message, value) => Error::RESP(
                message.clone(),
                match value {
                    Some(v) => Some(v.clone()),
                    None => None,
                },
            ),
            Error::Remote(text) => Error::Remote(text.clone()),
        }
    }
}

/// The error for a value that has not the shape that was asked for: the
/// message, and the value.
pub fn resp(msg: &str, value: RespValue) -> (e: Error)
    ensures
        e@ == SpecError::Resp(msg@, Some(value@)),
{
    Error::RESP(String::from_str(msg), Some(value))
}

} // verus!
