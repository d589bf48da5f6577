//! Between protocol values and the types of an application.
//!
//! [`FromResp`] takes a concrete type out of a value that was received;
//! [`ToResp`], [`ToRespString`] and [`ToRespInteger`] make the value that is
//! to be sent.

use crate::decimal::{decimal_string, decimal_text};
use crate::error;
use crate::error::{Error, SpecError};
use crate::text::{read_text, text_of};
use crate::value::{lemma_view_each, view_each, RespValue, SpecValue};
use vstd::prelude::*;
use vstd::slice::slice_to_vec;
use vstd::string::StringExecFns;
use vstd::utf8::encode_utf8;

verus! {

/// A type that can be taken out of a protocol value.
pub trait FromResp: Sized {
    /// `out` is what taking this type out of `resp` gives.
    spec fn extracted(resp: SpecValue, out: Result<Self, Error>) -> bool;

    /// Takes this type out of `resp`. An error of the peer becomes a remote
    /// failure, whatever the type; any other value is handed to
    /// [`FromResp::from_resp_int`].
    fn from_resp(resp: RespValue) -> (out: Result<Self, Error>)
        ensures
            resp@ matches SpecValue::Error(text) ==> out matches Err(e) && e@
                == SpecError::Remote(text),
            !(resp@ is Error) ==> Self::extracted(resp@, out),
    {
        match resp.to_result() {
            Ok(value) => Self::from_resp_int(value),
            Err(e) => Err(e),
        }
    }

    /// Takes this type out of `resp`, by the type's own rule.
    fn from_resp_int(resp: RespValue) -> (out: Result<Self, Error>)
        ensures
            Self::extracted(resp@, out),
    ;
}

impl FromResp for RespValue {
    /// Any value is itself.
    open spec fn extracted(resp: SpecValue, out: Result<RespValue, Error>) -> bool {
        out matches Ok(value) && value@ == resp
    }

    fn from_resp_int(resp: RespValue) -> (out: Result<RespValue, Error>) {
        Ok(resp)
    }
}

impl FromResp for String {
    /// A bulk string is read as text, which never fails; an integer is
    /// written in decimal; a simple string is its text. An array or an error
    /// is no text.
    open spec fn extracted(resp: SpecValue, out: Result<String, Error>) -> bool {
        match resp {
            SpecValue::BulkString(bytes) => out matches Ok(text) && text@ == text_of(bytes),
            SpecValue::Integer(i) => out matches Ok(text) && text@ == decimal_text(i),
            SpecValue::SimpleString(string) => out matches Ok(text) && text@ == string,
            _ => out matches Err(e) && e@ == SpecError::Resp(
                "Cannot convert into a string"@,
                Some(resp),
            ),
        }
    }

    fn from_resp_int(resp: RespValue) -> (out: Result<String, Error>) {
        match resp {
            RespValue::BulkString(bytes) => Ok(read_text(bytes.as_slice())),
            RespValue::Integer(i) => Ok(decimal_string(i)),
            RespValue::SimpleString(string) => Ok(string),
            other => Err(error::resp("Cannot convert into a string", other)),
        }
    }
}

impl FromResp for usize {
    /// Only an integer is a number.
    open spec fn extracted(resp: SpecValue, out: Result<usize, Error>) -> bool {
        match resp {
            SpecValue::Error(string) => out matches Err(e) && e@ == SpecError::Remote(string),
            SpecValue::Integer(i) => out matches Ok(n) && n == i,
            _ => out matches Err(e) && e@ == SpecError::Resp(
                "Cannot be converted into a usize"@,
                Some(resp),
            ),
        }
    }

    fn from_resp_int(resp: RespValue) -> (out: Result<usize, Error>) {
        match resp {
            RespValue::Error(string) => Err(Error::Remote(string)),
            RespValue::Integer(i) => Ok(i),
            other => Err(error::resp("Cannot be converted into a usize", other)),
        }
    }
}

impl FromResp for () {
    /// Only the simple string `OK` is an acknowledgement. Any other simple
    /// string is refused with a message that quotes its text, and like every
    /// value of the wrong shape it goes with the error.
    open spec fn extracted(resp: SpecValue, out: Result<(), Error>) -> bool {
        match resp {
            SpecValue::Error(string) => out matches Err(e) && e@ == SpecError::Remote(string),
            SpecValue::SimpleString(string) => if string == "OK"@ {
                out is Ok
            } else {
                out matches Err(e) && e@ == SpecError::Resp(
                    "Unexpected value within SimpleString: "@ + string,
                    Some(resp),
                )
            },
            _ => out matches Err(e) && e@ == SpecError::Resp("Unexpected value"@, Some(resp)),
        }
    }

    fn from_resp_int(resp: RespValue) -> (out: Result<(), Error>) {
        match resp {
            RespValue::Error(string) => Err(Error::Remote(string)),
            RespValue::SimpleString(string) => {
                if string == String::from_str("OK") {
                    Ok(())
                } else {
                    let mut message = String::from_str("Unexpected value within SimpleString: ");
                    message.append(string.as_str());
                    Err(Error::RESP(message, Some(RespValue::SimpleString(string))))
                }
            },
            other => Err(error::resp("Unexpected value", other)),
        }
    }
}

/// A type that can be made into a protocol value.
pub trait ToResp {
    /// The content of the value that `self` is made into.
    spec fn resp_of(&self) -> SpecValue;

    /// The protocol value for `self`.
    fn to_resp(&self) -> (value: RespValue)
        ensures
            value@ == self.resp_of(),
    ;
}

/// A type that can be made into a bulk string.
pub trait ToRespString {
    /// The bytes of the bulk string that `self` is made into.
    spec fn bulk_of(&self) -> Seq<u8>;

    /// The bulk string for `self`: its bytes, as they are.
    fn to_resp_string(&self) -> (value: RespValue)
        ensures
            value@ == SpecValue::BulkString(self.bulk_of()),
    ;
}

impl ToRespString for String {
    /// The UTF-8 bytes of the text.
    open spec fn bulk_of(&self) -> Seq<u8> {
        encode_utf8(self@)
    }

    fn to_resp_string(&self) -> (value: RespValue) {
        RespValue::BulkString(slice_to_vec(self.as_str().as_bytes()))
    }
}

impl<'a> ToRespString for &'a str {
    /// The UTF-8 bytes of the text.
    open spec fn bulk_of(&self) -> Seq<u8> {
        encode_utf8(self@)
    }

    fn to_resp_string(&self) -> (value: RespValue) {
        RespValue::BulkString(slice_to_vec(self.as_bytes()))
    }
}

impl<'a> ToRespString for &'a [u8] {
    /// The bytes themselves.
    open spec fn bulk_of(&self) -> Seq<u8> {
        self@
    }

    fn to_resp_string(&self) -> (value: RespValue) {
        RespValue::BulkString(slice_to_vec(*self))
    }
}

impl ToRespString for Vec<u8> {
    /// The bytes themselves.
    open spec fn bulk_of(&self) -> Seq<u8> {
        self@
    }

    fn to_resp_string(&self) -> (value: RespValue) {
        RespValue::BulkString(self.clone())
    }
}

impl<T> ToResp for T where T: ToRespString {
    /// What can be made into a bulk string is made into that bulk string.
    open spec fn resp_of(&self) -> SpecValue {
        SpecValue::BulkString(self.bulk_of())
    }

    fn to_resp(&self) -> (value: RespValue) {
        self.to_resp_string()
    }
}

/// A type that can be made into an integer.
pub trait ToRespInteger {
    /// The number of the integer that `self` is made into.
    spec fn integer_of(&self) -> nat;

    /// The integer for `self`.
    fn to_resp_integer(&self) -> (value: RespValue)
        ensures
            value@ == SpecValue::Integer(self.integer_of()),
    ;
}

impl ToRespInteger for usize {
    /// The number itself.
    open spec fn integer_of(&self) -> nat {
        *self as nat
    }

    fn to_resp_integer(&self) -> (value: RespValue) {
        RespValue::Integer(*self)
    }
}

/// Makes an array out of a run of items: the value of each, in the same
/// order.
pub fn to_resp_array<T: ToResp>(data: &[T]) -> (value: RespValue)
    ensures
        value@ == SpecValue::Array(data@.map_values(|d: T| d.resp_of())),
{
    let mut values: Vec<RespValue> = Vec::new();
    let mut i: usize = 0;
    while i < data.len()
        invariant
            i <= data@.len(),
            values@.len() == i,
            forall|k: int| 0 <= k < i ==> (#[trigger] values@[k])@ == data@[k].resp_of(),
        decreases data@.len() - i,
    {
        values.push(data[i].to_resp());
        i += 1;
    }
    proof {
        lemma_view_each(values@);
        assert(view_each(values@) =~= data@.map_values(|d: T| d.resp_of()));
    }
    RespValue::Array(values)
}

impl<T: ToResp> From<T> for RespValue {
    /// The protocol value for `from`.
    fn from(from: T) -> (value: RespValue)
        ensures
            value@ == from.resp_of(),
    {
        from.to_resp()
    }
}

/// What `from` gives is stated over contents, in its own `ensures`; the
/// value itself is not named.
impl<T: ToResp> vstd::std_specs::convert::FromSpecImpl<T> for RespValue {
    open spec fn obeys_from_spec() -> bool {
        false
    }

    open spec fn from_spec(from: T) -> RespValue {
        arbitrary()
    }
}

} // verus!
