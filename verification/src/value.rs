//! The protocol value and its mathematical model.

use crate::error::{Error, SpecError};
use vstd::prelude::*;

verus! {

/// A single RESP value. It owns the data that was read or is to be written.
#[derive(Debug, PartialEq, Eq)]
pub enum RespValue {
    /// Zero, one or more other values, in order.
    Array(Vec<RespValue>),
    /// A binary-safe string: any bytes at all.
    BulkString(Vec<u8>),
    /// An error reported by the peer.
    Error(String),
    /// A non-negative number.
    Integer(usize),
    /// A short status text.
    SimpleString(String),
}

/// The mathematical content of a [`RespValue`]: sequences in place of
/// vectors and strings, and a natural number in place of a `usize`.
#[verifier::ext_equal]
pub enum SpecValue {
    /// The contents of the items, in order.
    Array(Seq<SpecValue>),
    /// The bytes.
    BulkString(Seq<u8>),
    /// The characters of the error text.
    Error(Seq<char>),
    /// The number.
    Integer(nat),
    /// The characters of the status text.
    SimpleString(Seq<char>),
}

impl View for RespValue {
    type V = SpecValue;

    open spec fn view(&self) -> SpecValue
        decreases self,
    {
        match self {
            RespValue::Array(items) => SpecValue::Array(view_each(items@)),
            RespValue::BulkString(bytes) => SpecValue::BulkString(bytes@),
            RespValue::Error(text) => SpecValue::Error(text@),
            RespValue::Integer(n) => SpecValue::Integer(*n as nat),
            RespValue::SimpleString(text) => SpecValue::SimpleString(text@),
        }
    }
}

/// The contents of a run of values, one for one: as long as `items`, with
/// the content of `items[i]` at `i` (see [`lemma_view_each`]).
pub open spec fn view_each(items: Seq<RespValue>) -> Seq<SpecValue>
    decreases items,
{
    if items.len() == 0 {
        Seq::empty()
    } else {
        view_each(items.drop_last()).push(items.last().view())
    }
}

/// `view_each` keeps the length and maps every item to its content.
pub proof fn lemma_view_each(items: Seq<RespValue>)
    ensures
        view_each(items).len() == items.len(),
        forall|i: int| 0 <= i < items.len() ==> (#[trigger] view_each(items)[i]) == items[i]@,
    decreases items.len(),
{
    if items.len() > 0 {
        lemma_view_each(items.drop_last());
        assert(view_each(items) == view_each(items.drop_last()).push(items.last().view()));
    } else {
        assert(view_each(items) =~= Seq::<SpecValue>::empty());
    }
}

impl RespValue {
    /// Turns a value that is an error of the peer into a failure. Any other
    /// value passes through as it is.
    pub fn to_result(self) -> (r: Result<RespValue, Error>)
        ensures
            match self@ {
                SpecValue::Error(text) => r matches Err(e) && e@ == SpecError::Remote(text),
                _ => r matches Ok(value) && value@ == self@,
            },
    {
        match self {
            RespValue::Error(string) => Err(Error::Remote(string)),
            x => Ok(x),
        }
    }
}

impl Clone for RespValue {
    /// A deep copy: it has the same content as the value it was made from.
    fn clone(&self) -> (copy: RespValue)
        ensures
            copy@ == self@,
        decreases self,
    {
        match self {
            RespValue::Array(items) => {
                let mut copies: Vec<RespValue> = Vec::new();
                let mut i: usize = 0;
                while i < items.len()
                    invariant
                        decreases_to!(*self => *items),
                        i <= items.len(),
                        copies.len() == i,
                        forall|k: int| 0 <= k < i ==> (#[trigger] copies@[k])@ == items@[k]@,
                    decreases items.len() - i,
                {
                    assert(decreases_to!(*items => items[i as int]));
                    let copy = items[i].clone();
                    copies.push(copy);
                    i += 1;
                }
                let copy = RespValue::Array(copies);
                proof {
                    lemma_view_each(copies@);
                    lemma_view_each(items@);
                    assert(view_each(copies@) =~= view_each(items@));
                }
                copy
            },
            RespValue::BulkString(bytes) => RespValue::BulkString(bytes.clone()),
            RespValue::Error(text) => RespValue::Error(text.clone()),
            RespValue::Integer(n) => RespValue::Integer(*n),
            RespValue::SimpleString(text) => RespValue::SimpleString(text.clone()),
        }
    }
}

} // verus!
