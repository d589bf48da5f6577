//! The encoder: from a value to its bytes on the wire.

use crate::buffer::{append, held, remaining_mut, reserve};
use crate::decimal::{decimal_bytes, decimal_len};
use crate::value::{lemma_view_each, view_each, RespValue, SpecValue};
use crate::wire::{
    crlf, header, lemma_wire_each_take, line, wire, wire_each, CR, LF, TAG_ARRAY, TAG_BULK,
    TAG_ERROR, TAG_INTEGER, TAG_SIMPLE,
};
use bytes::BytesMut;
use vstd::prelude::*;

verus! {

/// Appends a line end.
fn write_rn(buf: &mut BytesMut)
    requires
        held(*old(buf)).len() + 2 <= usize::MAX,
    ensures
        held(*final(buf)) == held(*old(buf)) + crlf(),
{
    let rn = [CR, LF];
    append(buf, &rn);
    assert(rn@ =~= crlf());
}

/// Makes sure that `amt` more bytes fit without another allocation.
fn check_and_reserve(buf: &mut BytesMut, amt: usize)
    requires
        held(*old(buf)).len() + amt <= usize::MAX,
    ensures
        held(*final(buf)) == held(*old(buf)),
{
    let remaining_bytes: usize = remaining_mut(buf);
    if remaining_bytes < amt {
        reserve(buf, amt);
    }
}

/// Appends a tag, a number in decimal and a line end.
fn write_header(symb: u8, len: usize, buf: &mut BytesMut)
    requires
        held(*old(buf)).len() + header(symb, len as nat).len() <= usize::MAX,
    ensures
        held(*final(buf)) == held(*old(buf)) + header(symb, len as nat),
{
    let len_as_bytes = decimal_bytes(len);
    let header_bytes: usize = 1 + len_as_bytes.len() + 2;
    check_and_reserve(buf, header_bytes);
    let tag = [symb];
    append(buf, &tag);
    append(buf, len_as_bytes.as_slice());
    write_rn(buf);
    assert(held(*buf) =~= held(*old(buf)) + header(symb, len as nat));
}

/// Appends a tag, the bytes of a text and a line end.
fn write_simple_string(symb: u8, string: &str, buf: &mut BytesMut)
    requires
        held(*old(buf)).len() + line(symb, string@).len() <= usize::MAX,
    ensures
        held(*final(buf)) == held(*old(buf)) + line(symb, string@),
{
    let bytes = string.as_bytes();
    let size: usize = 1 + bytes.len() + 2;
    check_and_reserve(buf, size);
    let tag = [symb];
    append(buf, &tag);
    append(buf, bytes);
    write_rn(buf);
    assert(held(*buf) =~= held(*old(buf)) + line(symb, string@));
}

/// `items` are the contents of `ary`, the items of an array with the
/// content `array`, and the array's frame is the header with their count
/// and then their frames.
pub open spec fn array_of(array: SpecValue, ary: Seq<RespValue>, items: Seq<SpecValue>) -> bool {
    &&& items.len() == ary.len()
    &&& forall|k: int| 0 <= k < ary.len() ==> (#[trigger] items[k]) == ary[k]@
    &&& wire(array) == header(TAG_ARRAY, items.len()) + wire_each(items)
}

/// The contents of an array's items are the items of its content, and of
/// their frames none has been taken yet.
proof fn lemma_array_frame(ary: Vec<RespValue>)
    ensures
        array_of(RespValue::Array(ary)@, ary@, view_each(ary@)),
        wire_each(view_each(ary@).take(0)) == Seq::<u8>::empty(),
{
    let items = view_each(ary@);
    lemma_view_each(ary@);
    assert(wire(RespValue::Array(ary)@) == header(TAG_ARRAY, items.len()) + wire_each(items));
    assert(items.take(0) =~= Seq::<SpecValue>::empty());
    assert(wire_each(items.take(0)) =~= Seq::<u8>::empty());
}

/// Appends the frame of `msg`.
pub fn write_value(msg: &RespValue, buf: &mut BytesMut)
    requires
        held(*old(buf)).len() + wire(msg@).len() <= usize::MAX,
    ensures
        held(*final(buf)) == held(*old(buf)) + wire(msg@),
    decreases msg,
{
    match msg {
        RespValue::Array(ary) => {
            let ghost items = view_each(ary@);
            proof {
                lemma_array_frame(*ary);
            }
            write_header(TAG_ARRAY, ary.len(), buf);
            let mut i: usize = 0;
            while i < ary.len()
                invariant
                    decreases_to!(*msg => *ary),
                    i <= ary.len(),
                    array_of(msg@, ary@, items),
                    held(*old(buf)).len() + wire(msg@).len() <= usize::MAX,
                    held(*buf) == held(*old(buf)) + header(TAG_ARRAY, items.len()) + wire_each(
                        items.take(i as int),
                    ),
                decreases ary.len() - i,
            {
                proof {
                    lemma_wire_each_take(items, i as int);
                }
                assert(decreases_to!(*ary => ary[i as int]));
                write_value(&ary[i], buf);
                i += 1;
                assert(held(*buf) =~= held(*old(buf)) + header(TAG_ARRAY, items.len()) + wire_each(
                    items.take(i as int),
                ));
            }
            assert(items.take(i as int) =~= items);
            assert(held(*buf) =~= held(*old(buf)) + wire(msg@));
        },
        RespValue::BulkString(bstr) => {
            let len: usize = bstr.len();
            assert(wire(msg@) == header(TAG_BULK, bstr@.len()) + bstr@ + crlf());
            write_header(TAG_BULK, len, buf);
            check_and_reserve(buf, len + 2);
            append(buf, bstr.as_slice());
            write_rn(buf);
            assert(held(*buf) =~= held(*old(buf)) + wire(msg@));
        },
        RespValue::Error(string) => {
            write_simple_string(TAG_ERROR, string.as_str(), buf);
        },
        RespValue::Integer(val) => {
            // An integer frame is just a header.
            write_header(TAG_INTEGER, *val, buf);
        },
        RespValue::SimpleString(string) => {
            write_simple_string(TAG_SIMPLE, string.as_str(), buf);
        },
    }
}

/// The length of a tag, a number in decimal and a line end, where it fits in
/// a `usize`.
fn header_len(n: usize) -> (len: Option<usize>)
    ensures
        forall|tag: u8|
            len matches Some(l) ==> l == (#[trigger] header(tag, n as nat)).len(),
        forall|tag: u8| len is None ==> (#[trigger] header(tag, n as nat)).len() > usize::MAX,
{
    decimal_len(n).checked_add(3)
}

/// The length of a tag, the bytes of a text and a line end, where it fits in
/// a `usize`.
fn line_len(text: &str) -> (len: Option<usize>)
    ensures
        forall|tag: u8| len matches Some(l) ==> l == (#[trigger] line(tag, text@)).len(),
        forall|tag: u8| len is None ==> (#[trigger] line(tag, text@)).len() > usize::MAX,
{
    text.as_bytes().len().checked_add(3)
}

/// The length of the frame of `msg`, or `None` where the frame is longer
/// than a `usize` can say.
pub fn wire_len(msg: &RespValue) -> (len: Option<usize>)
    ensures
        len is Some <==> wire(msg@).len() <= usize::MAX,
        len matches Some(n) ==> n == wire(msg@).len(),
    decreases msg,
{
    match msg {
        RespValue::Array(ary) => {
            let ghost items = view_each(ary@);
            proof {
                lemma_array_frame(*ary);
            }
            let mut total: usize = match header_len(ary.len()) {
                Some(l) => l,
                None => {
                    return None;
                },
            };
            let mut i: usize = 0;
            while i < ary.len()
                invariant
                    decreases_to!(*msg => *ary),
                    i <= ary.len(),
                    array_of(msg@, ary@, items),
                    total == header(TAG_ARRAY, items.len()).len() + wire_each(
                        items.take(i as int),
                    ).len(),
                decreases ary.len() - i,
            {
                proof {
                    lemma_wire_each_take(items, i as int);
                }
                assert(decreases_to!(*ary => ary[i as int]));
                let item_len: usize = match wire_len(&ary[i]) {
                    Some(l) => l,
                    None => {
                        return None;
                    },
                };
                total = match total.checked_add(item_len) {
                    Some(t) => t,
                    None => {
                        return None;
                    },
                };
                i += 1;
            }
            assert(items.take(i as int) =~= items);
            Some(total)
        },
        RespValue::BulkString(bstr) => {
            assert(wire(msg@) == header(TAG_BULK, bstr@.len()) + bstr@ + crlf());
            let head: usize = match header_len(bstr.len()) {
                Some(l) => l,
                None => {
                    return None;
                },
            };
            let body: usize = match bstr.len().checked_add(2) {
                Some(l) => l,
                None => {
                    return None;
                },
            };
            head.checked_add(body)
        },
        RespValue::Error(string) => line_len(string.as_str()),
        RespValue::Integer(val) => header_len(*val),
        RespValue::SimpleString(string) => line_len(string.as_str()),
    }
}

} // verus!
