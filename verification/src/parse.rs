//! Reading the wire format, as mathematics: what a buffer's bytes, from a
//! position on, stand for.
//!
//! Reading one frame ends in one of three ways, see [`Parsed`]. The functions
//! here say which, for every buffer and position; the decoder computes them.

use crate::decimal::{decimal_text, decimal_value, is_digit};
use crate::error::SpecError;
use crate::text::text_of;
use crate::value::SpecValue;
use crate::wire::{CR, LF, TAG_ARRAY, TAG_BULK, TAG_ERROR, TAG_INTEGER, TAG_SIMPLE};
use vstd::prelude::*;

verus! {

/// Why bytes cannot be, or begin, a frame.
pub enum Fault {
    /// A frame must begin here, and this byte is no tag.
    Tag(u8),
    /// This byte stands in a number where only a digit or the line end may.
    Size(u8),
    /// The number has no digits, or is too large for a `usize`.
    Number,
}

/// How reading one item ends.
pub enum Parsed<T> {
    /// The bytes may be the beginning of an item; more are needed to tell.
    Incomplete,
    /// The bytes cannot be the beginning of an item.
    Malformed(Fault),
    /// The item, and the position of the first byte after it.
    Complete(T, int),
}

impl Fault {
    /// The diagnostic message of the fault.
    pub open spec fn message(self) -> Seq<char> {
        match self {
            Fault::Tag(byte) => "Unexpected byte: "@ + decimal_text(byte as nat),
            Fault::Size(byte) => "Unexpected byte in size_string: "@ + decimal_text(byte as nat),
            Fault::Number => "Not an integer"@,
        }
    }

    /// The error that reports the fault: its message, and no value.
    pub open spec fn error(self) -> SpecError {
        SpecError::Resp(self.message(), None)
    }
}

/// The first position at or after `pos` that holds no digit; the length of
/// `bytes` where digits run to the end.
pub open spec fn digits_end(bytes: Seq<u8>, pos: int) -> int
    decreases bytes.len() - pos,
{
    if 0 <= pos < bytes.len() && is_digit(bytes[pos]) {
        digits_end(bytes, pos + 1)
    } else {
        pos
    }
}

/// Reads a run of digits and the line end after it. The item is the run of
/// digits, which may be empty.
pub open spec fn parse_size(bytes: Seq<u8>, idx: int) -> Parsed<Seq<u8>> {
    let end = digits_end(bytes, idx);
    if end >= bytes.len() {
        Parsed::Incomplete
    } else if bytes[end] != CR {
        Parsed::Malformed(Fault::Size(bytes[end]))
    } else if end + 1 >= bytes.len() {
        Parsed::Incomplete
    } else if bytes[end + 1] != LF {
        Parsed::Malformed(Fault::Size(bytes[end + 1]))
    } else {
        Parsed::Complete(bytes.subrange(idx, end), end + 2)
    }
}

/// Reads a number and the line end after it. The number has at least one
/// digit and fits in a `usize`.
pub open spec fn parse_number(bytes: Seq<u8>, idx: int) -> Parsed<nat> {
    match parse_size(bytes, idx) {
        Parsed::Incomplete => Parsed::Incomplete,
        Parsed::Malformed(fault) => Parsed::Malformed(fault),
        Parsed::Complete(digits, next) => if digits.len() == 0 || decimal_value(digits)
            > usize::MAX {
            Parsed::Malformed(Fault::Number)
        } else {
            Parsed::Complete(decimal_value(digits), next)
        },
    }
}

/// The position of the first line end that begins at or after `pos`, if
/// `bytes` hold one.
pub open spec fn line_end(bytes: Seq<u8>, pos: int) -> Option<int>
    decreases bytes.len() - pos,
{
    if pos < 0 || pos + 1 >= bytes.len() {
        None
    } else if bytes[pos] == CR && bytes[pos + 1] == LF {
        Some(pos)
    } else {
        line_end(bytes, pos + 1)
    }
}

/// Reads a text up to the first line end. The text may hold any bytes that
/// form no line end.
pub open spec fn parse_text(bytes: Seq<u8>, idx: int) -> Parsed<Seq<char>> {
    match line_end(bytes, idx) {
        None => Parsed::Incomplete,
        Some(end) => Parsed::Complete(text_of(bytes.subrange(idx, end)), end + 2),
    }
}

/// Reads the rest of a bulk string frame, after its tag: the length, the
/// line end, that many bytes and two more, which are not looked at.
pub open spec fn parse_bulk_string(bytes: Seq<u8>, idx: int) -> Parsed<SpecValue> {
    match parse_number(bytes, idx) {
        Parsed::Incomplete => Parsed::Incomplete,
        Parsed::Malformed(fault) => Parsed::Malformed(fault),
        Parsed::Complete(size, pos) => if bytes.len() - pos < size + 2 {
            Parsed::Incomplete
        } else {
            Parsed::Complete(
                SpecValue::BulkString(bytes.subrange(pos, pos + size)),
                pos + size + 2,
            )
        },
    }
}

/// Reads the rest of an integer frame, after its tag.
pub open spec fn parse_integer(bytes: Seq<u8>, idx: int) -> Parsed<SpecValue> {
    match parse_number(bytes, idx) {
        Parsed::Incomplete => Parsed::Incomplete,
        Parsed::Malformed(fault) => Parsed::Malformed(fault),
        Parsed::Complete(n, next) => Parsed::Complete(SpecValue::Integer(n), next),
    }
}

/// Reads the rest of a simple string frame, after its tag.
pub open spec fn parse_simple_string(bytes: Seq<u8>, idx: int) -> Parsed<SpecValue> {
    match parse_text(bytes, idx) {
        Parsed::Incomplete => Parsed::Incomplete,
        Parsed::Malformed(fault) => Parsed::Malformed(fault),
        Parsed::Complete(text, next) => Parsed::Complete(SpecValue::SimpleString(text), next),
    }
}

/// Reads the rest of an error frame, after its tag.
pub open spec fn parse_error_frame(bytes: Seq<u8>, idx: int) -> Parsed<SpecValue> {
    match parse_text(bytes, idx) {
        Parsed::Incomplete => Parsed::Incomplete,
        Parsed::Malformed(fault) => Parsed::Malformed(fault),
        Parsed::Complete(text, next) => Parsed::Complete(SpecValue::Error(text), next),
    }
}

/// Reads one frame that begins at `idx`.
pub open spec fn parse(bytes: Seq<u8>, idx: int) -> Parsed<SpecValue>
    decreases bytes.len() - idx, 1nat, 0nat,
{
    if idx < 0 || idx >= bytes.len() {
        Parsed::Incomplete
    } else if bytes[idx] == TAG_BULK {
        parse_bulk_string(bytes, idx + 1)
    } else if bytes[idx] == TAG_ARRAY {
        parse_array(bytes, idx + 1)
    } else if bytes[idx] == TAG_INTEGER {
        parse_integer(bytes, idx + 1)
    } else if bytes[idx] == TAG_SIMPLE {
        parse_simple_string(bytes, idx + 1)
    } else if bytes[idx] == TAG_ERROR {
        parse_error_frame(bytes, idx + 1)
    } else {
        Parsed::Malformed(Fault::Tag(bytes[idx]))
    }
}

/// Reads the rest of an array frame, after its tag: the count, the line end
/// and that many frames.
///
/// The test on `pos` is there for termination only: a number always ends
/// after it began and within the bytes, see [`lemma_parse_number_advances`].
pub open spec fn parse_array(bytes: Seq<u8>, idx: int) -> Parsed<SpecValue>
    decreases bytes.len() - idx, 0nat, 0nat,
{
    match parse_number(bytes, idx) {
        Parsed::Incomplete => Parsed::Incomplete,
        Parsed::Malformed(fault) => Parsed::Malformed(fault),
        Parsed::Complete(count, pos) => if idx < pos <= bytes.len() {
            match parse_items(bytes, pos, count) {
                Parsed::Incomplete => Parsed::Incomplete,
                Parsed::Malformed(fault) => Parsed::Malformed(fault),
                Parsed::Complete(items, next) => Parsed::Complete(SpecValue::Array(items), next),
            }
        } else {
            Parsed::Incomplete
        },
    }
}

/// Reads `count` frames, one after the other, the first at `pos`.
///
/// The test on `next` is there for termination only: a frame always ends
/// after its first byte and within the bytes, see [`lemma_parse_advances`].
pub open spec fn parse_items(bytes: Seq<u8>, pos: int, count: nat) -> Parsed<Seq<SpecValue>>
    decreases bytes.len() - pos, 2nat, count,
{
    if count == 0 {
        Parsed::Complete(Seq::empty(), pos)
    } else {
        match parse(bytes, pos) {
            Parsed::Incomplete => Parsed::Incomplete,
            Parsed::Malformed(fault) => Parsed::Malformed(fault),
            Parsed::Complete(first, next) => if pos < next <= bytes.len() {
                match parse_items(bytes, next, (count - 1) as nat) {
                    Parsed::Incomplete => Parsed::Incomplete,
                    Parsed::Malformed(fault) => Parsed::Malformed(fault),
                    Parsed::Complete(rest, end) => Parsed::Complete(seq![first] + rest, end),
                }
            } else {
                Parsed::Incomplete
            },
        }
    }
}

/// Puts the items that were read before a run of frames in front of what
/// reading that run gives.
pub open spec fn after(done: Seq<SpecValue>, rest: Parsed<Seq<SpecValue>>) -> Parsed<
    Seq<SpecValue>,
> {
    match rest {
        Parsed::Complete(items, next) => Parsed::Complete(done + items, next),
        other => other,
    }
}

/// With nothing read before it, reading a run gives what it gives; and
/// with no frame left to read, what was read before is all.
pub proof fn lemma_parse_items_ends(bytes: Seq<u8>, pos: int, count: nat, done: Seq<SpecValue>)
    ensures
        after(Seq::empty(), parse_items(bytes, pos, count)) == parse_items(bytes, pos, count),
        after(done, parse_items(bytes, pos, 0)) == Parsed::Complete(done, pos),
{
    match parse_items(bytes, pos, count) {
        Parsed::Complete(items, next) => {
            assert(Seq::<SpecValue>::empty() + items =~= items);
        },
        _ => {},
    }
    assert(parse_items(bytes, pos, 0) == Parsed::Complete(Seq::<SpecValue>::empty(), pos));
    assert(done + Seq::<SpecValue>::empty() =~= done);
}

/// Reading a run of frames is reading its first frame and then the rest,
/// with the first item in front of the others.
pub proof fn lemma_parse_items_first(bytes: Seq<u8>, pos: int, count: nat)
    requires
        count > 0,
    ensures
        parse_items(bytes, pos, count) == (match parse(bytes, pos) {
            Parsed::Incomplete => Parsed::Incomplete,
            Parsed::Malformed(fault) => Parsed::Malformed(fault),
            Parsed::Complete(first, next) => after(
                seq![first],
                parse_items(bytes, next, (count - 1) as nat),
            ),
        }),
{
    lemma_parse_advances(bytes, pos);
}

/// One step of reading a run of frames: where the first frame is read, it
/// joins the items read before; where it is not, the run ends as the frame
/// did.
pub proof fn lemma_parse_items_step(bytes: Seq<u8>, pos: int, count: nat, done: Seq<SpecValue>)
    requires
        count > 0,
    ensures
        match parse(bytes, pos) {
            Parsed::Incomplete => parse_items(bytes, pos, count) == Parsed::<
                Seq<SpecValue>,
            >::Incomplete,
            Parsed::Malformed(fault) => parse_items(bytes, pos, count) == Parsed::<
                Seq<SpecValue>,
            >::Malformed(fault),
            Parsed::Complete(first, next) => after(done, parse_items(bytes, pos, count)) == after(
                done.push(first),
                parse_items(bytes, next, (count - 1) as nat),
            ),
        },
{
    lemma_parse_items_first(bytes, pos, count);
    match parse(bytes, pos) {
        Parsed::Complete(first, next) => {
            match parse_items(bytes, next, (count - 1) as nat) {
                Parsed::Complete(more, end) => {
                    assert(done + (seq![first] + more) =~= done.push(first) + more);
                },
                _ => {},
            }
        },
        _ => {},
    }
}

/// From `pos` up to `digits_end` there are digits only, and `digits_end`
/// lies within the bytes.
pub proof fn lemma_digits_end(bytes: Seq<u8>, pos: int)
    requires
        0 <= pos <= bytes.len(),
    ensures
        pos <= digits_end(bytes, pos) <= bytes.len(),
        forall|k: int| pos <= k < digits_end(bytes, pos) ==> is_digit(#[trigger] bytes[k]),
        digits_end(bytes, pos) < bytes.len() ==> !is_digit(bytes[digits_end(bytes, pos)]),
    decreases bytes.len() - pos,
{
    if pos < bytes.len() && is_digit(bytes[pos]) {
        lemma_digits_end(bytes, pos + 1);
    }
}

/// A number that was read ends after it began, within the bytes: it takes
/// its digits and the line end.
pub proof fn lemma_parse_number_advances(bytes: Seq<u8>, idx: int)
    requires
        0 <= idx,
    ensures
        parse_number(bytes, idx) matches Parsed::Complete(n, next) ==> idx + 3 <= next
            <= bytes.len() && n <= usize::MAX,
{
    if idx <= bytes.len() {
        lemma_digits_end(bytes, idx);
    }
}

/// A text that was read ends after it began, within the bytes.
pub proof fn lemma_line_end(bytes: Seq<u8>, pos: int)
    ensures
        line_end(bytes, pos) matches Some(end) ==> 0 <= pos <= end && end + 2 <= bytes.len()
            && bytes[end] == CR && bytes[end + 1] == LF,
    decreases bytes.len() - pos,
{
    if pos < 0 || pos + 1 >= bytes.len() {
    } else if bytes[pos] == CR && bytes[pos + 1] == LF {
    } else {
        lemma_line_end(bytes, pos + 1);
    }
}

/// A frame that was read ends after its first byte, within the bytes.
pub proof fn lemma_parse_advances(bytes: Seq<u8>, idx: int)
    ensures
        parse(bytes, idx) matches Parsed::Complete(v, next) ==> 0 <= idx < next <= bytes.len(),
    decreases bytes.len() - idx, 1nat, 0nat,
{
    if idx < 0 || idx >= bytes.len() {
    } else if bytes[idx] == TAG_BULK {
        lemma_parse_number_advances(bytes, idx + 1);
    } else if bytes[idx] == TAG_ARRAY {
        lemma_parse_array_advances(bytes, idx + 1);
    } else if bytes[idx] == TAG_INTEGER {
        lemma_parse_number_advances(bytes, idx + 1);
    } else if bytes[idx] == TAG_SIMPLE {
        lemma_line_end(bytes, idx + 1);
    } else if bytes[idx] == TAG_ERROR {
        lemma_line_end(bytes, idx + 1);
    } else {
    }
}

/// The rest of an array frame that was read ends after it began, within the
/// bytes.
pub proof fn lemma_parse_array_advances(bytes: Seq<u8>, idx: int)
    requires
        0 <= idx,
    ensures
        parse_array(bytes, idx) matches Parsed::Complete(v, next) ==> idx < next <= bytes.len(),
    decreases bytes.len() - idx, 0nat, 0nat,
{
    lemma_parse_number_advances(bytes, idx);
    match parse_number(bytes, idx) {
        Parsed::Complete(count, pos) => {
            lemma_parse_items_advances(bytes, pos, count);
        },
        _ => {},
    }
}

/// A run of frames that was read ends no earlier than it began, within the
/// bytes, and has as many items as were asked for.
pub proof fn lemma_parse_items_advances(bytes: Seq<u8>, pos: int, count: nat)
    requires
        0 <= pos <= bytes.len(),
    ensures
        parse_items(bytes, pos, count) matches Parsed::Complete(items, next) ==> pos <= next
            <= bytes.len() && items.len() == count,
    decreases bytes.len() - pos, 2nat, count,
{
    if count > 0 {
        lemma_parse_advances(bytes, pos);
        match parse(bytes, pos) {
            Parsed::Complete(first, next) => {
                lemma_parse_items_advances(bytes, next, (count - 1) as nat);
            },
            _ => {},
        }
    }
}

} // verus!
