//! The decoder: from the bytes in a buffer to a value.
//!
//! Every function here reads from a position in a buffer that it does not
//! change, and says where the next item begins. Nothing is kept between
//! calls: where bytes are missing, the answer is `Ok(None)`, and the caller
//! asks again from the same position once more bytes have arrived.

use crate::decimal::{decimal_string, parse_decimal};
use crate::error::{Error, SpecError};
use crate::parse::{
    after, digits_end, lemma_digits_end, lemma_parse_advances, lemma_parse_items_ends,
    lemma_parse_items_step, lemma_parse_number_advances, line_end, parse, parse_array,
    parse_bulk_string, parse_error_frame, parse_integer, parse_items, parse_number,
    parse_simple_string, parse_size, parse_text, Fault, Parsed,
};
use crate::text::read_text;
use crate::value::{view_each, RespValue, SpecValue};
use crate::wire::{CR, LF, TAG_ARRAY, TAG_BULK, TAG_ERROR, TAG_INTEGER, TAG_SIMPLE};
use vstd::prelude::*;
use vstd::slice::{slice_subrange, slice_to_vec};
use vstd::string::StringExecFns;

verus! {

/// What decoding one value gives: the position after the value and the
/// value, `None` where bytes are missing, or the error.
pub type DecodeResult = Result<Option<(usize, RespValue)>, Error>;

/// `got` is what the decoder answers when reading ends as `want` says:
/// `Ok(None)` for missing bytes, the fault's error for malformed bytes, and
/// else the position and the item.
pub open spec fn agrees<T: View>(got: Result<Option<(usize, T)>, Error>, want: Parsed<T::V>) -> bool {
    match want {
        Parsed::Incomplete => got matches Ok(None),
        Parsed::Malformed(fault) => got matches Err(e) && e@ == fault.error(),
        Parsed::Complete(item, next) => got matches Ok(Some((pos, t))) && pos == next && t@
            == item,
    }
}

/// The error for bytes that break the protocol: a message, and no value.
pub fn parse_error(message: String) -> (e: Error)
    ensures
        e@ == SpecError::Resp(message@, None),
{
    Error::RESP(message, None)
}

/// The error for a byte that is no tag.
fn tag_fault(byte: u8) -> (e: Error)
    ensures
        e@ == Fault::Tag(byte).error(),
{
    let mut message = String::from_str("Unexpected byte: ");
    message.append(decimal_string(byte as usize).as_str());
    parse_error(message)
}

/// The error for a byte that has no place in a number.
fn size_fault(byte: u8) -> (e: Error)
    ensures
        e@ == Fault::Size(byte).error(),
{
    let mut message = String::from_str("Unexpected byte in size_string: ");
    message.append(decimal_string(byte as usize).as_str());
    parse_error(message)
}

/// The error for a number without digits, or too large.
fn number_fault() -> (e: Error)
    ensures
        e@ == Fault::Number.error(),
{
    parse_error(String::from_str("Not an integer"))
}

/// Looks for a run of digits that a line end follows, from `idx` on.
///
/// Many frames give a length, or a count, in decimal digits before a line
/// end. The digits are handed back only when the line end is there too; it
/// is not part of them.
pub fn scan_integer<'a>(buf: &'a [u8], idx: usize) -> (found: Result<
    Option<(usize, &'a [u8])>,
    Error,
>)
    ensures
        agrees(found, parse_size(buf@, idx as int)),
{
    let length: usize = buf.len();
    let mut at_end = false;
    let mut pos: usize = idx;
    loop
        invariant
            length == buf@.len(),
            idx <= pos,
            !at_end ==> digits_end(buf@, idx as int) == digits_end(buf@, pos as int),
            at_end ==> idx < pos <= length && digits_end(buf@, idx as int) == pos - 1 && buf@[pos
                - 1] == CR,
        decreases length - pos,
    {
        if length <= pos {
            return Ok(None);
        }
        let byte: u8 = buf[pos];
        if at_end {
            if byte == LF {
                return Ok(Some((pos + 1, slice_subrange(buf, idx, pos - 1))));
            } else {
                return Err(size_fault(byte));
            }
        } else if byte == CR {
            at_end = true;
        } else if byte < 48 || 57 < byte {
            return Err(size_fault(byte));
        }
        pos += 1;
    }
}

/// Looks for a text that a line end follows, from `idx` on. The text is
/// whatever stands before the first line end.
pub fn scan_string(buf: &[u8], idx: usize) -> (found: Option<(usize, String)>)
    ensures
        agrees(Ok(found), parse_text(buf@, idx as int)),
{
    let length: usize = buf.len();
    let mut at_end = false;
    let mut pos: usize = idx;
    loop
        invariant
            length == buf@.len(),
            idx <= pos,
            !at_end ==> line_end(buf@, idx as int) == line_end(buf@, pos as int),
            at_end ==> idx < pos <= length && line_end(buf@, idx as int) == line_end(
                buf@,
                pos - 1,
            ) && buf@[pos - 1] == CR,
        decreases length - pos,
    {
        if length <= pos {
            return None;
        }
        let byte: u8 = buf[pos];
        if at_end && byte == LF {
            let value = read_text(slice_subrange(buf, idx, pos - 1));
            return Some((pos + 1, value));
        }
        proof {
            if at_end {
                assert(line_end(buf@, pos - 1) == line_end(buf@, pos as int));
            }
            if byte != CR {
                assert(line_end(buf@, pos as int) == line_end(buf@, pos + 1));
            }
        }
        at_end = byte == CR;
        pos += 1;
    }
}

/// Reads a number and its line end, from `idx` on.
pub fn decode_raw_integer(buf: &[u8], idx: usize) -> (found: Result<Option<(usize, usize)>, Error>)
    ensures
        match parse_number(buf@, idx as int) {
            Parsed::Incomplete => found matches Ok(None),
            Parsed::Malformed(fault) => found matches Err(e) && e@ == fault.error(),
            Parsed::Complete(n, next) => found matches Ok(Some((pos, number))) && pos == next
                && number == n,
        },
{
    match scan_integer(buf, idx) {
        Ok(None) => Ok(None),
        Ok(Some((pos, int_str))) => {
            proof {
                lemma_digits_end(buf@, idx as int);
            }
            match parse_decimal(int_str) {
                Some(number) => Ok(Some((pos, number))),
                None => Err(number_fault()),
            }
        },
        Err(e) => Err(e),
    }
}

/// Reads the rest of a bulk string frame, from `idx` on.
pub fn decode_bulk_string(buf: &[u8], idx: usize) -> (found: DecodeResult)
    ensures
        agrees(found, parse_bulk_string(buf@, idx as int)),
{
    match decode_raw_integer(buf, idx) {
        Ok(None) => Ok(None),
        Ok(Some((pos, size))) => {
            proof {
                lemma_parse_number_advances(buf@, idx as int);
            }
            let remaining: usize = buf.len() - pos;
            if remaining < 2 || remaining - 2 < size {
                return Ok(None);
            }
            let bulk_string = RespValue::BulkString(
                slice_to_vec(slice_subrange(buf, pos, pos + size)),
            );
            Ok(Some((pos + size + 2, bulk_string)))
        },
        Err(e) => Err(e),
    }
}

/// Reads the rest of an array frame, from `idx` on.
pub fn decode_array(buf: &[u8], idx: usize) -> (found: DecodeResult)
    ensures
        agrees(found, parse_array(buf@, idx as int)),
    decreases buf@.len() - idx, 0nat,
{
    match decode_raw_integer(buf, idx) {
        Ok(None) => Ok(None),
        Ok(Some((start, size))) => {
            let mut pos: usize = start;
            let mut values: Vec<RespValue> = Vec::new();
            let mut i: usize = 0;
            proof {
                lemma_parse_number_advances(buf@, idx as int);
                lemma_parse_items_ends(buf@, start as int, size as nat, Seq::empty());
                assert(view_each(values@) =~= Seq::<SpecValue>::empty());
            }
            while i < size
                invariant
                    idx < start <= pos <= buf@.len(),
                    i <= size,
                    values@.len() == i,
                    parse_number(buf@, idx as int) == Parsed::Complete(size as nat, start as int),
                    after(view_each(values@), parse_items(buf@, pos as int, (size - i) as nat))
                        == parse_items(buf@, start as int, size as nat),
                decreases size - i,
            {
                let ghost before = values@;
                proof {
                    lemma_parse_advances(buf@, pos as int);
                    lemma_parse_items_step(
                        buf@,
                        pos as int,
                        (size - i) as nat,
                        view_each(before),
                    );
                }
                match decode(buf, pos) {
                    Ok(None) => {
                        return Ok(None);
                    },
                    Ok(Some((new_pos, value))) => {
                        values.push(value);
                        pos = new_pos;
                    },
                    Err(e) => {
                        return Err(e);
                    },
                }
                i += 1;
                proof {
                    assert(values@.drop_last() =~= before);
                    assert(view_each(values@) == view_each(before).push(values@.last()@));
                }
            }
            proof {
                lemma_parse_items_ends(buf@, pos as int, 0, view_each(values@));
            }
            Ok(Some((pos, RespValue::Array(values))))
        },
        Err(e) => Err(e),
    }
}

/// Reads the rest of an integer frame, from `idx` on.
pub fn decode_integer(buf: &[u8], idx: usize) -> (found: DecodeResult)
    ensures
        agrees(found, parse_integer(buf@, idx as int)),
{
    match decode_raw_integer(buf, idx) {
        Ok(None) => Ok(None),
        Ok(Some((pos, number))) => Ok(Some((pos, RespValue::Integer(number)))),
        Err(e) => Err(e),
    }
}

/// Reads the rest of a simple string frame, from `idx` on: any bytes up to
/// the first line end.
pub fn decode_simple_string(buf: &[u8], idx: usize) -> (found: DecodeResult)
    ensures
        agrees(found, parse_simple_string(buf@, idx as int)),
{
    match scan_string(buf, idx) {
        None => Ok(None),
        Some((pos, string)) => Ok(Some((pos, RespValue::SimpleString(string)))),
    }
}

/// Reads the rest of an error frame, from `idx` on.
pub fn decode_error(buf: &[u8], idx: usize) -> (found: DecodeResult)
    ensures
        agrees(found, parse_error_frame(buf@, idx as int)),
{
    match scan_string(buf, idx) {
        None => Ok(None),
        Some((pos, string)) => Ok(Some((pos, RespValue::Error(string)))),
    }
}

/// Reads the frame that begins at `idx`.
pub fn decode(buf: &[u8], idx: usize) -> (found: DecodeResult)
    ensures
        agrees(found, parse(buf@, idx as int)),
    decreases buf@.len() - idx, 1nat,
{
    let length: usize = buf.len();
    if length <= idx {
        return Ok(None);
    }
    let first_byte: u8 = buf[idx];
    if first_byte == TAG_BULK {
        decode_bulk_string(buf, idx + 1)
    } else if first_byte == TAG_ARRAY {
        decode_array(buf, idx + 1)
    } else if first_byte == TAG_INTEGER {
        decode_integer(buf, idx + 1)
    } else if first_byte == TAG_SIMPLE {
        decode_simple_string(buf, idx + 1)
    } else if first_byte == TAG_ERROR {
        decode_error(buf, idx + 1)
    } else {
        Err(tag_fault(first_byte))
    }
}

} // verus!
