//! What holds of the wire format as a whole: a value that was written is read
//! back as it was, and a frame that has not arrived in full is waited for.
//!
//! The laws are [`lemma_round_trip`], [`lemma_partial_delivery`] and
//! [`lemma_parse_stable`]. The first two follow from [`lemma_frame_read`]
//! and [`lemma_frame_cut`], which say the same of a frame anywhere in a
//! buffer; the rest of the module leads up to those.

use crate::decimal::{decimal, is_digit, lemma_decimal};
use crate::parse::{
    digits_end, lemma_digits_end, lemma_line_end, lemma_parse_advances,
    lemma_parse_items_first, lemma_parse_number_advances, line_end, parse, parse_array,
    parse_bulk_string, parse_items, parse_number, parse_text, Parsed,
};
use crate::value::{lemma_view_each, view_each, RespValue, SpecValue};
use crate::wire::{
    crlf, header, line, no_line_end, wire, wire_each, CR, LF, TAG_ARRAY, TAG_BULK, TAG_ERROR,
    TAG_INTEGER, TAG_SIMPLE,
};
use vstd::prelude::*;
use vstd::utf8::{
    encode_utf8, encode_utf8_decode_utf8, encode_utf8_valid_utf8, is_ascii_chars,
    is_ascii_chars_encode_utf8,
};

verus! {

/// `bytes` hold `part` from position `idx` on.
pub open spec fn holds_at(bytes: Seq<u8>, idx: int, part: Seq<u8>) -> bool {
    &&& 0 <= idx
    &&& idx + part.len() <= bytes.len()
    &&& forall|j: int| 0 <= j < part.len() ==> bytes[idx + j] == #[trigger] part[j]
}

/// Where digits stand from `pos` up to `end` and no digit stands at `end`,
/// the run of digits from `pos` ends at `end`.
pub proof fn lemma_digits_end_at(bytes: Seq<u8>, pos: int, end: int)
    requires
        0 <= pos <= end <= bytes.len(),
        forall|k: int| pos <= k < end ==> is_digit(#[trigger] bytes[k]),
        end < bytes.len() ==> !is_digit(bytes[end]),
    ensures
        digits_end(bytes, pos) == end,
    decreases end - pos,
{
    if pos < end {
        assert(is_digit(bytes[pos]));
        lemma_digits_end_at(bytes, pos + 1, end);
    }
}

/// A number in decimal with its line end is read as that number.
pub proof fn lemma_number_read(bytes: Seq<u8>, idx: int, n: nat)
    requires
        n <= usize::MAX,
        holds_at(bytes, idx, decimal(n) + crlf()),
    ensures
        parse_number(bytes, idx) == Parsed::Complete(n, idx + decimal(n).len() + 2),
{
    lemma_decimal(n);
    let part = decimal(n) + crlf();
    let d = decimal(n).len() as int;
    assert(part.len() == d + 2);
    assert forall|k: int| idx <= k < idx + d implies is_digit(#[trigger] bytes[k]) by {
        assert(bytes[idx + (k - idx)] == part[k - idx]);
        assert(part[k - idx] == decimal(n)[k - idx]);
    }
    assert(bytes[idx + d] == part[d]);
    assert(bytes[idx + (d + 1)] == part[d + 1]);
    assert(part[d] == CR);
    assert(part[d + 1] == LF);
    lemma_digits_end_at(bytes, idx, idx + d);
    assert(bytes.subrange(idx, idx + d) =~= decimal(n)) by {
        assert forall|j: int| 0 <= j < d implies bytes.subrange(idx, idx + d)[j] == decimal(n)[j] by {
            assert(bytes[idx + j] == part[j]);
        }
    }
}

/// A number in decimal with its line end, cut short, is waited for.
pub proof fn lemma_number_cut(bytes: Seq<u8>, idx: int, n: nat, cut: int)
    requires
        0 <= cut < decimal(n).len() + 2,
        bytes.len() == idx + cut,
        holds_at(bytes, idx, (decimal(n) + crlf()).take(cut)),
    ensures
        parse_number(bytes, idx) == Parsed::<nat>::Incomplete,
{
    lemma_decimal(n);
    let part = decimal(n) + crlf();
    let d = decimal(n).len() as int;
    let digits = if cut <= d { cut } else { d };
    assert forall|k: int| idx <= k < idx + digits implies is_digit(#[trigger] bytes[k]) by {
        assert(bytes[idx + (k - idx)] == part.take(cut)[k - idx]);
        assert(part[k - idx] == decimal(n)[k - idx]);
    }
    if cut > d {
        assert(bytes[idx + d] == part.take(cut)[d]);
        assert(part[d] == CR);
    }
    lemma_digits_end_at(bytes, idx, idx + digits);
}

/// Where no line end begins from `pos` up to `end`, and one begins at `end`,
/// the first line end from `pos` on is the one at `end`.
pub proof fn lemma_line_end_at(bytes: Seq<u8>, pos: int, end: int)
    requires
        0 <= pos <= end,
        end + 2 <= bytes.len(),
        bytes[end] == CR,
        bytes[end + 1] == LF,
        forall|k: int| pos <= k < end ==> !(#[trigger] bytes[k] == CR && bytes[k + 1] == LF),
    ensures
        line_end(bytes, pos) == Some(end),
    decreases end - pos,
{
    if pos < end {
        assert(!(bytes[pos] == CR && bytes[pos + 1] == LF));
        lemma_line_end_at(bytes, pos + 1, end);
    }
}

/// Where no line end begins from `pos` on, there is no first one.
pub proof fn lemma_line_end_none(bytes: Seq<u8>, pos: int)
    requires
        0 <= pos,
        forall|k: int| pos <= k && k + 1 < bytes.len() ==> !(#[trigger] bytes[k] == CR && bytes[k
            + 1] == LF),
    ensures
        line_end(bytes, pos) == None::<int>,
    decreases bytes.len() - pos,
{
    if pos + 1 < bytes.len() {
        assert(!(bytes[pos] == CR && bytes[pos + 1] == LF));
        lemma_line_end_none(bytes, pos + 1);
    }
}

/// A text without a line end in it, with its line end, is read as that text.
pub proof fn lemma_text_read(bytes: Seq<u8>, idx: int, text: Seq<char>)
    requires
        no_line_end(encode_utf8(text)),
        holds_at(bytes, idx, encode_utf8(text) + crlf()),
    ensures
        parse_text(bytes, idx) == Parsed::Complete(text, idx + encode_utf8(text).len() + 2),
{
    let body = encode_utf8(text);
    let part = body + crlf();
    let n = body.len() as int;
    assert(part.len() == n + 2);
    assert(bytes[idx + n] == part[n]);
    assert(bytes[idx + (n + 1)] == part[n + 1]);
    assert forall|k: int| idx <= k < idx + n implies !(#[trigger] bytes[k] == CR && bytes[k + 1]
        == LF) by {
        assert(bytes[idx + (k - idx)] == part[k - idx]);
        assert(bytes[idx + (k - idx + 1)] == part[k - idx + 1]);
        if k + 1 < idx + n {
            assert(!(body[k - idx] == CR && body[k - idx + 1] == LF));
        }
    }
    lemma_line_end_at(bytes, idx, idx + n);
    assert(bytes.subrange(idx, idx + n) =~= body) by {
        assert forall|j: int| 0 <= j < n implies bytes.subrange(idx, idx + n)[j] == body[j] by {
            assert(bytes[idx + j] == part[j]);
        }
    }
    encode_utf8_valid_utf8(text);
    encode_utf8_decode_utf8(text);
}

/// A text without a line end in it, with its line end, cut short, is waited
/// for.
pub proof fn lemma_text_cut(bytes: Seq<u8>, idx: int, text: Seq<char>, cut: int)
    requires
        no_line_end(encode_utf8(text)),
        0 <= cut < encode_utf8(text).len() + 2,
        bytes.len() == idx + cut,
        holds_at(bytes, idx, (encode_utf8(text) + crlf()).take(cut)),
    ensures
        parse_text(bytes, idx) == Parsed::<Seq<char>>::Incomplete,
{
    let body = encode_utf8(text);
    let part = body + crlf();
    let n = body.len() as int;
    assert forall|k: int| idx <= k && k + 1 < bytes.len() implies !(#[trigger] bytes[k] == CR
        && bytes[k + 1] == LF) by {
        assert(bytes[idx + (k - idx)] == part.take(cut)[k - idx]);
        assert(bytes[idx + (k - idx + 1)] == part.take(cut)[k - idx + 1]);
        if k + 1 < idx + n {
            assert(!(body[k - idx] == CR && body[k - idx + 1] == LF));
        }
    }
    lemma_line_end_none(bytes, idx);
}

/// `bytes` hold the two parts of `a + b` one after the other.
proof fn lemma_holds_at_split(bytes: Seq<u8>, idx: int, a: Seq<u8>, b: Seq<u8>)
    requires
        holds_at(bytes, idx, a + b),
    ensures
        holds_at(bytes, idx, a),
        holds_at(bytes, idx + a.len(), b),
{
    let whole = a + b;
    assert forall|j: int| 0 <= j < a.len() implies bytes[idx + j] == #[trigger] a[j] by {
        assert(bytes[idx + j] == whole[j]);
    }
    assert forall|j: int| 0 <= j < b.len() implies bytes[idx + a.len() + j] == #[trigger] b[j] by {
        assert(bytes[idx + (a.len() + j)] == whole[a.len() + j]);
    }
}

/// A tag with a number and its line end, standing at `idx`, is read as the
/// tag and then that number.
proof fn lemma_header_read(bytes: Seq<u8>, idx: int, tag: u8, n: nat)
    requires
        n <= usize::MAX,
        holds_at(bytes, idx, header(tag, n)),
    ensures
        0 <= idx < bytes.len(),
        bytes[idx] == tag,
        parse_number(bytes, idx + 1) == Parsed::Complete(n, idx + header(tag, n).len()),
{
    let head = seq![tag];
    assert(header(tag, n) =~= head + (decimal(n) + crlf()));
    lemma_holds_at_split(bytes, idx, head, decimal(n) + crlf());
    assert(bytes[idx + 0] == head[0]);
    lemma_number_read(bytes, idx + 1, n);
}

/// A tag with a text and its line end, standing at `idx`, is read as the
/// tag and then that text, where the text has no line end in it.
proof fn lemma_line_read(bytes: Seq<u8>, idx: int, tag: u8, text: Seq<char>)
    requires
        no_line_end(encode_utf8(text)),
        holds_at(bytes, idx, line(tag, text)),
    ensures
        0 <= idx < bytes.len(),
        bytes[idx] == tag,
        parse_text(bytes, idx + 1) == Parsed::Complete(text, idx + line(tag, text).len()),
{
    let head = seq![tag];
    assert(line(tag, text) =~= head + (encode_utf8(text) + crlf()));
    lemma_holds_at_split(bytes, idx, head, encode_utf8(text) + crlf());
    assert(bytes[idx + 0] == head[0]);
    lemma_text_read(bytes, idx + 1, text);
}

/// A frame that stands in `bytes` at `idx` is read as its value, whatever
/// comes before and after it.
pub proof fn lemma_frame_read(bytes: Seq<u8>, idx: int, v: SpecValue)
    requires
        v.fits(),
        v.plain(),
        holds_at(bytes, idx, wire(v)),
    ensures
        parse(bytes, idx) == Parsed::Complete(v, idx + wire(v).len()),
    decreases v,
{
    match v {
        SpecValue::Array(items) => {
            let head = header(TAG_ARRAY, items.len());
            lemma_holds_at_split(bytes, idx, head, wire_each(items));
            lemma_header_read(bytes, idx, TAG_ARRAY, items.len());
            lemma_frames_read(bytes, idx + head.len(), items);
            assert(parse(bytes, idx) == parse_array(bytes, idx + 1));
        },
        SpecValue::BulkString(payload) => {
            let head = header(TAG_BULK, payload.len());
            assert(wire(v) =~= head + (payload + crlf()));
            lemma_holds_at_split(bytes, idx, head, payload + crlf());
            lemma_holds_at_split(bytes, idx + head.len(), payload, crlf());
            lemma_header_read(bytes, idx, TAG_BULK, payload.len());
            let pos = idx + head.len();
            assert(bytes.subrange(pos, pos + payload.len()) =~= payload) by {
                assert forall|j: int| 0 <= j < payload.len() implies bytes.subrange(
                    pos,
                    pos + payload.len(),
                )[j] == payload[j] by {
                    assert(bytes[pos + j] == payload[j]);
                }
            }
            assert(parse(bytes, idx) == parse_bulk_string(bytes, idx + 1));
        },
        SpecValue::Error(text) => {
            lemma_line_read(bytes, idx, TAG_ERROR, text);
        },
        SpecValue::Integer(n) => {
            lemma_header_read(bytes, idx, TAG_INTEGER, n);
        },
        SpecValue::SimpleString(text) => {
            lemma_line_read(bytes, idx, TAG_SIMPLE, text);
        },
    }
}

/// What holds of every item of a run holds of every item but the first.
proof fn lemma_rest(items: Seq<SpecValue>)
    requires
        items.len() > 0,
        forall|i: int| 0 <= i < items.len() ==> (#[trigger] items[i]).fits(),
        forall|i: int| 0 <= i < items.len() ==> (#[trigger] items[i]).plain(),
    ensures
        items.first().fits(),
        items.first().plain(),
        forall|i: int|
            0 <= i < items.drop_first().len() ==> (#[trigger] items.drop_first()[i]).fits(),
        forall|i: int|
            0 <= i < items.drop_first().len() ==> (#[trigger] items.drop_first()[i]).plain(),
{
    let rest = items.drop_first();
    assert(items.first() == items[0]);
    assert forall|i: int| 0 <= i < rest.len() implies (#[trigger] rest[i]).fits() && rest[i].plain() by {
        assert(rest[i] == items[i + 1]);
    }
}

/// Frames that stand in `bytes` one after the other from `pos` on are read
/// as their values, in order.
pub proof fn lemma_frames_read(bytes: Seq<u8>, pos: int, items: Seq<SpecValue>)
    requires
        forall|i: int| 0 <= i < items.len() ==> (#[trigger] items[i]).fits(),
        forall|i: int| 0 <= i < items.len() ==> (#[trigger] items[i]).plain(),
        holds_at(bytes, pos, wire_each(items)),
    ensures
        parse_items(bytes, pos, items.len()) == Parsed::Complete(
            items,
            pos + wire_each(items).len(),
        ),
    decreases items,
{
    if items.len() == 0 {
        assert(wire_each(items) =~= Seq::<u8>::empty());
        assert(items =~= Seq::<SpecValue>::empty());
    } else {
        let first = items.first();
        let rest = items.drop_first();
        assert(wire_each(items) == wire(first) + wire_each(rest));
        lemma_holds_at_split(bytes, pos, wire(first), wire_each(rest));
        assert(first == items[0]);
        lemma_frame_read(bytes, pos, first);
        lemma_frame_not_empty(first);
        let next = pos + wire(first).len();
        lemma_rest(items);
        lemma_frames_read(bytes, next, rest);
        assert(seq![first] + rest =~= items);
        lemma_parse_items_first(bytes, pos, items.len());
    }
}

/// A frame has at least its tag and its line end.
pub proof fn lemma_frame_not_empty(v: SpecValue)
    ensures
        wire(v).len() >= 3,
{
    match v {
        SpecValue::Array(items) => {
            assert(wire(v) == header(TAG_ARRAY, items.len()) + wire_each(items));
        },
        SpecValue::BulkString(payload) => {},
        SpecValue::Error(text) => {},
        SpecValue::Integer(n) => {},
        SpecValue::SimpleString(text) => {},
    }
}

/// The first bytes of `part` are the first bytes of `part + more`.
proof fn lemma_holds_at_cut_first(bytes: Seq<u8>, idx: int, a: Seq<u8>, b: Seq<u8>, cut: int)
    requires
        0 <= cut <= a.len(),
        holds_at(bytes, idx, (a + b).take(cut)),
    ensures
        holds_at(bytes, idx, a.take(cut)),
{
    assert((a + b).take(cut) =~= a.take(cut));
}

/// Where a cut falls behind the first part, the first part is held whole
/// and what is held of the second part is cut.
proof fn lemma_holds_at_cut_second(bytes: Seq<u8>, idx: int, a: Seq<u8>, b: Seq<u8>, cut: int)
    requires
        a.len() <= cut <= a.len() + b.len(),
        holds_at(bytes, idx, (a + b).take(cut)),
    ensures
        holds_at(bytes, idx, a),
        holds_at(bytes, idx + a.len(), b.take(cut - a.len())),
{
    assert((a + b).take(cut) =~= a + b.take(cut - a.len()));
    lemma_holds_at_split(bytes, idx, a, b.take(cut - a.len()));
}

/// A tag with a number and its line end, cut short after the tag or later,
/// is read as the tag and then waited for.
proof fn lemma_header_cut(bytes: Seq<u8>, idx: int, tag: u8, n: nat, cut: int)
    requires
        0 < cut < header(tag, n).len(),
        bytes.len() == idx + cut,
        holds_at(bytes, idx, header(tag, n).take(cut)),
    ensures
        0 <= idx < bytes.len(),
        bytes[idx] == tag,
        parse_number(bytes, idx + 1) == Parsed::<nat>::Incomplete,
{
    let head = seq![tag];
    assert(header(tag, n) =~= head + (decimal(n) + crlf()));
    lemma_holds_at_cut_second(bytes, idx, head, decimal(n) + crlf(), cut);
    assert(bytes[idx + 0] == head[0]);
    lemma_number_cut(bytes, idx + 1, n, cut - 1);
}

/// A tag with a text and its line end, cut short after the tag or later, is
/// read as the tag and then waited for, where the text has no line end in
/// it.
proof fn lemma_line_cut(bytes: Seq<u8>, idx: int, tag: u8, text: Seq<char>, cut: int)
    requires
        no_line_end(encode_utf8(text)),
        0 < cut < line(tag, text).len(),
        bytes.len() == idx + cut,
        holds_at(bytes, idx, line(tag, text).take(cut)),
    ensures
        0 <= idx < bytes.len(),
        bytes[idx] == tag,
        parse_text(bytes, idx + 1) == Parsed::<Seq<char>>::Incomplete,
{
    let head = seq![tag];
    assert(line(tag, text) =~= head + (encode_utf8(text) + crlf()));
    lemma_holds_at_cut_second(bytes, idx, head, encode_utf8(text) + crlf(), cut);
    assert(bytes[idx + 0] == head[0]);
    lemma_text_cut(bytes, idx + 1, text, cut - 1);
}

/// A frame of which only the first `cut` bytes have arrived is waited for.
pub proof fn lemma_frame_cut(bytes: Seq<u8>, idx: int, v: SpecValue, cut: int)
    requires
        v.fits(),
        v.plain(),
        0 <= cut < wire(v).len(),
        bytes.len() == idx + cut,
        holds_at(bytes, idx, wire(v).take(cut)),
    ensures
        parse(bytes, idx) == Parsed::<SpecValue>::Incomplete,
    decreases v,
{
    if cut == 0 {
    } else {
        match v {
            SpecValue::Array(items) => {
                let head = header(TAG_ARRAY, items.len());
                let body = wire_each(items);
                if cut < head.len() {
                    lemma_holds_at_cut_first(bytes, idx, head, body, cut);
                    lemma_header_cut(bytes, idx, TAG_ARRAY, items.len(), cut);
                } else {
                    lemma_holds_at_cut_second(bytes, idx, head, body, cut);
                    lemma_header_read(bytes, idx, TAG_ARRAY, items.len());
                    lemma_frames_cut(bytes, idx + head.len(), items, cut - head.len());
                }
                assert(parse(bytes, idx) == parse_array(bytes, idx + 1));
            },
            SpecValue::BulkString(payload) => {
                let head = header(TAG_BULK, payload.len());
                let body = payload + crlf();
                assert(wire(v) =~= head + body);
                if cut < head.len() {
                    lemma_holds_at_cut_first(bytes, idx, head, body, cut);
                    lemma_header_cut(bytes, idx, TAG_BULK, payload.len(), cut);
                } else {
                    lemma_holds_at_cut_second(bytes, idx, head, body, cut);
                    lemma_header_read(bytes, idx, TAG_BULK, payload.len());
                }
                assert(parse(bytes, idx) == parse_bulk_string(bytes, idx + 1));
            },
            SpecValue::Error(text) => {
                lemma_line_cut(bytes, idx, TAG_ERROR, text, cut);
            },
            SpecValue::Integer(n) => {
                lemma_header_cut(bytes, idx, TAG_INTEGER, n, cut);
            },
            SpecValue::SimpleString(text) => {
                lemma_line_cut(bytes, idx, TAG_SIMPLE, text, cut);
            },
        }
    }
}

/// A run of frames of which only the first `cut` bytes have arrived is
/// waited for.
pub proof fn lemma_frames_cut(bytes: Seq<u8>, pos: int, items: Seq<SpecValue>, cut: int)
    requires
        forall|i: int| 0 <= i < items.len() ==> (#[trigger] items[i]).fits(),
        forall|i: int| 0 <= i < items.len() ==> (#[trigger] items[i]).plain(),
        0 <= cut < wire_each(items).len(),
        0 <= pos,
        bytes.len() == pos + cut,
        holds_at(bytes, pos, wire_each(items).take(cut)),
    ensures
        parse_items(bytes, pos, items.len()) == Parsed::<Seq<SpecValue>>::Incomplete,
    decreases items,
{
    if items.len() == 0 {
        assert(wire_each(items) =~= Seq::<u8>::empty());
    } else {
        let first = items.first();
        let rest = items.drop_first();
        assert(wire_each(items) == wire(first) + wire_each(rest));
        assert(first == items[0]);
        if cut < wire(first).len() {
            lemma_holds_at_cut_first(bytes, pos, wire(first), wire_each(rest), cut);
            lemma_frame_cut(bytes, pos, first, cut);
        } else {
            lemma_holds_at_cut_second(bytes, pos, wire(first), wire_each(rest), cut);
            lemma_frame_read(bytes, pos, first);
            lemma_frame_not_empty(first);
            let next = pos + wire(first).len();
            lemma_rest(items);
            lemma_frames_cut(bytes, next, rest, cut - wire(first).len());
            lemma_parse_items_first(bytes, pos, items.len());
        }
    }
}

/// Round trip: the frame of a value, read from its first byte, gives the
/// value back and ends where the frame ends.
///
/// This holds of every value whose simple strings and errors have no line
/// end in their text: such a text cannot be told from a shorter one on the
/// wire.
pub proof fn lemma_round_trip(v: SpecValue)
    requires
        v.fits(),
        v.plain(),
    ensures
        parse(wire(v), 0) == Parsed::Complete(v, wire(v).len() as int),
{
    lemma_frame_read(wire(v), 0, v);
}

/// Partial delivery: a frame that arrives in two pieces is waited for while
/// only the first is there, and is read in full, as one that arrived whole,
/// once the second has come.
pub proof fn lemma_partial_delivery(v: SpecValue, cut: int)
    requires
        v.fits(),
        v.plain(),
        0 < cut < wire(v).len(),
    ensures
        parse(wire(v).take(cut), 0) == Parsed::<SpecValue>::Incomplete,
        parse(wire(v).take(cut) + wire(v).skip(cut), 0) == Parsed::Complete(
            v,
            wire(v).len() as int,
        ),
        parse(wire(v).take(cut) + wire(v).skip(cut), 0) == parse(wire(v), 0),
{
    lemma_frame_cut(wire(v).take(cut), 0, v, cut);
    assert(wire(v).take(cut) + wire(v).skip(cut) =~= wire(v));
    lemma_round_trip(v);
}

/// An ASCII text in which no line feed follows a carriage return is plain
/// on the wire: its bytes are its characters, and no two of them form a
/// line end.
pub proof fn lemma_ascii_text_plain(text: Seq<char>)
    requires
        is_ascii_chars(text),
        forall|i: int|
            0 <= i && i + 1 < text.len() ==> !(#[trigger] text[i] == '\r' && text[i + 1] == '\n'),
    ensures
        no_line_end(encode_utf8(text)),
        SpecValue::SimpleString(text).plain(),
        SpecValue::Error(text).plain(),
{
    is_ascii_chars_encode_utf8(text);
    let bytes = encode_utf8(text);
    assert forall|i: int| 0 <= i && i + 1 < bytes.len() implies !(#[trigger] bytes[i] == CR
        && bytes[i + 1] == LF) by {
        assert(text[i] as u8 == bytes[i]);
        assert(text[i + 1] as u8 == bytes[i + 1]);
        assert(!(text[i] == '\r' && text[i + 1] == '\n'));
    }
}

/// The content of a value fits: its numbers are `usize`s, and its arrays and
/// bulk strings are no longer than a vector can be.
pub proof fn lemma_value_fits(v: RespValue)
    ensures
        v@.fits(),
    decreases v,
{
    match v {
        RespValue::Array(items) => {
            let contents = view_each(items@);
            lemma_view_each(items@);
            assert(contents.len() == items.len());
            assert forall|i: int| 0 <= i < contents.len() implies (#[trigger] contents[i]).fits() by {
                lemma_value_fits(items@[i]);
                assert(contents[i] == items@[i]@);
            }
        },
        RespValue::BulkString(bytes) => {
            assert(bytes@.len() == bytes.len());
        },
        RespValue::Error(text) => {},
        RespValue::Integer(n) => {},
        RespValue::SimpleString(text) => {},
    }
}

/// Round trip, for the values that the codec is given: what `encode` wrote
/// for `v` is what `decode` reads as `v`.
pub proof fn lemma_value_round_trip(v: RespValue)
    requires
        v@.plain(),
    ensures
        parse(wire(v@), 0) == Parsed::Complete(v@, wire(v@).len() as int),
{
    lemma_value_fits(v);
    lemma_round_trip(v@);
}


/// A run of digits that ends within the bytes ends at the same place when
/// more bytes follow.
proof fn lemma_digits_end_stable(bytes: Seq<u8>, more: Seq<u8>, pos: int)
    requires
        0 <= pos,
        digits_end(bytes, pos) < bytes.len(),
    ensures
        digits_end(bytes + more, pos) == digits_end(bytes, pos),
    decreases bytes.len() - pos,
{
    if pos < bytes.len() {
        assert((bytes + more)[pos] == bytes[pos]);
        if is_digit(bytes[pos]) {
            lemma_digits_end_stable(bytes, more, pos + 1);
        }
    }
}

/// A number that was read, or refused, is read or refused in the same way
/// when more bytes follow.
proof fn lemma_number_stable(bytes: Seq<u8>, more: Seq<u8>, idx: int)
    requires
        0 <= idx,
        !(parse_number(bytes, idx) is Incomplete),
    ensures
        parse_number(bytes + more, idx) == parse_number(bytes, idx),
{
    let end = digits_end(bytes, idx);
    let longer = bytes + more;
    if idx <= bytes.len() {
        lemma_digits_end(bytes, idx);
    }
    lemma_digits_end_stable(bytes, more, idx);
    assert(longer[end] == bytes[end]);
    if bytes[end] == CR {
        assert(longer[end + 1] == bytes[end + 1]);
        if bytes[end + 1] == LF {
            assert(longer.subrange(idx, end) =~= bytes.subrange(idx, end));
        }
    }
}

/// The first line end in the bytes is the first line end when more bytes
/// follow.
proof fn lemma_line_end_stable(bytes: Seq<u8>, more: Seq<u8>, pos: int)
    requires
        line_end(bytes, pos) is Some,
    ensures
        line_end(bytes + more, pos) == line_end(bytes, pos),
    decreases bytes.len() - pos,
{
    if pos < 0 || pos + 1 >= bytes.len() {
    } else {
        assert((bytes + more)[pos] == bytes[pos]);
        assert((bytes + more)[pos + 1] == bytes[pos + 1]);
        if bytes[pos] == CR && bytes[pos + 1] == LF {
        } else {
            lemma_line_end_stable(bytes, more, pos + 1);
        }
    }
}

/// A text that was read is read in the same way when more bytes follow.
proof fn lemma_text_stable(bytes: Seq<u8>, more: Seq<u8>, idx: int)
    requires
        !(parse_text(bytes, idx) is Incomplete),
    ensures
        parse_text(bytes + more, idx) == parse_text(bytes, idx),
{
    lemma_line_end_stable(bytes, more, idx);
    lemma_line_end(bytes, idx);
    let end = line_end(bytes, idx)->0;
    assert((bytes + more).subrange(idx, end) =~= bytes.subrange(idx, end));
}

/// No over-reading: a frame that was read, or refused, is read or refused
/// in the same way whatever bytes arrive after it. Only a frame that is
/// waited for can still become anything.
pub proof fn lemma_parse_stable(bytes: Seq<u8>, more: Seq<u8>, idx: int)
    requires
        !(parse(bytes, idx) is Incomplete),
    ensures
        parse(bytes + more, idx) == parse(bytes, idx),
    decreases bytes.len() - idx, 1nat, 0nat,
{
    let longer = bytes + more;
    assert(0 <= idx < bytes.len());
    assert(longer[idx] == bytes[idx]);
    if bytes[idx] == TAG_BULK {
        lemma_number_stable(bytes, more, idx + 1);
        lemma_parse_number_advances(bytes, idx + 1);
        match parse_number(bytes, idx + 1) {
            Parsed::Complete(size, pos) => {
                assert(longer.subrange(pos, pos + size) =~= bytes.subrange(pos, pos + size));
            },
            _ => {},
        }
    } else if bytes[idx] == TAG_ARRAY {
        lemma_array_stable(bytes, more, idx + 1);
    } else if bytes[idx] == TAG_INTEGER {
        lemma_number_stable(bytes, more, idx + 1);
    } else if bytes[idx] == TAG_SIMPLE {
        lemma_text_stable(bytes, more, idx + 1);
    } else if bytes[idx] == TAG_ERROR {
        lemma_text_stable(bytes, more, idx + 1);
    } else {
    }
}

/// The rest of an array frame that was read, or refused, is read or refused
/// in the same way when more bytes follow.
proof fn lemma_array_stable(bytes: Seq<u8>, more: Seq<u8>, idx: int)
    requires
        0 <= idx,
        !(parse_array(bytes, idx) is Incomplete),
    ensures
        parse_array(bytes + more, idx) == parse_array(bytes, idx),
    decreases bytes.len() - idx, 0nat, 0nat,
{
    lemma_number_stable(bytes, more, idx);
    lemma_parse_number_advances(bytes, idx);
    match parse_number(bytes, idx) {
        Parsed::Complete(count, pos) => {
            lemma_items_stable(bytes, more, pos, count);
        },
        _ => {},
    }
}

/// A run of frames that was read, or refused, is read or refused in the
/// same way when more bytes follow.
proof fn lemma_items_stable(bytes: Seq<u8>, more: Seq<u8>, pos: int, count: nat)
    requires
        0 <= pos <= bytes.len(),
        !(parse_items(bytes, pos, count) is Incomplete),
    ensures
        parse_items(bytes + more, pos, count) == parse_items(bytes, pos, count),
    decreases bytes.len() - pos, 2nat, count,
{
    if count > 0 {
        lemma_parse_advances(bytes, pos);
        lemma_parse_stable(bytes, more, pos);
        match parse(bytes, pos) {
            Parsed::Complete(first, next) => {
                lemma_items_stable(bytes, more, next, (count - 1) as nat);
            },
            _ => {},
        }
    }
}

} // verus!
