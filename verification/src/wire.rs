//! The wire format, as mathematics: which bytes stand for which value.
//!
//! | tag | form                                   | value          |
//! |-----|----------------------------------------|----------------|
//! | `*` | `*<count>\r\n` and then `count` frames | array          |
//! | `$` | `$<len>\r\n`, `len` bytes, `\r\n`      | bulk string    |
//! | `:` | `:<number>\r\n`                        | integer        |
//! | `+` | `+<text>\r\n`                          | simple string  |
//! | `-` | `-<text>\r\n`                          | error          |

use crate::decimal::decimal;
use crate::value::SpecValue;
use vstd::prelude::*;
use vstd::utf8::encode_utf8;

verus! {

/// Carriage return, the first byte of a line end.
pub const CR: u8 = 13;

/// Line feed, the second byte of a line end.
pub const LF: u8 = 10;

/// The tag of an array frame, `*`.
pub const TAG_ARRAY: u8 = 42;

/// The tag of a bulk string frame, `$`.
pub const TAG_BULK: u8 = 36;

/// The tag of an integer frame, `:`.
pub const TAG_INTEGER: u8 = 58;

/// The tag of a simple string frame, `+`.
pub const TAG_SIMPLE: u8 = 43;

/// The tag of an error frame, `-`.
pub const TAG_ERROR: u8 = 45;

/// The two bytes that end a line.
pub open spec fn crlf() -> Seq<u8> {
    seq![CR, LF]
}

/// A tag, a number in decimal and a line end: the whole of an integer frame,
/// and the start of an array or a bulk string frame.
pub open spec fn header(tag: u8, n: nat) -> Seq<u8> {
    seq![tag] + decimal(n) + crlf()
}

/// A tag, the UTF-8 bytes of a text and a line end: a simple string or an
/// error frame.
pub open spec fn line(tag: u8, text: Seq<char>) -> Seq<u8> {
    seq![tag] + encode_utf8(text) + crlf()
}

/// The bytes that stand for a value on the wire.
pub open spec fn wire(v: SpecValue) -> Seq<u8>
    decreases v,
{
    match v {
        SpecValue::Array(items) => header(TAG_ARRAY, items.len()) + wire_each(items),
        SpecValue::BulkString(bytes) => header(TAG_BULK, bytes.len()) + bytes + crlf(),
        SpecValue::Error(text) => line(TAG_ERROR, text),
        SpecValue::Integer(n) => header(TAG_INTEGER, n),
        SpecValue::SimpleString(text) => line(TAG_SIMPLE, text),
    }
}

/// The frames of a run of values, one after the other.
pub open spec fn wire_each(items: Seq<SpecValue>) -> Seq<u8>
    decreases items,
{
    if items.len() == 0 {
        Seq::empty()
    } else {
        wire(items.first()) + wire_each(items.drop_first())
    }
}

/// No two neighbours in `bytes` form a line end.
pub open spec fn no_line_end(bytes: Seq<u8>) -> bool {
    forall|i: int|
        0 <= i && i + 1 < bytes.len() ==> !(#[trigger] bytes[i] == CR && bytes[i + 1] == LF)
}

impl SpecValue {
    /// Every number and every length in the value fits in a `usize`. This
    /// holds of the content of every [`crate::value::RespValue`].
    pub open spec fn fits(self) -> bool
        decreases self,
    {
        match self {
            SpecValue::Array(items) => items.len() <= usize::MAX && forall|i: int|
                0 <= i < items.len() ==> (#[trigger] items[i]).fits(),
            SpecValue::BulkString(bytes) => bytes.len() <= usize::MAX,
            SpecValue::Integer(n) => n <= usize::MAX,
            SpecValue::Error(text) => true,
            SpecValue::SimpleString(text) => true,
        }
    }

    /// No simple string and no error in the value has a line end in its
    /// text. Such a text would end early when it is read.
    pub open spec fn plain(self) -> bool
        decreases self,
    {
        match self {
            SpecValue::Array(items) => forall|i: int|
                0 <= i < items.len() ==> (#[trigger] items[i]).plain(),
            SpecValue::BulkString(bytes) => true,
            SpecValue::Integer(n) => true,
            SpecValue::Error(text) => no_line_end(encode_utf8(text)),
            SpecValue::SimpleString(text) => no_line_end(encode_utf8(text)),
        }
    }
}

/// The frames of two runs, one after the other, are the frames of the joined
/// run.
pub proof fn lemma_wire_each_concat(a: Seq<SpecValue>, b: Seq<SpecValue>)
    ensures
        wire_each(a + b) == wire_each(a) + wire_each(b),
    decreases a.len(),
{
    if a.len() == 0 {
        assert(a + b =~= b);
        assert(wire_each(a) =~= Seq::<u8>::empty());
        assert(wire_each(a) + wire_each(b) =~= wire_each(b));
    } else {
        lemma_wire_each_concat(a.drop_first(), b);
        assert((a + b).drop_first() =~= a.drop_first() + b);
        assert((a + b).first() == a.first());
        assert(wire_each(a + b) == wire((a + b).first()) + wire_each((a + b).drop_first()));
        assert(wire_each(a) == wire(a.first()) + wire_each(a.drop_first()));
        assert(wire_each(a + b) =~= wire_each(a) + wire_each(b));
    }
}

/// The frames of a run of one value are the frame of that value.
pub proof fn lemma_wire_each_one(v: SpecValue)
    ensures
        wire_each(seq![v]) == wire(v),
{
    let s = seq![v];
    assert(s.drop_first() =~= Seq::<SpecValue>::empty());
    assert(wire_each(s.drop_first()) =~= Seq::<u8>::empty());
    assert(wire_each(s) == wire(s.first()) + wire_each(s.drop_first()));
    assert(wire_each(s) =~= wire(v));
}

/// Taking one more value from the front of a run adds that value's frame.
pub proof fn lemma_wire_each_take(items: Seq<SpecValue>, i: int)
    requires
        0 <= i < items.len(),
    ensures
        wire_each(items.take(i + 1)) == wire_each(items.take(i)) + wire(items[i]),
        wire_each(items) == wire_each(items.take(i + 1)) + wire_each(items.skip(i + 1)),
{
    assert(items.take(i + 1) =~= items.take(i) + seq![items[i]]);
    lemma_wire_each_concat(items.take(i), seq![items[i]]);
    lemma_wire_each_one(items[i]);
    assert(items =~= items.take(i + 1) + items.skip(i + 1));
    lemma_wire_each_concat(items.take(i + 1), items.skip(i + 1));
}

} // verus!
