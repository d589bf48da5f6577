//! Text out of bytes.

use vstd::prelude::*;
use vstd::utf8::{decode_utf8, valid_utf8};

verus! {

/// What lossy UTF-8 decoding makes of `bytes`: the text in which every
/// malformed sequence has become the replacement character.
pub uninterp spec fn utf8_lossy(bytes: Seq<u8>) -> Seq<char>;

/// The text that `bytes` are read as. Well-formed UTF-8 reads as the text it
/// encodes; anything else reads as lossy decoding has it.
pub open spec fn text_of(bytes: Seq<u8>) -> Seq<char> {
    if valid_utf8(bytes) {
        decode_utf8(bytes)
    } else {
        utf8_lossy(bytes)
    }
}

/// `String::from_utf8_lossy`, as an owned string. The result is the lossy
/// decoding of `bytes`, which for well-formed UTF-8 is the text that the
/// bytes encode.
#[verifier::external_body]
pub(crate) fn from_utf8_lossy(bytes: &[u8]) -> (text: String)
    ensures
        text@ == utf8_lossy(bytes@),
        valid_utf8(bytes@) ==> text@ == decode_utf8(bytes@),
{
    String::from_utf8_lossy(bytes).into_owned()
}

/// Reads `bytes` as text. This never fails: bytes that are no UTF-8 are
/// decoded lossily.
pub fn read_text(bytes: &[u8]) -> (text: String)
    ensures
        text@ == text_of(bytes@),
{
    from_utf8_lossy(bytes)
}

} // verus!
