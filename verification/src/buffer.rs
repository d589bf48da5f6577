//! The growable byte buffer that the codec reads from and writes to.
//!
//! The buffer is `bytes::BytesMut`. Verus does not look inside it: what it
//! holds is named by [`held`], and the few operations that the codec needs
//! are stated over that name. None of these statements is proved; each says
//! what the `bytes` crate does.
//!
//! As with `Vec`, an allocation that cannot be had while a buffer grows, for
//! lack of memory or because of its size, is not part of the model.

use bytes::BufMut;
use bytes::BytesMut;
use vstd::prelude::*;

verus! {

/// `bytes::BytesMut`, taken as it is: nothing is known of a buffer but what
/// the functions below say.
#[verifier::external_type_specification]
#[verifier::external_body]
pub struct ExBytesMut(BytesMut);

/// The bytes that a buffer holds, first to last.
pub uninterp spec fn held(buf: BytesMut) -> Seq<u8>;

/// `BytesMut::as_ref`: the buffer's bytes as a slice. The slice shows exactly
/// what the buffer holds.
#[verifier::external_body]
pub(crate) fn as_slice(buf: &BytesMut) -> (bytes: &[u8])
    ensures
        bytes@ == held(*buf),
{
    buf.as_ref()
}

/// `BytesMut::extend_from_slice`: appends `data` to the buffer, growing it
/// first where it is too small. The bytes held before stay as they are and
/// `data` follows them. The new length must not overflow a `usize`.
#[verifier::external_body]
pub(crate) fn append(buf: &mut BytesMut, data: &[u8])
    requires
        held(*old(buf)).len() + data@.len() <= usize::MAX,
    ensures
        held(*final(buf)) == held(*old(buf)) + data@,
{
    buf.extend_from_slice(data)
}

/// `BufMut::remaining_mut` of `BytesMut`: how many bytes can be written
/// before the buffer has to grow. The number depends on what was allocated,
/// so nothing is said of it.
#[verifier::external_body]
pub(crate) fn remaining_mut(buf: &BytesMut) -> (spare: usize)
{
    buf.remaining_mut()
}

/// `BytesMut::reserve`: makes room for `additional` more bytes, a number that
/// together with the length must not overflow a `usize`. What the buffer
/// holds does not change.
#[verifier::external_body]
pub(crate) fn reserve(buf: &mut BytesMut, additional: usize)
    requires
        held(*old(buf)).len() + additional <= usize::MAX,
    ensures
        held(*final(buf)) == held(*old(buf)),
{
    buf.reserve(additional)
}

/// `BytesMut::split_to`, with the part that it hands out dropped: removes
/// the first `at` bytes from the buffer, which must hold that many. The
/// buffer then holds what followed them.
#[verifier::external_body]
pub(crate) fn split_to(buf: &mut BytesMut, at: usize)
    requires
        at <= held(*old(buf)).len(),
    ensures
        held(*final(buf)) == held(*old(buf)).subrange(at as int, held(*old(buf)).len() as int),
{
    let _ = buf.split_to(at);
}

} // verus!
