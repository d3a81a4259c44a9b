//! The byte buffer that frames are written to and read from: `bytes::BytesMut`.

use bytes::{Buf, BufMut, BytesMut};
use vstd::prelude::*;

verus! {

/// `bytes::BytesMut`, a growing buffer of bytes that is written at its end and read at its front.
#[verifier::external_type_specification]
#[verifier::external_body]
pub struct ExBytesMut(BytesMut);

/// The bytes that a buffer holds: what was written and has not been read yet, in order.
pub uninterp spec fn buffered(buf: BytesMut) -> Seq<u8>;

/// How many bytes a buffer may be asked to hold. A `BytesMut` panics where its allocation would
/// pass `isize::MAX`. The allocation may begin with bytes that were read before and are no longer
/// among its contents. Those are present in memory, so what they take up is far below the half
/// that is left free here.
pub open spec fn buffer_limit() -> int {
    isize::MAX as int / 2
}

/// The four bytes of `n`, the most significant one first.
pub open spec fn be_bytes(n: u32) -> Seq<u8> {
    seq![
        (n / 0x100_0000) as u8,
        (n / 0x1_0000 % 0x100) as u8,
        (n / 0x100 % 0x100) as u8,
        (n % 0x100) as u8,
    ]
}

/// `BytesMut::len`: the number of bytes that the buffer holds.
#[verifier::external_body]
pub(crate) fn buffer_len(buf: &BytesMut) -> (len: usize)
    ensures
        len == buffered(*buf).len(),
{
    buf.len()
}

/// Indexing a `BytesMut` as the slice of what it holds, which panics beyond the end.
#[verifier::external_body]
pub(crate) fn buffer_byte(buf: &BytesMut, i: usize) -> (byte: u8)
    requires
        i < buffered(*buf).len(),
    ensures
        byte == buffered(*buf)[i as int],
{
    buf[i]
}

/// `BytesMut::reserve`: makes room for `additional` bytes and leaves the contents alone.
#[verifier::external_body]
pub(crate) fn buffer_reserve(buf: &mut BytesMut, additional: usize)
    requires
        buffered(*old(buf)).len() + additional <= buffer_limit(),
    ensures
        buffered(*final(buf)) == buffered(*old(buf)),
{
    buf.reserve(additional)
}

/// `BufMut::put_u32` on a `BytesMut`: appends the four bytes of `n`, the most significant one
/// first.
#[verifier::external_body]
pub(crate) fn buffer_put_u32(buf: &mut BytesMut, n: u32)
    requires
        buffered(*old(buf)).len() + 4 <= buffer_limit(),
    ensures
        buffered(*final(buf)) == buffered(*old(buf)) + be_bytes(n),
{
    buf.put_u32(n)
}

/// `BufMut::put_slice` on a `BytesMut`: appends `bytes`.
#[verifier::external_body]
pub(crate) fn buffer_put_slice(buf: &mut BytesMut, bytes: &[u8])
    requires
        buffered(*old(buf)).len() + bytes@.len() <= buffer_limit(),
    ensures
        buffered(*final(buf)) == buffered(*old(buf)) + bytes@,
{
    buf.put_slice(bytes)
}

/// `BytesMut::split_to`: takes the first `at` bytes out and returns them. It panics where there
/// are fewer.
#[verifier::external_body]
pub(crate) fn buffer_split_to(buf: &mut BytesMut, at: usize) -> (front: BytesMut)
    requires
        at <= buffered(*old(buf)).len(),
    ensures
        buffered(front) == buffered(*old(buf)).take(at as int),
        buffered(*final(buf)) == buffered(*old(buf)).skip(at as int),
{
    buf.split_to(at)
}

/// `Buf::advance` on a `BytesMut`: drops the first `count` bytes. It panics where there are
/// fewer.
#[verifier::external_body]
pub(crate) fn buffer_advance(buf: &mut BytesMut, count: usize)
    requires
        count <= buffered(*old(buf)).len(),
    ensures
        buffered(*final(buf)) == buffered(*old(buf)).skip(count as int),
{
    buf.advance(count)
}

} // verus!
