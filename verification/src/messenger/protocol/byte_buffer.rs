use vstd::prelude::*;

use bytes::{BufMut, BytesMut};

verus! {

/// `bytes::BytesMut`, a growable byte buffer; Verus sees nothing inside it,
/// and `bytes_mut_contents` names what it holds.
#[verifier::external_type_specification]
#[verifier::external_body]
pub struct ExBytesMut(BytesMut);

/// The bytes that a `BytesMut` holds, in order.
pub uninterp spec fn bytes_mut_contents(buffer: BytesMut) -> Seq<u8>;

/// The eight bytes of `n`, most significant first.
pub open spec fn u64_be_bytes(n: u64) -> Seq<u8> {
    seq![
        (n >> 56u64) as u8,
        (n >> 48u64) as u8,
        (n >> 40u64) as u8,
        (n >> 32u64) as u8,
        (n >> 24u64) as u8,
        (n >> 16u64) as u8,
        (n >> 8u64) as u8,
        n as u8,
    ]
}

/// `BytesMut::new`: an empty buffer.
#[verifier::external_body]
pub(crate) fn buffer_new() -> (buffer: BytesMut)
    ensures
        bytes_mut_contents(buffer) == Seq::<u8>::empty(),
{
    BytesMut::new()
}

/// `BufMut::put_u64` on a `BytesMut`: appends the eight bytes of `n` in
/// big-endian order. The buffer grows as needed. Growing can also fail
/// when memory runs out, or when doubling the allocation would pass
/// `isize::MAX` bytes; the contract only keeps the contents below that
/// size and says nothing of the allocation.
#[verifier::external_body]
pub(crate) fn buffer_put_u64(buffer: &mut BytesMut, n: u64)
    requires
        bytes_mut_contents(*old(buffer)).len() + 8 <= isize::MAX,
    ensures
        bytes_mut_contents(*final(buffer)) == bytes_mut_contents(*old(buffer)) + u64_be_bytes(n),
{
    buffer.put_u64(n)
}

/// `BufMut::put_slice` on a `BytesMut`: appends the bytes of `bytes`. The
/// buffer grows as needed. Growing can also fail when memory runs out, or
/// when doubling the allocation would pass `isize::MAX` bytes; the contract
/// only keeps the contents below that size and says nothing of the
/// allocation.
#[verifier::external_body]
pub(crate) fn buffer_put_slice(buffer: &mut BytesMut, bytes: &[u8])
    requires
        bytes_mut_contents(*old(buffer)).len() + bytes@.len() <= isize::MAX,
    ensures
        bytes_mut_contents(*final(buffer)) == bytes_mut_contents(*old(buffer)) + bytes@,
{
    buffer.put_slice(bytes)
}

/// `BytesMut::extend_from_slice`: appends the bytes of `bytes`. The buffer
/// grows as needed. Growing can also fail when memory runs out, or when
/// doubling the allocation would pass `isize::MAX` bytes; the contract only
/// keeps the contents below that size and says nothing of the allocation.
#[verifier::external_body]
pub(crate) fn buffer_extend_from_slice(buffer: &mut BytesMut, bytes: &[u8])
    requires
        bytes_mut_contents(*old(buffer)).len() + bytes@.len() <= isize::MAX,
    ensures
        bytes_mut_contents(*final(buffer)) == bytes_mut_contents(*old(buffer)) + bytes@,
{
    buffer.extend_from_slice(bytes)
}

/// `BytesMut` seen as a slice (`&buffer[..]`): the bytes it holds.
#[verifier::external_body]
pub(crate) fn buffer_as_slice(buffer: &BytesMut) -> (bytes: &[u8])
    ensures
        bytes@ == bytes_mut_contents(*buffer),
{
    &buffer[..]
}

} // verus!
