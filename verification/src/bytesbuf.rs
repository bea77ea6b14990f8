//! The receive buffer: `bytes::BytesMut`, the byte-buffer abstraction a
//! transport layer fills, declared for Verus with its contents named and
//! its two operations wrapped.
use vstd::prelude::*;

use bytes::Buf;
use bytes::BytesMut;

verus! {

#[verifier::external_type_specification]
#[verifier::external_body]
pub struct ExBytesMut(BytesMut);

/// The bytes a buffer currently holds, front first.
pub uninterp spec fn bytes_view(b: BytesMut) -> Seq<u8>;

/// Relies on the `Deref<Target = [u8]>` impl of `bytes::BytesMut`: the
/// slice of all bytes the buffer holds.
#[verifier::external_body]
pub(crate) fn buf_slice(b: &BytesMut) -> (r: &[u8])
    ensures
        r@ == bytes_view(*b),
{
    &b[..]
}

/// Relies on `bytes::Buf::advance` for `BytesMut`: removes exactly `cnt`
/// bytes from the front.  The call panics past the end, so the bound is
/// required here.
#[verifier::external_body]
pub(crate) fn buf_advance(b: &mut BytesMut, cnt: usize)
    requires
        cnt <= bytes_view(*old(b)).len(),
    ensures
        bytes_view(*final(b)) == bytes_view(*old(b)).subrange(
            cnt as int,
            bytes_view(*old(b)).len() as int,
        ),
{
    b.advance(cnt)
}

} // verus!
