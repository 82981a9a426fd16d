//! Reference-counted byte buffers as the drivers see them: a sequence of bytes.

use bytes::Bytes;
use vstd::prelude::*;

verus! {

/// `bytes::Bytes`, a cheaply cloneable and sliceable chunk of contiguous
/// memory. Nothing inside it is visible here; what it holds is `bytes_seq`.
#[verifier::external_type_specification]
#[verifier::external_body]
pub struct ExBytes(bytes::Bytes);

/// The bytes that a buffer holds, in order.
pub uninterp spec fn bytes_seq(b: Bytes) -> Seq<u8>;

/// `Bytes::len`: the number of bytes contained in the buffer. Believed, not
/// proved, as are the three contracts below.
#[verifier::external_body]
pub(crate) fn bytes_len(b: &Bytes) -> (n: usize)
    ensures
        n == bytes_seq(*b).len(),
{
    b.len()
}

/// `Bytes::copy_from_slice`: a fresh buffer holding a copy of `data`.
#[verifier::external_body]
pub(crate) fn bytes_copy_from_slice(data: &[u8]) -> (b: Bytes)
    ensures
        bytes_seq(b) == data@,
{
    Bytes::copy_from_slice(data)
}

/// `Bytes::slice`: a buffer over the bytes `begin..end` of `b`. The outside
/// function panics unless `begin <= end <= b.len()`, which is required here.
#[verifier::external_body]
pub(crate) fn bytes_slice(b: &Bytes, begin: usize, end: usize) -> (r: Bytes)
    requires
        begin <= end <= bytes_seq(*b).len(),
    ensures
        bytes_seq(r) == bytes_seq(*b).subrange(begin as int, end as int),
{
    b.slice(begin..end)
}

/// `AsRef<[u8]> for Bytes`, copied out: the buffer's bytes as a vector.
#[verifier::external_body]
pub(crate) fn bytes_to_vec(b: &Bytes) -> (v: Vec<u8>)
    ensures
        v@ == bytes_seq(*b),
{
    b.as_ref().to_vec()
}

} // verus!
