use vstd::prelude::*;

verus! {

/// The IEEE CRC-32 of a byte sequence, as computed by `crc32fast::hash`.
pub uninterp spec fn crc32_of(bytes: Seq<u8>) -> u32;

/// Computes the CRC-32 (IEEE) checksum of `buf` with `crc32fast::hash`.
///
/// Trusted: the contract only names the result as `crc32_of` of the bytes; the
/// checksum algorithm itself is not stated. `crc32fast::hash` is a pure function
/// of its input and never panics.
#[verifier::external_body]
pub(crate) fn crc32(buf: &[u8]) -> (c: u32)
    ensures
        c == crc32_of(buf@),
{
    crc32fast::hash(buf)
}

} // verus!
