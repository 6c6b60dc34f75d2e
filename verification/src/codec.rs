//! Little-endian integer encoding and byte-buffer helpers shared by the
//! on-disk formats.

use vstd::bytes::*;
use vstd::prelude::*;
use vstd::slice::slice_subrange;

verus! {

/// Little-endian bytes of a `u16`.
pub open spec fn le16(x: u16) -> Seq<u8> {
    spec_u16_to_le_bytes(x)
}

/// Little-endian bytes of a `u32`.
pub open spec fn le32(x: u32) -> Seq<u8> {
    spec_u32_to_le_bytes(x)
}

/// Little-endian bytes of a `u64`.
pub open spec fn le64(x: u64) -> Seq<u8> {
    spec_u64_to_le_bytes(x)
}

/// Little-endian bytes of a `u128`.
pub open spec fn le128(x: u128) -> Seq<u8> {
    spec_u128_to_le_bytes(x)
}

/// The `u16` that two little-endian bytes encode.
pub open spec fn from_le16(s: Seq<u8>) -> u16 {
    spec_u16_from_le_bytes(s)
}

/// The `u32` that four little-endian bytes encode.
pub open spec fn from_le32(s: Seq<u8>) -> u32 {
    spec_u32_from_le_bytes(s)
}

/// The `u64` that eight little-endian bytes encode.
pub open spec fn from_le64(s: Seq<u8>) -> u64 {
    spec_u64_from_le_bytes(s)
}

/// The `u128` that sixteen little-endian bytes encode.
pub open spec fn from_le128(s: Seq<u8>) -> u128 {
    spec_u128_from_le_bytes(s)
}

/// Lengths of the encodings and the decode-after-encode identities.
pub proof fn lemma_le_roundtrip()
    ensures
        forall|x: u16| #[trigger] le16(x).len() == 2 && from_le16(le16(x)) == x,
        forall|x: u32| #[trigger] le32(x).len() == 4 && from_le32(le32(x)) == x,
        forall|x: u64| #[trigger] le64(x).len() == 8 && from_le64(le64(x)) == x,
        forall|x: u128| #[trigger] le128(x).len() == 16 && from_le128(le128(x)) == x,
{
    lemma_auto_spec_u16_to_from_le_bytes();
    lemma_auto_spec_u32_to_from_le_bytes();
    lemma_auto_spec_u64_to_from_le_bytes();
    lemma_auto_spec_u128_to_from_le_bytes();
}

/// Appends all of `src` to `buf`.
pub fn append_bytes(buf: &mut Vec<u8>, src: &[u8])
    ensures
        final(buf)@ == old(buf)@ + src@,
{
    let ghost start = buf@;
    let mut i: usize = 0;
    while i < src.len()
        invariant
            i <= src@.len(),
            buf@ == start + src@.subrange(0, i as int),
        decreases src@.len() - i,
    {
        buf.push(src[i]);
        i = i + 1;
        assert(buf@ =~= start + src@.subrange(0, i as int));
    }
    assert(src@.subrange(0, i as int) =~= src@);
}

/// Appends the little-endian bytes of `x`.
pub fn push_u16(buf: &mut Vec<u8>, x: u16)
    ensures
        final(buf)@ == old(buf)@ + le16(x),
{
    let b = u16_to_le_bytes(x);
    append_bytes(buf, b.as_slice());
}

/// Appends the little-endian bytes of `x`.
pub fn push_u32(buf: &mut Vec<u8>, x: u32)
    ensures
        final(buf)@ == old(buf)@ + le32(x),
{
    let b = u32_to_le_bytes(x);
    append_bytes(buf, b.as_slice());
}

/// Appends the little-endian bytes of `x`.
pub fn push_u64(buf: &mut Vec<u8>, x: u64)
    ensures
        final(buf)@ == old(buf)@ + le64(x),
{
    let b = u64_to_le_bytes(x);
    append_bytes(buf, b.as_slice());
}

/// Appends the little-endian bytes of `x`.
pub fn push_u128(buf: &mut Vec<u8>, x: u128)
    ensures
        final(buf)@ == old(buf)@ + le128(x),
{
    let b = u128_to_le_bytes(x);
    append_bytes(buf, b.as_slice());
}

/// Reads a little-endian `u16` at `off`.
pub fn read_u16(data: &[u8], off: usize) -> (x: u16)
    requires
        off + 2 <= data@.len(),
    ensures
        x == from_le16(data@.subrange(off as int, off + 2)),
{
    let _n = data.len();
    u16_from_le_bytes(slice_subrange(data, off, off + 2))
}

/// Reads a little-endian `u32` at `off`.
pub fn read_u32(data: &[u8], off: usize) -> (x: u32)
    requires
        off + 4 <= data@.len(),
    ensures
        x == from_le32(data@.subrange(off as int, off + 4)),
{
    let _n = data.len();
    u32_from_le_bytes(slice_subrange(data, off, off + 4))
}

/// Reads a little-endian `u64` at `off`.
pub fn read_u64(data: &[u8], off: usize) -> (x: u64)
    requires
        off + 8 <= data@.len(),
    ensures
        x == from_le64(data@.subrange(off as int, off + 8)),
{
    let _n = data.len();
    u64_from_le_bytes(slice_subrange(data, off, off + 8))
}

/// Reads a little-endian `u128` at `off`.
pub fn read_u128(data: &[u8], off: usize) -> (x: u128)
    requires
        off + 16 <= data@.len(),
    ensures
        x == from_le128(data@.subrange(off as int, off + 16)),
{
    let _n = data.len();
    u128_from_le_bytes(slice_subrange(data, off, off + 16))
}

} // verus!
