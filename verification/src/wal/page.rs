//! Page addresses and B-tree roots as the write-ahead log records them.

use crate::codec::{from_le64, le64, lemma_le_roundtrip, push_u64, read_u64};
use vstd::prelude::*;

verus! {

/// Largest region number and page index that an encoded page number can hold.
pub const MAX_PAGE_INDEX: u32 = 0x000F_FFFF;

/// Largest page order that an encoded page number can hold.
pub const MAX_PAGE_ORDER: u8 = 0x1F;

/// The address of a page: region, index within the region, and order (log2 of
/// its size in base pages).
#[derive(Debug, Clone, Copy, PartialEq, Eq, Hash, Structural)]
pub struct PageNumber {
    pub region: u32,
    pub page_index: u32,
    pub page_order: u8,
}

/// Checksum of a B-tree page.
pub type Checksum = u128;

/// The 64-bit packing of a page number: index in bits 0..20, region in bits
/// 20..40, order in bits 59..64.
pub open spec fn page_number_bits(p: PageNumber) -> u64 {
    (p.page_index as u64 & 0xF_FFFF) | ((p.region as u64 & 0xF_FFFF) << 20u64) | ((
    p.page_order as u64 & 0x1F) << 59u64)
}

/// The page number that a 64-bit packing holds.
pub open spec fn page_number_from_bits(t: u64) -> PageNumber {
    PageNumber {
        region: ((t >> 20u64) & 0xF_FFFF) as u32,
        page_index: (t & 0xF_FFFF) as u32,
        page_order: ((t >> 59u64) & 0x1F) as u8,
    }
}

/// Whether every field of a page number fits its packed width.
pub open spec fn page_number_fits(p: PageNumber) -> bool {
    p.region <= MAX_PAGE_INDEX && p.page_index <= MAX_PAGE_INDEX && p.page_order <= MAX_PAGE_ORDER
}

/// Encoding of a page number: its packing, little-endian.
pub open spec fn page_bytes(p: PageNumber) -> Seq<u8> {
    le64(page_number_bits(p))
}

/// The page number encoded by the eight bytes of `d` at `at`.
pub open spec fn page_at(d: Seq<u8>, at: int) -> PageNumber {
    page_number_from_bits(from_le64(d.subrange(at, at + 8)))
}

/// Unpacking a packing gives the page number back when its fields fit.
pub proof fn lemma_page_bits_roundtrip(p: PageNumber)
    requires
        page_number_fits(p),
    ensures
        page_number_from_bits(page_number_bits(p)) == p,
{
    let r = p.region;
    let i = p.page_index;
    let o = p.page_order;
    let t = page_number_bits(p);
    assert(((((i as u64 & 0xF_FFFF) | ((r as u64 & 0xF_FFFF) << 20u64) | ((o as u64 & 0x1F) << 59u64)) >> 20u64) & 0xF_FFFF) == r as u64) by (bit_vector)
        requires r <= 0xF_FFFF;
    assert((((i as u64 & 0xF_FFFF) | ((r as u64 & 0xF_FFFF) << 20u64) | ((o as u64 & 0x1F) << 59u64)) & 0xF_FFFF) == i as u64) by (bit_vector)
        requires i <= 0xF_FFFF;
    assert(((((i as u64 & 0xF_FFFF) | ((r as u64 & 0xF_FFFF) << 20u64) | ((o as u64 & 0x1F) << 59u64)) >> 59u64) & 0x1F) == o as u64) by (bit_vector)
        requires o <= 0x1F;
}

impl PageNumber {
    /// Creates a page number.
    pub fn new(region: u32, page_index: u32, page_order: u8) -> (p: Self)
        ensures
            p == (PageNumber { region, page_index, page_order }),
    {
        Self { region, page_index, page_order }
    }

    /// The packed little-endian encoding (eight bytes).
    pub fn to_le_bytes(&self) -> (b: Vec<u8>)
        ensures
            b@ == page_bytes(*self),
    {
        let temp: u64 = (self.page_index as u64 & 0xF_FFFF) | ((self.region as u64 & 0xF_FFFF) << 20u64)
            | ((self.page_order as u64 & 0x1F) << 59u64);
        let mut b = Vec::new();
        push_u64(&mut b, temp);
        assert(b@ =~= page_bytes(*self));
        b
    }

    /// Decodes the eight bytes at the start of `bytes`.
    pub fn from_le_bytes(bytes: &[u8]) -> (p: Self)
        requires
            bytes@.len() >= 8,
        ensures
            p == page_at(bytes@, 0),
    {
        let temp = read_u64(bytes, 0);
        Self {
            region: ((temp >> 20u64) & 0xF_FFFF) as u32,
            page_index: (temp & 0xF_FFFF) as u32,
            page_order: ((temp >> 59u64) & 0x1F) as u8,
        }
    }
}

/// Decoding the encoding of a page number gives it back when its fields fit.
pub proof fn lemma_page_roundtrip(p: PageNumber, pre: Seq<u8>, post: Seq<u8>)
    requires
        page_number_fits(p),
    ensures
        page_bytes(p).len() == 8,
        page_at(pre + page_bytes(p) + post, pre.len() as int) == p,
{
    lemma_le_roundtrip();
    lemma_page_bits_roundtrip(p);
    let d = pre + page_bytes(p) + post;
    assert(d.subrange(pre.len() as int, (pre.len() + 8) as int) =~= page_bytes(p));
}

/// The root of a B-tree: its root page, the checksum of that page, and the number
/// of entries in the tree.
#[derive(Debug, Clone, Copy, PartialEq, Eq, Structural)]
pub struct BtreeHeader {
    pub root: PageNumber,
    pub checksum: Checksum,
    pub length: u64,
}

} // verus!
