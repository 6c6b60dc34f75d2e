//! Laws of the log-entry encoding: decoding an encoded entry gives it back.

use crate::codec::{from_le128, from_le32, from_le64, le128, le32, le64, lemma_le_roundtrip};
use crate::wal::entry::{
    durability_byte, entry_bytes, pages_bytes, parse_entry, parse_pages, parse_payload,
    parse_root, payload_bytes, root_bytes, Durability, EntryView, PayloadView, WalError,
    WalField,
};
use crate::wal::page::{lemma_page_roundtrip, page_at, page_bytes, page_number_fits, PageNumber};
use vstd::prelude::*;
use vstd::utf8::*;

verus! {

/// Whether every page number of a payload fits its packed encoding and each page list
/// count fits in a u32.
pub open spec fn payload_encodable(p: PayloadView) -> bool {
    &&& p.freed_pages.len() <= u32::MAX
    &&& p.allocated_pages.len() <= u32::MAX
    &&& forall|i: int| 0 <= i < p.freed_pages.len() ==> #[trigger] page_number_fits(p.freed_pages[i])
    &&& forall|i: int|
        0 <= i < p.allocated_pages.len() ==> #[trigger] page_number_fits(p.allocated_pages[i])
    &&& (p.user_root matches Some((pn, c)) ==> page_number_fits(pn))
    &&& (p.system_root matches Some((pn, c)) ==> page_number_fits(pn))
}

/// Whether an entry can be encoded and decoded back: its name length fits in a u32
/// and its payload is encodable.
pub open spec fn entry_encodable(e: EntryView) -> bool {
    &&& encode_utf8(e.cf_name).len() <= u32::MAX
    &&& payload_encodable(e.payload)
}

/// Encoded page lists are eight bytes per page, and each page decodes in place.
pub proof fn lemma_pages_decode(pre: Seq<u8>, ps: Seq<PageNumber>, post: Seq<u8>)
    requires
        forall|i: int| 0 <= i < ps.len() ==> #[trigger] page_number_fits(ps[i]),
    ensures
        pages_bytes(ps).len() == 8 * ps.len(),
        forall|k: int|
            0 <= k < ps.len() ==> #[trigger] page_at(pre + pages_bytes(ps) + post, pre.len() + 8 * k)
                == ps[k],
    decreases ps.len(),
{
    if ps.len() > 0 {
        let dl = ps.drop_last();
        let last = ps.last();
        let tail = page_bytes(last) + post;
        assert forall|i: int| 0 <= i < dl.len() implies #[trigger] page_number_fits(dl[i]) by {
            assert(page_number_fits(ps[i]));
        }
        lemma_pages_decode(pre, dl, tail);
        assert(page_number_fits(ps[ps.len() - 1]));
        let d = pre + pages_bytes(ps) + post;
        assert(d =~= pre + pages_bytes(dl) + tail);
        let pre2 = pre + pages_bytes(dl);
        lemma_page_roundtrip(last, pre2, post);
        assert(d =~= pre2 + page_bytes(last) + post);
        assert forall|k: int| 0 <= k < ps.len() implies #[trigger] page_at(d, pre.len() + 8 * k)
            == ps[k] by {
            if k < dl.len() {
                assert(page_at(pre + pages_bytes(dl) + tail, pre.len() + 8 * k) == dl[k]);
            }
        }
    }
}

/// Decoding an encoded optional root gives it back, with the offset after it.
proof fn lemma_root_roundtrip(
    pre: Seq<u8>,
    r: Option<(PageNumber, u128)>,
    post: Seq<u8>,
    flag: WalField,
    root: WalField,
)
    requires
        r matches Some((pn, c)) ==> page_number_fits(pn),
    ensures
        parse_root(pre + root_bytes(r) + post, pre.len() as int, flag, root) == Ok::<
            (Option<(PageNumber, u128)>, int),
            WalError,
        >((r, (pre.len() + root_bytes(r).len()) as int)),
{
    lemma_le_roundtrip();
    let d = pre + root_bytes(r) + post;
    let o = pre.len() as int;
    match r {
        Some((pn, c)) => {
            lemma_page_roundtrip(pn, pre + seq![1u8], le128(c) + post);
            assert(d =~= pre + seq![1u8] + page_bytes(pn) + (le128(c) + post));
            assert(d[o] == 1);
            assert(d.subrange(o + 9, o + 25) =~= le128(c));
        },
        None => {
            assert(d[o] == 0);
        },
    }
}

/// Decoding an encoded page list gives it back, with the offset after it.
proof fn lemma_pages_roundtrip(
    pre: Seq<u8>,
    ps: Seq<PageNumber>,
    post: Seq<u8>,
    count: WalField,
    page: WalField,
)
    requires
        ps.len() <= u32::MAX,
        forall|i: int| 0 <= i < ps.len() ==> #[trigger] page_number_fits(ps[i]),
    ensures
        parse_pages(pre + le32(ps.len() as u32) + pages_bytes(ps) + post, pre.len() as int, count, page)
            == Ok::<(Seq<PageNumber>, int), WalError>(
            (ps, (pre.len() + 4 + pages_bytes(ps).len()) as int),
        ),
{
    lemma_le_roundtrip();
    let d = pre + le32(ps.len() as u32) + pages_bytes(ps) + post;
    let o = pre.len() as int;
    assert(d.subrange(o, o + 4) =~= le32(ps.len() as u32));
    let pre2 = pre + le32(ps.len() as u32);
    lemma_pages_decode(pre2, ps, post);
    let parsed = Seq::new(ps.len(), |k: int| page_at(d, o + 4 + 8 * k));
    assert forall|k: int| 0 <= k < ps.len() implies #[trigger] parsed[k] == ps[k] by {
        assert(page_at(pre2 + pages_bytes(ps) + post, pre2.len() + 8 * k) == ps[k]);
    }
    assert(parsed =~= ps);
}

/// Decoding an encoded payload, followed by any bytes, gives it back together with
/// the length of its encoding.
#[verifier::rlimit(60)]
pub proof fn lemma_payload_roundtrip(p: PayloadView, rest: Seq<u8>)
    requires
        payload_encodable(p),
    ensures
        parse_payload(payload_bytes(p) + rest) == Ok::<(PayloadView, int), WalError>(
            (p, payload_bytes(p).len() as int),
        ),
{
    lemma_le_roundtrip();
    let e = Seq::<u8>::empty();
    let u = root_bytes(p.user_root);
    let s = root_bytes(p.system_root);
    let fcount = le32(p.freed_pages.len() as u32);
    let fpages = pages_bytes(p.freed_pages);
    let acount = le32(p.allocated_pages.len() as u32);
    let apages = pages_bytes(p.allocated_pages);
    let dur = seq![durability_byte(p.durability)];
    let d = payload_bytes(p) + rest;
    let t4 = dur + rest;
    let t3 = acount + apages + t4;
    let t2 = fcount + fpages + t3;
    let t1 = s + t2;
    assert(d =~= e + u + t1) by {
        assert(d =~= u + s + fcount + fpages + acount + apages + dur + rest);
    }
    lemma_root_roundtrip(e, p.user_root, t1, WalField::UserRootFlag, WalField::UserRoot);
    assert(e + u =~= u);
    assert(d =~= u + s + t2);
    lemma_root_roundtrip(u, p.system_root, t2, WalField::SystemRootFlag, WalField::SystemRoot);
    let p2 = u + s;
    assert(d =~= p2 + fcount + fpages + t3);
    lemma_pages_roundtrip(p2, p.freed_pages, t3, WalField::FreedPagesCount, WalField::FreedPage);
    let p3 = p2 + fcount + fpages;
    assert(d =~= p3 + acount + apages + t4);
    lemma_pages_roundtrip(p3, p.allocated_pages, t4, WalField::AllocatedPagesCount, WalField::AllocatedPage);
    let p4 = p3 + acount + apages;
    assert(d =~= p4 + t4);
    let o4 = p4.len() as int;
    assert(d[o4] == durability_byte(p.durability));
    assert(o4 + 1 == payload_bytes(p).len());
}

/// Decoding an encoded entry, followed by any bytes, gives the entry back together
/// with the length of its encoding.
pub proof fn lemma_entry_roundtrip(e: EntryView, rest: Seq<u8>)
    requires
        entry_encodable(e),
    ensures
        parse_entry(entry_bytes(e) + rest) == Ok::<(EntryView, int), WalError>(
            (e, entry_bytes(e).len() as int),
        ),
{
    broadcast use vstd::utf8::group_utf8_lib;

    lemma_le_roundtrip();
    let nb = encode_utf8(e.cf_name);
    let nl = nb.len() as int;
    let d = entry_bytes(e) + rest;
    let head = le64(e.sequence) + le32(nb.len() as u32) + nb + le64(e.transaction_id);
    assert(d =~= head + (payload_bytes(e.payload) + rest));
    assert(d.subrange(0, 8) =~= le64(e.sequence));
    assert(d.subrange(8, 12) =~= le32(nb.len() as u32));
    assert(d.subrange(12, 12 + nl) =~= nb);
    assert(d.subrange(12 + nl, 20 + nl) =~= le64(e.transaction_id));
    assert(d.subrange(20 + nl, d.len() as int) =~= payload_bytes(e.payload) + rest);
    assert(decode_utf8(encode_utf8(e.cf_name)) == e.cf_name);
    lemma_payload_roundtrip(e.payload, rest);
}

} // verus!
