//! Laws of the master-header format: decoding an encoded header gives it back.

use crate::checksum::crc32_of;
use crate::codec::{from_le32, from_le64, le32, le64, lemma_le_roundtrip};
use crate::header::{
    cf_check, cf_names_unique, first_cf_error, first_free_error, first_segment_error, free_check,
    header_ends_fit, segment_check, free_segment_at, free_segments_bytes, header_body, header_encodable, header_padded,
    header_page, magic_bytes, metadata_bytes, metadata_encodable, metadata_list_bytes,
    name_bytes, parse_header, parse_metadata, parse_metadata_list, segment_at, segment_bytes,
    segments_bytes, spec_header_from_bytes, spec_validate, zeros, FreeSegment, HeaderErrorView,
    HeaderView, MetadataView, Segment, FORMAT_VERSION, PAGE_SIZE,
};
use vstd::prelude::*;
use vstd::utf8::*;

verus! {

/// The sixteen bytes of one encoded segment decode to that segment.
proof fn lemma_segment_bytes_decode(d: Seq<u8>, at: int, offset: u64, size: u64)
    requires
        0 <= at,
        at + 16 <= d.len(),
        d.subrange(at, at + 16) == segment_bytes(offset, size),
    ensures
        segment_at(d, at) == (Segment { offset, size }),
        free_segment_at(d, at) == (FreeSegment { offset, size }),
{
    lemma_le_roundtrip();
    assert(d.subrange(at, at + 8) =~= d.subrange(at, at + 16).subrange(0, 8));
    assert(d.subrange(at + 8, at + 16) =~= d.subrange(at, at + 16).subrange(8, 16));
    assert(segment_bytes(offset, size).subrange(0, 8) =~= le64(offset));
    assert(segment_bytes(offset, size).subrange(8, 16) =~= le64(size));
}

/// Encoded segment lists are sixteen bytes per segment, and each decodes in place.
pub proof fn lemma_segments_decode(pre: Seq<u8>, segs: Seq<Segment>, post: Seq<u8>)
    ensures
        segments_bytes(segs).len() == 16 * segs.len(),
        forall|k: int|
            0 <= k < segs.len() ==> #[trigger] segment_at(
                pre + segments_bytes(segs) + post,
                pre.len() + 16 * k,
            ) == segs[k],
    decreases segs.len(),
{
    lemma_le_roundtrip();
    if segs.len() > 0 {
        let dl = segs.drop_last();
        let last = segs.last();
        let tail = segment_bytes(last.offset, last.size) + post;
        lemma_segments_decode(pre, dl, tail);
        let d = pre + segments_bytes(segs) + post;
        assert(d =~= pre + segments_bytes(dl) + tail);
        assert forall|k: int| 0 <= k < segs.len() implies #[trigger] segment_at(
            d,
            pre.len() + 16 * k,
        ) == segs[k] by {
            if k < dl.len() {
                assert(segment_at(pre + segments_bytes(dl) + tail, pre.len() + 16 * k) == dl[k]);
            } else {
                let at = pre.len() + 16 * k;
                assert(at == pre.len() + segments_bytes(dl).len());
                assert(d.subrange(at, at + 16) =~= segment_bytes(last.offset, last.size));
                lemma_segment_bytes_decode(d, at, last.offset, last.size);
            }
        }
    }
}

/// Free-segment analogue of `lemma_segments_decode`.
pub proof fn lemma_free_segments_decode(pre: Seq<u8>, segs: Seq<FreeSegment>, post: Seq<u8>)
    ensures
        free_segments_bytes(segs).len() == 16 * segs.len(),
        forall|k: int|
            0 <= k < segs.len() ==> #[trigger] free_segment_at(
                pre + free_segments_bytes(segs) + post,
                pre.len() + 16 * k,
            ) == segs[k],
    decreases segs.len(),
{
    lemma_le_roundtrip();
    if segs.len() > 0 {
        let dl = segs.drop_last();
        let last = segs.last();
        let tail = segment_bytes(last.offset, last.size) + post;
        lemma_free_segments_decode(pre, dl, tail);
        let d = pre + free_segments_bytes(segs) + post;
        assert(d =~= pre + free_segments_bytes(dl) + tail);
        assert forall|k: int| 0 <= k < segs.len() implies #[trigger] free_segment_at(
            d,
            pre.len() + 16 * k,
        ) == segs[k] by {
            if k < dl.len() {
                assert(free_segment_at(pre + free_segments_bytes(dl) + tail, pre.len() + 16 * k)
                    == dl[k]);
            } else {
                let at = pre.len() + 16 * k;
                assert(at == pre.len() + free_segments_bytes(dl).len());
                assert(d.subrange(at, at + 16) =~= segment_bytes(last.offset, last.size));
                lemma_segment_bytes_decode(d, at, last.offset, last.size);
            }
        }
    }
}

/// Decoding an encoded metadata entry, followed by any bytes, gives the entry back
/// together with the length of its encoding.
pub proof fn lemma_metadata_roundtrip(m: MetadataView, rest: Seq<u8>)
    requires
        metadata_encodable(m),
    ensures
        parse_metadata(metadata_bytes(m) + rest) == Ok::<(MetadataView, int), HeaderErrorView>(
            (m, metadata_bytes(m).len() as int),
        ),
{
    broadcast use vstd::utf8::group_utf8_lib;

    lemma_le_roundtrip();
    let nb = name_bytes(m.name);
    let nl = nb.len() as int;
    let pre = le32(nb.len() as u32) + nb + le32(m.segments.len() as u32);
    let d = metadata_bytes(m) + rest;
    lemma_segments_decode(pre, m.segments, rest);
    assert(d =~= pre + segments_bytes(m.segments) + rest);
    assert(d.subrange(0, 4) =~= le32(nb.len() as u32));
    assert(d.subrange(4, 4 + nl) =~= nb);
    assert(d.subrange(4 + nl, 8 + nl) =~= le32(m.segments.len() as u32));
    assert(decode_utf8(encode_utf8(m.name)) == m.name);
    let count = m.segments.len() as int;
    assert(pre.len() == 8 + nl);
    let parsed = Seq::new(count as nat, |k: int| segment_at(d, 8 + nl + 16 * k));
    assert forall|k: int| 0 <= k < count implies #[trigger] parsed[k] == m.segments[k] by {
        assert(segment_at(pre + segments_bytes(m.segments) + rest, pre.len() + 16 * k) == m.segments[k]);
    }
    assert(parsed =~= m.segments);
}

/// Decoding the concatenated encodings of a list of entries gives the list back.
pub proof fn lemma_metadata_list_roundtrip(pre: Seq<u8>, cfs: Seq<MetadataView>, post: Seq<u8>)
    requires
        forall|i: int| 0 <= i < cfs.len() ==> #[trigger] metadata_encodable(cfs[i]),
    ensures
        parse_metadata_list(pre + metadata_list_bytes(cfs) + post, pre.len() as int, cfs.len())
            == Ok::<(Seq<MetadataView>, int), HeaderErrorView>(
            (cfs, (pre.len() + metadata_list_bytes(cfs).len()) as int),
        ),
    decreases cfs.len(),
{
    let d = pre + metadata_list_bytes(cfs) + post;
    if cfs.len() == 0 {
        assert(cfs =~= Seq::<MetadataView>::empty());
        assert(metadata_list_bytes(cfs).len() == 0);
    } else {
        let dl = cfs.drop_last();
        let last = cfs.last();
        let tail = metadata_bytes(last) + post;
        assert forall|i: int| 0 <= i < dl.len() implies #[trigger] metadata_encodable(dl[i]) by {
            assert(metadata_encodable(cfs[i]));
        }
        lemma_metadata_list_roundtrip(pre, dl, tail);
        assert(metadata_list_bytes(cfs) == metadata_list_bytes(dl) + metadata_bytes(last));
        assert(d =~= pre + metadata_list_bytes(dl) + tail);
        let o = (pre.len() + metadata_list_bytes(dl).len()) as int;
        assert(parse_metadata_list(d, pre.len() as int, dl.len()) == Ok::<(Seq<MetadataView>, int), HeaderErrorView>((dl, o)));
        assert(d.subrange(o, d.len() as int) =~= metadata_bytes(last) + post);
        assert(metadata_encodable(cfs[cfs.len() - 1]));
        lemma_metadata_roundtrip(last, post);
        assert(dl.push(last) =~= cfs);
        assert(((cfs.len() - 1) as nat) == dl.len());
    }
}

/// An encoded header page is exactly one page long.
pub proof fn lemma_header_page_len(h: HeaderView)
    requires
        header_body(h).len() <= PAGE_SIZE - 4,
    ensures
        header_padded(h).len() == PAGE_SIZE - 4,
        header_page(h).len() == PAGE_SIZE,
{
    lemma_le_roundtrip();
}

/// Decoding the page that encodes a valid header gives that header back: for every
/// header that encodes within a page, carries the current format version and passes
/// validation, `from_bytes(to_bytes(h)) == h`.
pub proof fn lemma_header_roundtrip(h: HeaderView)
    requires
        header_encodable(h),
        header_body(h).len() <= PAGE_SIZE - 4,
        h.version == FORMAT_VERSION,
        spec_validate(h) == Ok::<(), HeaderErrorView>(()),
    ensures
        parse_header(header_page(h)) == Ok::<HeaderView, HeaderErrorView>(h),
        spec_header_from_bytes(header_page(h)) == Ok::<HeaderView, HeaderErrorView>(h),
{
    lemma_le_roundtrip();
    lemma_header_page_len(h);
    let body = header_body(h);
    let padded = header_padded(h);
    let d = header_page(h);
    let cfs = h.column_families;
    let fs = h.free_segments;
    let pre = magic_bytes() + seq![h.version] + le32(cfs.len() as u32);
    let fc_bytes = le32(fs.len() as u32);
    let crc_bytes = le32(crc32_of(padded));
    let pad = zeros((PAGE_SIZE - 4 - body.len()) as nat);
    let after_list = fc_bytes + free_segments_bytes(fs) + pad + crc_bytes;
    assert(d =~= pre + metadata_list_bytes(cfs) + after_list);
    assert(d.subrange(0, 9) =~= magic_bytes());
    assert(d.subrange(PAGE_SIZE - 4, PAGE_SIZE as int) =~= crc_bytes);
    assert(d.subrange(0, PAGE_SIZE - 4) =~= padded);
    assert(d[9] == h.version);
    assert(d.subrange(10, 14) =~= le32(cfs.len() as u32));
    assert(pre.len() == 14);
    assert forall|i: int| 0 <= i < cfs.len() implies #[trigger] metadata_encodable(cfs[i]) by {
        assert(metadata_encodable(h.column_families[i]));
    }
    lemma_metadata_list_roundtrip(pre, cfs, after_list);
    let o = 14 + metadata_list_bytes(cfs).len() as int;
    assert(d.subrange(o, o + 4) =~= fc_bytes);
    let pre2 = pre + metadata_list_bytes(cfs) + fc_bytes;
    let post2 = pad + crc_bytes;
    lemma_free_segments_decode(pre2, fs, post2);
    assert(d =~= pre2 + free_segments_bytes(fs) + post2);
    let parsed = Seq::new(fs.len(), |k: int| free_segment_at(d, o + 4 + 16 * k));
    assert forall|k: int| 0 <= k < fs.len() implies #[trigger] parsed[k] == fs[k] by {
        assert(free_segment_at(pre2 + free_segments_bytes(fs) + post2, pre2.len() + 16 * k) == fs[k]);
    }
    assert(parsed =~= fs);
}


/// A list of segments without a failing check has only passing segments.
proof fn lemma_segments_pass(name: Seq<char>, segs: Seq<Segment>)
    requires
        first_segment_error(name, segs) is None,
    ensures
        forall|k: int| 0 <= k < segs.len() ==> #[trigger] segment_check(name, segs[k]) is None,
    decreases segs.len(),
{
    if segs.len() > 0 {
        lemma_segments_pass(name, segs.drop_last());
        assert forall|k: int| 0 <= k < segs.len() implies #[trigger] segment_check(name, segs[k]) is None by {
            if k < segs.len() - 1 {
                assert(segs[k] == segs.drop_last()[k]);
            }
        }
    }
}

/// Column families without a failing check pass each check.
proof fn lemma_cfs_pass(cfs: Seq<MetadataView>, n: nat)
    requires
        n <= cfs.len(),
        first_cf_error(cfs, n) is None,
    ensures
        forall|i: int| 0 <= i < n ==> #[trigger] cf_check(cfs, i) is None,
    decreases n,
{
    if n > 0 {
        lemma_cfs_pass(cfs, (n - 1) as nat);
    }
}

/// Free segments without a failing check pass each check.
proof fn lemma_free_pass(segs: Seq<FreeSegment>)
    requires
        first_free_error(segs) is None,
    ensures
        forall|k: int| 0 <= k < segs.len() ==> #[trigger] free_check(segs[k]) is None,
    decreases segs.len(),
{
    if segs.len() > 0 {
        lemma_free_pass(segs.drop_last());
        assert forall|k: int| 0 <= k < segs.len() implies #[trigger] free_check(segs[k]) is None by {
            if k < segs.len() - 1 {
                assert(segs[k] == segs.drop_last()[k]);
            }
        }
    }
}

/// A header that validates has distinct column-family names and no segment (of a
/// column family or free) whose end overflows a u64.
pub proof fn lemma_valid_header(h: HeaderView)
    requires
        spec_validate(h) is Ok,
    ensures
        header_ends_fit(h),
        cf_names_unique(h.column_families),
{
    let cfs = h.column_families;
    lemma_cfs_pass(cfs, cfs.len());
    lemma_free_pass(h.free_segments);
    assert forall|i: int, j: int|
        0 <= i < cfs.len() && 0 <= j < cfs[i].segments.len() implies #[trigger] cfs[i].segments[j].spec_end() <= u64::MAX by {
        assert(cf_check(cfs, i) is None);
        lemma_segments_pass(cfs[i].name, cfs[i].segments);
        assert(segment_check(cfs[i].name, cfs[i].segments[j]) is None);
    }
    assert forall|k: int| 0 <= k < h.free_segments.len() implies #[trigger] h.free_segments[k].offset
        + h.free_segments[k].size <= u64::MAX by {
        assert(free_check(h.free_segments[k]) is None);
    }
    assert forall|i: int, j: int|
        0 <= i < cfs.len() && 0 <= j < cfs.len() && i != j implies #[trigger] cfs[i].name != #[trigger] cfs[j].name by {
        if j < i {
            assert(cf_check(cfs, i) is None);
        } else {
            assert(cf_check(cfs, j) is None);
        }
    }
}

} // verus!
