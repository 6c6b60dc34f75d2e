//! Laws of the file layout: the pieces of the file that the header describes (the
//! segments of the column families and the free segments) never share a byte, and
//! creating a column family, handing out a segment and deleting a column family
//! each keep it so.

use crate::database::{
    allocation, best_fit, cfs_with_segment, first_named, free_after_allocation, has_fit,
    header_has, page_aligned_up, with_new_column_family, without_column_family, as_free,
};
use crate::database_laws::{lemma_allocation_placement, lemma_end_of_file_bounds};
use crate::header::{
    all_spans, cf_spans, free_spans, spans_of, insert_pos, overlap_error, sorted_by_start, spans_disjoint,
    spans_overlap, spec_validate, SpanView, bounds_all_ends, header_ends_fit, spec_end_of_file, FreeSegment, HeaderView, MetadataView, Segment,
    cf_check, segment_check, first_cf_error, first_free_error, first_segment_error, is_page_or_some_end, lemma_end_of_file_unique,
    PAGE_SIZE};
use vstd::prelude::*;

verus! {

/// Two byte ranges of the file share at least one byte.
pub open spec fn seg_overlap(a: Segment, b: Segment) -> bool {
    a.offset < b.offset + b.size && b.offset < a.offset + a.size
}

/// A free segment as the byte range it covers.
pub open spec fn free_range(f: FreeSegment) -> Segment {
    Segment { offset: f.offset, size: f.size }
}

/// `(i, j)` names a piece of the layout: segment `j` of column family `i` when `i`
/// is below the number of column families, free segment `j` when `i` equals it.
pub open spec fn is_piece(h: HeaderView, i: int, j: int) -> bool {
    ||| 0 <= i < h.column_families.len() && 0 <= j < h.column_families[i].segments.len()
    ||| i == h.column_families.len() && 0 <= j < h.free_segments.len()
}

/// The byte range of piece `(i, j)`.
pub open spec fn piece(h: HeaderView, i: int, j: int) -> Segment {
    if i < h.column_families.len() {
        h.column_families[i].segments[j]
    } else {
        free_range(h.free_segments[j])
    }
}

/// No two pieces of the layout share a byte.
pub open spec fn layout_disjoint(h: HeaderView) -> bool {
    forall|i1: int, j1: int, i2: int, j2: int|
        #![trigger piece(h, i1, j1), piece(h, i2, j2)]
        is_piece(h, i1, j1) && is_piece(h, i2, j2) && !(i1 == i2 && j1 == j2) ==> !seg_overlap(
            piece(h, i1, j1),
            piece(h, i2, j2),
        )
}

/// A range that lies within `f` shares no byte with what `f` shares none with.
proof fn lemma_inside(x: Segment, f: Segment, y: Segment)
    requires
        f.offset <= x.offset,
        x.offset + x.size <= f.offset + f.size,
        !seg_overlap(f, y),
    ensures
        !seg_overlap(x, y),
        !seg_overlap(y, x),
{
}

/// A range that starts at or after the end of every piece shares no byte with any.
proof fn lemma_beyond(h: HeaderView, x: Segment, i: int, j: int)
    requires
        is_piece(h, i, j),
        forall|a: int, b: int|
            0 <= a < h.column_families.len() && 0 <= b < h.column_families[a].segments.len()
                ==> #[trigger] h.column_families[a].segments[b].spec_end() <= x.offset,
        forall|k: int|
            0 <= k < h.free_segments.len() ==> #[trigger] h.free_segments[k].offset
                + h.free_segments[k].size <= x.offset,
    ensures
        !seg_overlap(x, piece(h, i, j)),
        !seg_overlap(piece(h, i, j), x),
{
    if i < h.column_families.len() {
        assert(h.column_families[i].segments[j].spec_end() <= x.offset);
    } else {
        assert(h.free_segments[j].offset + h.free_segments[j].size <= x.offset);
    }
}

/// Creating a column family keeps the layout disjoint: its one segment starts at
/// the end of the file, past every piece.
pub proof fn lemma_create_keeps_disjoint(h: HeaderView, name: Seq<char>, size: u64)
    requires
        layout_disjoint(h),
        header_ends_fit(h),
    ensures
        layout_disjoint(with_new_column_family(h, name, size)),
{
    let h2 = with_new_column_family(h, name, size);
    let n = h.column_families.len() as int;
    let seg = Segment { offset: spec_end_of_file(h) as u64, size };
    lemma_end_of_file_fits(h);
    assert(h2.column_families[n].segments[0] == seg);
    assert forall|a: int, b: int|
        0 <= a < h.column_families.len() && 0 <= b < h.column_families[a].segments.len()
            implies #[trigger] h.column_families[a].segments[b].spec_end() <= seg.offset by {}
    assert forall|k: int| 0 <= k < h.free_segments.len() implies #[trigger] h.free_segments[k].offset
        + h.free_segments[k].size <= seg.offset by {}
    // Where a piece of the new layout comes from: the old piece it equals, or the new
    // segment (reported as `(-1, -1)`).
    let from = |i: int, j: int|
        if i < n {
            (i, j)
        } else if i == n {
            (-1, -1)
        } else {
            (n, j)
        };
    assert forall|i: int, j: int| #[trigger] is_piece(h2, i, j) implies {
        let (a, b) = from(i, j);
        if a < 0 {
            piece(h2, i, j) == seg
        } else {
            is_piece(h, a, b) && piece(h2, i, j) == piece(h, a, b)
        }
    } by {
        if i < n {
            assert(h2.column_families[i] == h.column_families[i]);
        }
    }
    assert forall|i1: int, j1: int, i2: int, j2: int|
        #![trigger piece(h2, i1, j1), piece(h2, i2, j2)]
        is_piece(h2, i1, j1) && is_piece(h2, i2, j2) && !(i1 == i2 && j1 == j2) implies !seg_overlap(
            piece(h2, i1, j1),
            piece(h2, i2, j2),
        ) by {
        let (a1, b1) = from(i1, j1);
        let (a2, b2) = from(i2, j2);
        if a1 < 0 && a2 < 0 {
            assert(i1 == n && i2 == n);
            assert(h2.column_families[n].segments.len() == 1);
        } else if a1 < 0 {
            lemma_beyond(h, seg, a2, b2);
        } else if a2 < 0 {
            lemma_beyond(h, seg, a1, b1);
        } else {
            assert(piece(h, a1, b1) == piece(h2, i1, j1));
            assert(piece(h, a2, b2) == piece(h2, i2, j2));
        }
    }
}

/// Deleting a column family keeps the layout disjoint: its segments move to the
/// free list unchanged.
pub proof fn lemma_delete_keeps_disjoint(h: HeaderView, c: int)
    requires
        layout_disjoint(h),
        0 <= c < h.column_families.len(),
    ensures
        layout_disjoint(without_column_family(h, c)),
{
    let h2 = without_column_family(h, c);
    let n = h.column_families.len() as int;
    let nf = h.free_segments.len() as int;
    let moved = h.column_families[c].segments;
    let from = |i: int, j: int|
        if i < c {
            (i, j)
        } else if i < n - 1 {
            (i + 1, j)
        } else if j < nf {
            (n, j)
        } else {
            (c, j - nf)
        };
    assert forall|i: int, j: int| #[trigger] is_piece(h2, i, j) implies {
        let (a, b) = from(i, j);
        is_piece(h, a, b) && piece(h2, i, j) == piece(h, a, b)
    } by {
        if i < c {
            assert(h2.column_families[i] == h.column_families[i]);
        } else if i < n - 1 {
            assert(h2.column_families[i] == h.column_families[i + 1]);
        } else if j < nf {
            assert(h2.free_segments[j] == h.free_segments[j]);
        } else {
            assert(h2.free_segments[j] == as_free(moved)[j - nf]);
        }
    }
    assert forall|i1: int, j1: int, i2: int, j2: int|
        #![trigger piece(h2, i1, j1), piece(h2, i2, j2)]
        is_piece(h2, i1, j1) && is_piece(h2, i2, j2) && !(i1 == i2 && j1 == j2) implies !seg_overlap(
            piece(h2, i1, j1),
            piece(h2, i2, j2),
        ) by {
        let (a1, b1) = from(i1, j1);
        let (a2, b2) = from(i2, j2);
        assert(piece(h, a1, b1) == piece(h2, i1, j1));
        assert(piece(h, a2, b2) == piece(h2, i2, j2));
        assert(!(a1 == a2 && b1 == b2));
    }
}

/// Handing out a segment keeps the layout disjoint: a segment taken from a free
/// segment and the rest of that free segment lie within it and apart from each
/// other, and a segment taken at the end of the file lies past every piece.
pub proof fn lemma_allocate_keeps_disjoint(h: HeaderView, name: Seq<char>, size: u64)
    requires
        layout_disjoint(h),
        header_ends_fit(h),
        !has_fit(h.free_segments, size) ==> page_aligned_up(spec_end_of_file(h)) + size <= u64::MAX,
    ensures
        layout_disjoint(
            HeaderView {
                column_families: cfs_with_segment(h.column_families, name, allocation(h, size)),
                free_segments: free_after_allocation(h.free_segments, size),
                ..h
            },
        ),
{
    let seg = allocation(h, size);
    let h2 = HeaderView {
        column_families: cfs_with_segment(h.column_families, name, seg),
        free_segments: free_after_allocation(h.free_segments, size),
        ..h
    };
    let n = h.column_families.len() as int;
    let free = h.free_segments;
    lemma_allocation_placement(h, size);
    let fit = has_fit(free, size);
    let bi = best_fit(free, size);
    if fit {
        crate::database::lemma_best_fit_upto(free, size, free.len() as int);
        let w = choose|w: int| 0 <= w < free.len() && #[trigger] crate::database::can_hold(free[w], size);
        assert(crate::database::can_hold(free[w], size));
        assert(0 <= bi < free.len());
    }
    let owner = if header_has(h.column_families, name) { first_named(h.column_families, name) } else { -1 };
    if header_has(h.column_families, name) {
        let j = choose|j: int| 0 <= j < h.column_families.len() && #[trigger] h.column_families[j].name == name;
        lemma_first_exists(h.column_families, name, j);
        assert(crate::database::is_first_named(h.column_families, name, owner));
    }
    assert(h2.column_families.len() == n);
    let nf_rest = if fit { free.len() - 1 } else { free.len() as int };
    // Where a piece of the new layout comes from: the old piece it equals, the new
    // segment (`(-1, 0)`), or the rest of the free segment it was cut from (`(-2, 0)`).
    let from = |i: int, j: int|
        if i < n {
            if i == owner && j == h.column_families[i].segments.len() {
                (-1, 0)
            } else {
                (i, j)
            }
        } else if j < nf_rest {
            if fit && j >= bi {
                (n, j + 1)
            } else {
                (n, j)
            }
        } else {
            (-2, 0)
        };
    let f = if fit { free_range(free[bi]) } else { seg };
    let rest = Segment { offset: (f.offset + size) as u64, size: (f.size - size) as u64 };
    assert forall|i: int, j: int| #[trigger] is_piece(h2, i, j) implies {
        let (a, b) = from(i, j);
        if a == -1 {
            piece(h2, i, j) == seg
        } else if a == -2 {
            fit && piece(h2, i, j) == rest && f.size > size
        } else {
            is_piece(h, a, b) && piece(h2, i, j) == piece(h, a, b) && !(fit && a == n && b == bi)
        }
    } by {
        if i < n {
            if i != owner {
                assert(h2.column_families[i] == h.column_families[i]);
            }
        } else if fit {
            let r = free.remove(bi);
            if j < nf_rest {
                if j >= bi {
                    assert(r[j] == free[j + 1]);
                } else {
                    assert(r[j] == free[j]);
                }
            }
        }
    }
    assert forall|i1: int, j1: int, i2: int, j2: int|
        #![trigger piece(h2, i1, j1), piece(h2, i2, j2)]
        is_piece(h2, i1, j1) && is_piece(h2, i2, j2) && !(i1 == i2 && j1 == j2) implies !seg_overlap(
            piece(h2, i1, j1),
            piece(h2, i2, j2),
        ) by {
        let (a1, b1) = from(i1, j1);
        let (a2, b2) = from(i2, j2);
        if a1 >= 0 && a2 >= 0 {
            assert(piece(h, a1, b1) == piece(h2, i1, j1));
            assert(piece(h, a2, b2) == piece(h2, i2, j2));
        } else if a1 < 0 && a2 < 0 {
            assert(a1 != a2);
        } else {
            let (new, ao, bo) = if a1 < 0 { (piece(h2, i1, j1), a2, b2) } else { (piece(h2, i2, j2), a1, b1) };
            if fit {
                assert(is_piece(h, n, bi));
                assert(!seg_overlap(f, piece(h, ao, bo))) by {
                    assert(piece(h, n, bi) == f);
                }
                lemma_inside(new, f, piece(h, ao, bo));
            } else {
                lemma_beyond(h, seg, ao, bo);
            }
        }
    }
}

/// The number of segments of the first `i` column families.
pub open spec fn seg_count(cfs: Seq<MetadataView>, i: int) -> int
    decreases i,
{
    if i <= 0 {
        0
    } else {
        seg_count(cfs, i - 1) + cfs[i - 1].segments.len()
    }
}

proof fn lemma_seg_count_prefix(cfs: Seq<MetadataView>, i: int)
    requires
        0 <= i < cfs.len(),
    ensures
        seg_count(cfs.drop_last(), i) == seg_count(cfs, i),
    decreases i,
{
    if i > 0 {
        lemma_seg_count_prefix(cfs, i - 1);
        assert(cfs.drop_last()[i - 1] == cfs[i - 1]);
    }
}

proof fn lemma_seg_count_mono(cfs: Seq<MetadataView>, a: int, b: int)
    requires
        0 <= a <= b,
    ensures
        seg_count(cfs, a) <= seg_count(cfs, b),
    decreases b - a,
{
    if a < b {
        lemma_seg_count_mono(cfs, a, b - 1);
    }
}

/// Segment `j` of column family `i` is span `seg_count(cfs, i) + j` of the
/// column-family spans.
spec fn span_matches(cfs: Seq<MetadataView>, i: int, j: int) -> bool {
    let k = seg_count(cfs, i) + j;
    &&& 0 <= k < cf_spans(cfs).len()
    &&& cf_spans(cfs)[k].start == cfs[i].segments[j].offset
    &&& cf_spans(cfs)[k].end == cfs[i].segments[j].spec_end()
}

proof fn lemma_cf_spans(cfs: Seq<MetadataView>)
    ensures
        cf_spans(cfs).len() == seg_count(cfs, cfs.len() as int),
        forall|i: int, j: int|
            0 <= i < cfs.len() && 0 <= j < cfs[i].segments.len() ==> #[trigger] span_matches(cfs, i, j),
    decreases cfs.len(),
{
    if cfs.len() > 0 {
        let d = cfs.drop_last();
        let n = cfs.len() - 1;
        lemma_cf_spans(d);
        lemma_seg_count_prefix(cfs, n);
        assert(cf_spans(cfs) == cf_spans(d) + spans_of(cfs.last()));
        assert forall|i: int, j: int| 0 <= i < cfs.len() && 0 <= j < cfs[i].segments.len() implies #[trigger] span_matches(
            cfs,
            i,
            j,
        ) by {
            lemma_seg_count_mono(cfs, 0, i);
            let k = seg_count(cfs, i) + j;
            if i < n {
                lemma_seg_count_prefix(cfs, i);
                lemma_seg_count_mono(d, i + 1, n);
                assert(d[i] == cfs[i]);
                assert(seg_count(d, i + 1) == seg_count(d, i) + d[i].segments.len());
                assert(span_matches(d, i, j));
                assert(cf_spans(cfs)[k] == cf_spans(d)[k]);
            } else {
                assert(cfs.last() == cfs[i]);
                assert(cf_spans(cfs)[k] == spans_of(cfs.last())[j]);
            }
        }
    }
}

/// `insert_pos` is a position within the sequence or just past it.
proof fn lemma_insert_pos(s: Seq<SpanView>, x: SpanView)
    ensures
        0 <= insert_pos(s, x) <= s.len(),
    decreases s.len(),
{
    if s.len() > 0 {
        lemma_insert_pos(s.drop_last(), x);
    }
}

/// Where `s[a]` lands in `sorted_by_start(s)`.
spec fn sorted_index(s: Seq<SpanView>, a: int) -> int
    decreases s.len(),
{
    if s.len() == 0 {
        0
    } else {
        let p = insert_pos(sorted_by_start(s.drop_last()), s.last());
        if a == s.len() - 1 {
            p
        } else {
            let q = sorted_index(s.drop_last(), a);
            if q < p {
                q
            } else {
                q + 1
            }
        }
    }
}

/// Sorting by start rearranges the spans: each lands at its own place.
proof fn lemma_sorted_index(s: Seq<SpanView>)
    ensures
        sorted_by_start(s).len() == s.len(),
        forall|a: int|
            0 <= a < s.len() ==> 0 <= #[trigger] sorted_index(s, a) < s.len() && sorted_by_start(s)[sorted_index(s, a)]
                == s[a],
        forall|a: int, b: int|
            0 <= a < s.len() && 0 <= b < s.len() && a != b ==> #[trigger] sorted_index(s, a)
                != #[trigger] sorted_index(s, b),
    decreases s.len(),
{
    if s.len() > 0 {
        let d = s.drop_last();
        let n = d.len() as int;
        lemma_sorted_index(d);
        let rest = sorted_by_start(d);
        lemma_insert_pos(rest, s.last());
        let p = insert_pos(rest, s.last());
        let t = rest.insert(p, s.last());
        assert(sorted_by_start(s) == t);
        assert forall|a: int| 0 <= a < s.len() implies 0 <= #[trigger] sorted_index(s, a) < s.len()
            && sorted_by_start(s)[sorted_index(s, a)] == s[a] by {
            if a < n {
                assert(d[a] == s[a]);
                let q = sorted_index(d, a);
                assert(rest[q] == d[a]);
            }
        }
        assert forall|a: int, b: int| 0 <= a < s.len() && 0 <= b < s.len() && a != b implies #[trigger] sorted_index(s, a)
            != #[trigger] sorted_index(s, b) by {
            if a < n && b < n {
                assert(sorted_index(d, a) != sorted_index(d, b));
            } else if a < n {
                assert(0 <= sorted_index(d, a) < n);
            } else if b < n {
                assert(0 <= sorted_index(d, b) < n);
            }
        }
    }
}

/// A header that validates has a disjoint layout: validation finds no two spans
/// that overlap, and the spans are the pieces of the layout.
pub proof fn lemma_valid_layout_disjoint(h: HeaderView)
    requires
        spec_validate(h) is Ok,
    ensures
        layout_disjoint(h),
{
    let cfs = h.column_families;
    let fs = h.free_segments;
    let s = all_spans(h);
    let t = sorted_by_start(s);
    assert(overlap_error(t) is None);
    assert(spans_disjoint(t));
    lemma_sorted_index(s);
    lemma_cf_spans(cfs);
    let nc = cf_spans(cfs).len() as int;
    assert(s.len() == nc + fs.len());
    assert forall|a: int, b: int| 0 <= a < s.len() && 0 <= b < s.len() && a != b implies !spans_overlap(s[a], s[b]) by {
        let pa = sorted_index(s, a);
        let pb = sorted_index(s, b);
        assert(pa != pb);
        assert(t[pa] == s[a] && t[pb] == s[b]);
    }
    let n = cfs.len() as int;
    let idx = |i: int, j: int|
        if i < n {
            seg_count(cfs, i) + j
        } else {
            nc + j
        };
    assert forall|i: int, j: int| #[trigger] is_piece(h, i, j) implies {
        &&& 0 <= idx(i, j) < s.len()
        &&& s[idx(i, j)].start == piece(h, i, j).offset
        &&& s[idx(i, j)].end == piece(h, i, j).offset + piece(h, i, j).size
        &&& i < n ==> idx(i, j) < nc
        &&& i == n ==> idx(i, j) >= nc
    } by {
        if i < n {
            assert(cfs[i].segments[j] == piece(h, i, j));
            assert(span_matches(cfs, i, j));
            assert(seg_count(cfs, i) >= 0) by {
                lemma_seg_count_mono(cfs, 0, i);
            }
        } else {
            assert(s[nc + j] == free_spans(fs)[j]);
        }
    }
    assert forall|i1: int, j1: int, i2: int, j2: int|
        #![trigger piece(h, i1, j1), piece(h, i2, j2)]
        is_piece(h, i1, j1) && is_piece(h, i2, j2) && !(i1 == i2 && j1 == j2) implies !seg_overlap(
            piece(h, i1, j1),
            piece(h, i2, j2),
        ) by {
        let a = idx(i1, j1);
        let b = idx(i2, j2);
        if i1 < n && i2 < n {
            if i1 < i2 {
                lemma_seg_count_mono(cfs, i1 + 1, i2);
            } else if i2 < i1 {
                lemma_seg_count_mono(cfs, i2 + 1, i1);
            }
        }
        assert(a != b);
        assert(!spans_overlap(s[a], s[b]));
    }
}

/// With every segment end within a u64, so is the end of the file, which bounds
/// every end.
proof fn lemma_end_of_file_fits(h: HeaderView)
    requires
        header_ends_fit(h),
    ensures
        spec_end_of_file(h) <= u64::MAX,
        bounds_all_ends(h, spec_end_of_file(h)),
{
    lemma_end_of_file_bounds(h);
    let e = spec_end_of_file(h);
    if e != crate::header::PAGE_SIZE {
        if exists|i: int, j: int|
            0 <= i < h.column_families.len() && 0 <= j < h.column_families[i].segments.len()
                && #[trigger] h.column_families[i].segments[j].spec_end() == e {
            let (i, j) = choose|i: int, j: int|
                0 <= i < h.column_families.len() && 0 <= j < h.column_families[i].segments.len()
                    && #[trigger] h.column_families[i].segments[j].spec_end() == e;
            assert(h.column_families[i].segments[j].spec_end() <= u64::MAX);
        } else {
            let k = choose|k: int| 0 <= k < h.free_segments.len() && #[trigger] h.free_segments[k].offset
                + h.free_segments[k].size == e;
            assert(h.free_segments[k].offset + h.free_segments[k].size <= u64::MAX);
        }
    }
}

/// Some column family named `name` makes one the first so named.
proof fn lemma_first_exists(cfs: Seq<MetadataView>, name: Seq<char>, j: int)
    requires
        0 <= j < cfs.len(),
        cfs[j].name == name,
    ensures
        exists|w: int| crate::database::is_first_named(cfs, name, w),
    decreases j,
{
    if exists|k: int| 0 <= k < j && #[trigger] cfs[k].name == name {
        let k = choose|k: int| 0 <= k < j && #[trigger] cfs[k].name == name;
        lemma_first_exists(cfs, name, k);
    } else {
        assert(crate::database::is_first_named(cfs, name, j));
    }
}


/// Some element of `s` lands at position `q` of `sorted_by_start(s)`.
spec fn covered(s: Seq<SpanView>, q: int) -> bool {
    exists|a: int| 0 <= a < s.len() && #[trigger] sorted_index(s, a) == q
}

/// Every position of `sorted_by_start(s)` holds some element of `s`.
proof fn lemma_sorted_covers(s: Seq<SpanView>)
    ensures
        forall|q: int| 0 <= q < s.len() ==> #[trigger] covered(s, q),
    decreases s.len(),
{
    if s.len() > 0 {
        let d = s.drop_last();
        let n = d.len() as int;
        lemma_sorted_covers(d);
        lemma_sorted_index(d);
        let rest = sorted_by_start(d);
        lemma_insert_pos(rest, s.last());
        let p = insert_pos(rest, s.last());
        assert forall|q: int| 0 <= q < s.len() implies #[trigger] covered(s, q) by {
            if q == p {
                assert(sorted_index(s, n) == q);
            } else if q < p {
                assert(covered(d, q));
                let a = choose|a: int| 0 <= a < d.len() && #[trigger] sorted_index(d, a) == q;
                assert(sorted_index(s, a) == q);
            } else {
                assert(covered(d, q - 1));
                let a = choose|a: int| 0 <= a < d.len() && #[trigger] sorted_index(d, a) == q - 1;
                assert(sorted_index(s, a) == q);
            }
        }
    }
}

/// Spans that pairwise do not overlap still do not once sorted by start.
proof fn lemma_disjoint_sorted(s: Seq<SpanView>)
    requires
        forall|a: int, b: int| 0 <= a < s.len() && 0 <= b < s.len() && a != b ==> !spans_overlap(#[trigger] s[a], #[trigger] s[b]),
    ensures
        spans_disjoint(sorted_by_start(s)),
{
    let t = sorted_by_start(s);
    lemma_sorted_index(s);
    lemma_sorted_covers(s);
    assert forall|x: int, y: int| 0 <= x < y < t.len() implies !spans_overlap(#[trigger] t[x], #[trigger] t[y]) by {
        assert(covered(s, x) && covered(s, y));
        let a = choose|a: int| 0 <= a < s.len() && #[trigger] sorted_index(s, a) == x;
        let b = choose|b: int| 0 <= b < s.len() && #[trigger] sorted_index(s, b) == y;
        assert(t[x] == s[a] && t[y] == s[b]);
        assert(s[a] == s[a] && s[b] == s[b]);
    }
}

/// The spans of a validating header pairwise do not overlap.
proof fn lemma_valid_spans_apart(h: HeaderView)
    requires
        spec_validate(h) is Ok,
    ensures
        forall|a: int, b: int| 0 <= a < all_spans(h).len() && 0 <= b < all_spans(h).len() && a != b
            ==> !spans_overlap(#[trigger] all_spans(h)[a], #[trigger] all_spans(h)[b]),
{
    let s = all_spans(h);
    let t = sorted_by_start(s);
    assert(overlap_error(t) is None);
    lemma_sorted_index(s);
    assert forall|a: int, b: int| 0 <= a < s.len() && 0 <= b < s.len() && a != b implies !spans_overlap(#[trigger] s[a], #[trigger] s[b]) by {
        let pa = sorted_index(s, a);
        let pb = sorted_index(s, b);
        assert(t[pa] == s[a] && t[pb] == s[b]);
        if pa < pb {
            assert(!spans_overlap(t[pa], t[pb]));
        } else {
            assert(!spans_overlap(t[pb], t[pa]));
        }
    }
}

/// Every column-family span ends where some segment ends.
proof fn lemma_cf_spans_end_by(cfs: Seq<MetadataView>, e: int)
    requires
        forall|i: int, j: int| 0 <= i < cfs.len() && 0 <= j < cfs[i].segments.len() ==> #[trigger] cfs[i].segments[j].spec_end() <= e,
    ensures
        forall|k: int| 0 <= k < cf_spans(cfs).len() ==> #[trigger] cf_spans(cfs)[k].end <= e,
    decreases cfs.len(),
{
    if cfs.len() > 0 {
        let d = cfs.drop_last();
        assert forall|i: int, j: int| 0 <= i < d.len() && 0 <= j < d[i].segments.len() implies #[trigger] d[i].segments[j].spec_end() <= e by {
            assert(d[i] == cfs[i]);
        }
        lemma_cf_spans_end_by(d, e);
        let m = cfs.last();
        assert(cf_spans(cfs) == cf_spans(d) + spans_of(m));
        assert forall|k: int| 0 <= k < cf_spans(cfs).len() implies #[trigger] cf_spans(cfs)[k].end <= e by {
            if k >= cf_spans(d).len() {
                let j = k - cf_spans(d).len();
                assert(cf_spans(cfs)[k] == spans_of(m)[j]);
                assert(m == cfs[cfs.len() - 1]);
                assert(m.segments[j].spec_end() <= e);
            }
        }
    }
}

/// Column families that agree on their first `n` entries agree on the first error
/// among them.
proof fn lemma_first_cf_error_prefix(a: Seq<MetadataView>, b: Seq<MetadataView>, n: nat)
    requires
        n <= a.len(),
        n <= b.len(),
        forall|i: int| 0 <= i < n ==> #[trigger] a[i] == b[i],
    ensures
        first_cf_error(a, n) == first_cf_error(b, n),
    decreases n,
{
    if n > 0 {
        lemma_first_cf_error_prefix(a, b, (n - 1) as nat);
        let i = n - 1;
        assert(a[i] == b[i]);
        assert((exists|j: int| 0 <= j < i && #[trigger] a[j].name == a[i].name) == (exists|j: int| 0 <= j < i && #[trigger] b[j].name == b[i].name)) by {
            if exists|j: int| 0 <= j < i && #[trigger] a[j].name == a[i].name {
                let j = choose|j: int| 0 <= j < i && #[trigger] a[j].name == a[i].name;
                assert(b[j] == a[j]);
            }
            if exists|j: int| 0 <= j < i && #[trigger] b[j].name == b[i].name {
                let j = choose|j: int| 0 <= j < i && #[trigger] b[j].name == b[i].name;
                assert(b[j] == a[j]);
            }
        }
        assert(cf_check(a, i) == cf_check(b, i));
    }
}

/// Creating a column family whose size is a whole number of pages, under a new
/// non-empty name, in a header that validates and ends the file on a page boundary,
/// gives a header that validates too, and the file then ends `size` bytes later,
/// again on a page boundary.
pub proof fn lemma_create_keeps_valid(h: HeaderView, name: Seq<char>, size: u64)
    requires
        spec_validate(h) is Ok,
        name.len() > 0,
        !header_has(h.column_families, name),
        0 < size,
        size % (PAGE_SIZE as u64) == 0,
        spec_end_of_file(h) % (PAGE_SIZE as int) == 0,
        spec_end_of_file(h) + size <= u64::MAX,
    ensures
        spec_validate(with_new_column_family(h, name, size)) is Ok,
        spec_end_of_file(with_new_column_family(h, name, size)) == spec_end_of_file(h) + size,
{
    let h2 = with_new_column_family(h, name, size);
    let cfs = h.column_families;
    let cfs2 = h2.column_families;
    let n = cfs.len();
    let eof = spec_end_of_file(h);
    let seg = Segment { offset: eof as u64, size };
    crate::header_laws::lemma_valid_header(h);
    lemma_end_of_file_fits(h);
    // The column-family checks.
    assert(first_cf_error(cfs, n) is None);
    assert forall|i: int| 0 <= i < n implies #[trigger] cfs[i] == cfs2[i] by {}
    lemma_first_cf_error_prefix(cfs, cfs2, n);
    assert(cfs2[n as int].name == name && cfs2[n as int].segments == seq![seg]);
    assert(!(exists|j: int| 0 <= j < n && #[trigger] cfs2[j].name == cfs2[n as int].name)) by {
        if exists|j: int| 0 <= j < n && #[trigger] cfs2[j].name == cfs2[n as int].name {
            let j = choose|j: int| 0 <= j < n && #[trigger] cfs2[j].name == cfs2[n as int].name;
            assert(cfs[j].name == name);
        }
    }
    assert(seq![seg].drop_last() =~= Seq::<Segment>::empty());
    assert(seq![seg].last() == seg);
    assert(seg.offset == eof);
    assert(seg.offset % (PAGE_SIZE as u64) == 0);
    assert(segment_check(name, seg) is None);
    assert(first_segment_error(name, Seq::<Segment>::empty()) is None);
    assert(first_segment_error(name, seq![seg]) is None);
    assert(cf_check(cfs2, n as int) is None);
    assert(first_cf_error(cfs2, (n + 1) as nat) is None);
    assert(first_free_error(h2.free_segments) is None);
    // The overlap check.
    let s = all_spans(h);
    let s2 = all_spans(h2);
    let nc = cf_spans(cfs).len() as int;
    let x = SpanView { start: eof, end: eof + size, label: name };
    assert(cfs2.drop_last() =~= cfs);
    assert(spans_of(cfs2.last()) =~= seq![x]);
    assert(cf_spans(cfs2) == cf_spans(cfs) + seq![x]);
    assert(s2 =~= cf_spans(cfs) + seq![x] + free_spans(h.free_segments));
    lemma_valid_spans_apart(h);
    lemma_cf_spans_end_by(cfs, eof);
    assert forall|k: int| 0 <= k < s.len() implies #[trigger] s[k].end <= eof by {
        if k >= nc {
            assert(s[k] == free_spans(h.free_segments)[k - nc]);
        } else {
            assert(s[k] == cf_spans(cfs)[k]);
        }
    }
    let from = |k: int| if k < nc { k } else { k - 1 };
    assert forall|k: int| 0 <= k < s2.len() && k != nc implies 0 <= from(k) < s.len() && #[trigger] s2[k] == s[from(k)] by {
        if k < nc {
            assert(s2[k] == cf_spans(cfs)[k]);
        } else {
            assert(s2[k] == free_spans(h.free_segments)[k - nc - 1]);
        }
    }
    assert forall|a: int, b: int| 0 <= a < s2.len() && 0 <= b < s2.len() && a != b implies !spans_overlap(#[trigger] s2[a], #[trigger] s2[b]) by {
        if a == nc {
            assert(s2[a] == x);
            assert(s2[b] == s[from(b)]);
            assert(s[from(b)].end <= eof);
        } else if b == nc {
            assert(s2[b] == x);
            assert(s2[a] == s[from(a)]);
            assert(s[from(a)].end <= eof);
        } else {
            assert(s2[a] == s[from(a)] && s2[b] == s[from(b)]);
            assert(from(a) != from(b));
        }
    }
    lemma_disjoint_sorted(s2);
    assert(overlap_error(sorted_by_start(s2)) is None);
    assert(spec_validate(h2) is Ok);
    // The new end of the file.
    let e2 = eof + size;
    assert(bounds_all_ends(h2, e2)) by {
        assert forall|i: int, j: int| 0 <= i < cfs2.len() && 0 <= j < cfs2[i].segments.len() implies #[trigger] cfs2[i].segments[j].spec_end() <= e2 by {
            if i < n {
                assert(cfs2[i] == cfs[i]);
                assert(cfs[i].segments[j].spec_end() <= eof);
            }
        }
    }
    assert(cfs2[n as int].segments[0].spec_end() == e2);
    assert(is_page_or_some_end(h2, e2));
    lemma_end_of_file_unique(h2, e2);
}

} // verus!
