//! Laws of the column family database: what it persists is read back, what it
//! creates is found, what it deletes is gone, and where new segments go.

use crate::backend::StorageBackend;
use crate::database::{
    allocation, best_fit, best_fit_upto, can_hold, has_fit, header_has, lemma_best_fit_upto,
    page_aligned_up, state_has, state_index, states_unique, ColumnFamilyDatabase,
};
use crate::header::{
    bounds_all_ends, header_body, header_encodable, is_page_or_some_end, lemma_end_of_file_unique,
    spec_end_of_file, spec_header_from_bytes, spec_validate, HeaderErrorView, HeaderView,
    MetadataView, Segment, FORMAT_VERSION, PAGE_SIZE, metadata_encodable, name_bytes,
};
use crate::header_laws::lemma_header_roundtrip;
use vstd::prelude::*;

verus! {

/// A persisted header is read back on reopening: for a header that encodes within
/// its page, is of the current version and validates, decoding the first page of
/// the file gives the header held in memory (which is what `open_with_backend`
/// then holds).
pub proof fn lemma_reopen_reads_back<B: StorageBackend, D>(db: ColumnFamilyDatabase<B, D>)
    requires
        db.persisted(),
        header_encodable(db.layout()),
        header_body(db.layout()).len() <= PAGE_SIZE - 4,
        db.layout().version == FORMAT_VERSION,
        spec_validate(db.layout()) == Ok::<(), HeaderErrorView>(()),
    ensures
        spec_header_from_bytes(db.stored().subrange(0, PAGE_SIZE as int)) == Ok::<HeaderView, HeaderErrorView>(
            db.layout(),
        ),
{
    lemma_header_roundtrip(db.layout());
}

/// Creating column families whose sizes are whole pages keeps the file readable:
/// when the header held in memory mirrors the states, validates, is of the current
/// format version, can be encoded and ends the file on a page boundary, a
/// successful creation under a new, non-empty name leaves on the first page of the
/// file a header that decodes to the one now held in memory, which lists the new
/// name and again validates, can be encoded and ends the file on a page boundary.
/// (A size that is not a whole number of pages leaves the next column family
/// starting off a page boundary, which validation refuses.)
pub proof fn lemma_create_keeps_file_readable<B: StorageBackend, D>(
    before: ColumnFamilyDatabase<B, D>,
    after: ColumnFamilyDatabase<B, D>,
    name: Seq<char>,
    size: u64,
    r: Result<crate::database::ColumnFamily, crate::database::ColumnFamilyError>,
)
    requires
        before.in_sync(),
        spec_validate(before.layout()) == Ok::<(), HeaderErrorView>(()),
        before.layout().version == FORMAT_VERSION,
        header_encodable(before.layout()),
        before.layout().column_families.len() < u32::MAX,
        spec_end_of_file(before.layout()) % (PAGE_SIZE as int) == 0,
        spec_end_of_file(before.layout()) + size <= u64::MAX,
        name.len() > 0,
        name_bytes(name).len() <= u32::MAX,
        0 < size,
        size % (PAGE_SIZE as u64) == 0,
        before.creates(after, name, size, r),
        r is Ok,
    ensures
        header_has(after.layout().column_families, name),
        spec_validate(after.layout()) == Ok::<(), HeaderErrorView>(()),
        after.layout().version == FORMAT_VERSION,
        header_encodable(after.layout()),
        spec_end_of_file(after.layout()) % (PAGE_SIZE as int) == 0,
        spec_header_from_bytes(after.stored().subrange(0, PAGE_SIZE as int)) == Ok::<HeaderView, HeaderErrorView>(
            after.layout(),
        ),
{
    let h = before.layout();
    let cfs = h.column_families;
    assert(!state_has(before.states(), name));
    assert(!header_has(cfs, name)) by {
        if header_has(cfs, name) {
            let j = choose|j: int| 0 <= j < cfs.len() && #[trigger] cfs[j].name == name;
            assert(before.states()[j].name@ == name);
        }
    }
    crate::layout_laws::lemma_create_keeps_valid(h, name, size);
    let h2 = after.layout();
    assert(h2 == crate::database::with_new_column_family(h, name, size));
    assert(header_encodable(h2)) by {
        assert forall|i: int| 0 <= i < h2.column_families.len() implies #[trigger] metadata_encodable(h2.column_families[i]) by {
            if i < cfs.len() {
                assert(h2.column_families[i] == cfs[i]);
                assert(metadata_encodable(cfs[i]));
            }
        }
    }
    let e = spec_end_of_file(h);
    let sz = size as int;
    assert((e + sz) % 4096 == 0) by (nonlinear_arith)
        requires
            e % 4096 == 0,
            sz % 4096 == 0,
    ;
    lemma_created_is_found(before, after, name, size, r);
    lemma_reopen_reads_back(after);
}

/// A column family that was created is found by name and is listed.
pub proof fn lemma_created_is_found<B: StorageBackend, D>(
    before: ColumnFamilyDatabase<B, D>,
    after: ColumnFamilyDatabase<B, D>,
    name: Seq<char>,
    size: u64,
    r: Result<crate::database::ColumnFamily, crate::database::ColumnFamilyError>,
)
    requires
        before.creates(after, name, size, r),
        r is Ok,
    ensures
        state_has(after.states(), name),
        header_has(after.layout().column_families, name),
{
    let n = before.states().len() as int;
    assert(after.states()[n].name@ == name);
    let cfs = after.layout().column_families;
    assert(cfs[cfs.len() - 1].name == name);
}

/// A column family that was deleted is no longer found, whatever the outcome of
/// writing the header.
pub proof fn lemma_deleted_is_gone<B: StorageBackend, D>(
    before: ColumnFamilyDatabase<B, D>,
    after: ColumnFamilyDatabase<B, D>,
    name: Seq<char>,
    r: Result<(), crate::database::ColumnFamilyError>,
)
    requires
        states_unique(before.states()),
        before.deletes(after, name, r),
    ensures
        !state_has(after.states(), name),
{
    if state_has(before.states(), name) {
        let s = before.states();
        let i = state_index(s, name);
        assert(s[i].name@ == name);
        let t = after.states();
        assert(t == s.remove(i));
        if state_has(t, name) {
            let j = choose|j: int| 0 <= j < t.len() && #[trigger] t[j].name@ == name;
            let j0 = if j < i { j } else { j + 1 };
            assert(t[j] == s[j0]);
        }
    }
}

/// The largest segment end among `segs`, or `acc` if that is larger.
spec fn segs_max(segs: Seq<Segment>, acc: int) -> int
    decreases segs.len(),
{
    if segs.len() == 0 {
        acc
    } else {
        let m = segs_max(segs.drop_last(), acc);
        if segs.last().spec_end() > m {
            segs.last().spec_end()
        } else {
            m
        }
    }
}

proof fn lemma_segs_max(segs: Seq<Segment>, acc: int)
    ensures
        segs_max(segs, acc) >= acc,
        forall|k: int| 0 <= k < segs.len() ==> #[trigger] segs[k].spec_end() <= segs_max(segs, acc),
        segs_max(segs, acc) == acc || exists|k: int|
            0 <= k < segs.len() && #[trigger] segs[k].spec_end() == segs_max(segs, acc),
    decreases segs.len(),
{
    if segs.len() > 0 {
        let rest = segs.drop_last();
        lemma_segs_max(rest, acc);
        assert forall|k: int| 0 <= k < segs.len() implies #[trigger] segs[k].spec_end() <= segs_max(segs, acc) by {
            if k < rest.len() {
                assert(segs[k] == rest[k]);
            }
        }
        let m = segs_max(rest, acc);
        if segs_max(segs, acc) != acc && segs_max(segs, acc) == m {
            let k = choose|k: int| 0 <= k < rest.len() && #[trigger] rest[k].spec_end() == m;
            assert(segs[k] == rest[k]);
        }
        if segs.last().spec_end() > m {
            assert(segs[segs.len() - 1].spec_end() == segs_max(segs, acc));
        }
    }
}

/// The largest segment end among the column families, or `acc` if that is larger.
spec fn cfs_max(cfs: Seq<MetadataView>, acc: int) -> int
    decreases cfs.len(),
{
    if cfs.len() == 0 {
        acc
    } else {
        segs_max(cfs.last().segments, cfs_max(cfs.drop_last(), acc))
    }
}

proof fn lemma_cfs_max(cfs: Seq<MetadataView>, acc: int)
    ensures
        cfs_max(cfs, acc) >= acc,
        forall|i: int, j: int|
            0 <= i < cfs.len() && 0 <= j < cfs[i].segments.len() ==> #[trigger] cfs[i].segments[j].spec_end()
                <= cfs_max(cfs, acc),
        cfs_max(cfs, acc) == acc || exists|i: int, j: int|
            0 <= i < cfs.len() && 0 <= j < cfs[i].segments.len() && #[trigger] cfs[i].segments[j].spec_end()
                == cfs_max(cfs, acc),
    decreases cfs.len(),
{
    if cfs.len() > 0 {
        let rest = cfs.drop_last();
        lemma_cfs_max(rest, acc);
        let m = cfs_max(rest, acc);
        let last = cfs.last();
        lemma_segs_max(last.segments, m);
        let e = cfs_max(cfs, acc);
        assert forall|i: int, j: int|
            0 <= i < cfs.len() && 0 <= j < cfs[i].segments.len() implies #[trigger] cfs[i].segments[j].spec_end() <= e by {
            if i < rest.len() {
                assert(cfs[i] == rest[i]);
            } else {
                assert(cfs[i] == last);
            }
        }
        if e != acc {
            if e == m {
                let (i, j) = choose|i: int, j: int|
                    0 <= i < rest.len() && 0 <= j < rest[i].segments.len() && #[trigger] rest[i].segments[j].spec_end() == m;
                assert(cfs[i] == rest[i]);
            } else {
                let k = choose|k: int| 0 <= k < last.segments.len() && #[trigger] last.segments[k].spec_end() == e;
                assert(cfs[cfs.len() - 1] == last);
                assert(cfs[cfs.len() - 1].segments[k].spec_end() == e);
            }
        }
    }
}

/// The largest free-segment end, or `acc` if that is larger.
spec fn free_max(fs: Seq<crate::header::FreeSegment>, acc: int) -> int
    decreases fs.len(),
{
    if fs.len() == 0 {
        acc
    } else {
        let m = free_max(fs.drop_last(), acc);
        if fs.last().offset + fs.last().size > m {
            fs.last().offset + fs.last().size
        } else {
            m
        }
    }
}

proof fn lemma_free_max(fs: Seq<crate::header::FreeSegment>, acc: int)
    ensures
        free_max(fs, acc) >= acc,
        forall|k: int| 0 <= k < fs.len() ==> #[trigger] fs[k].offset + fs[k].size <= free_max(fs, acc),
        free_max(fs, acc) == acc || exists|k: int|
            0 <= k < fs.len() && #[trigger] fs[k].offset + fs[k].size == free_max(fs, acc),
    decreases fs.len(),
{
    if fs.len() > 0 {
        let rest = fs.drop_last();
        lemma_free_max(rest, acc);
        assert forall|k: int| 0 <= k < fs.len() implies #[trigger] fs[k].offset + fs[k].size <= free_max(fs, acc) by {
            if k < rest.len() {
                assert(fs[k] == rest[k]);
            }
        }
        let m = free_max(rest, acc);
        if free_max(fs, acc) != acc && free_max(fs, acc) == m {
            let k = choose|k: int| 0 <= k < rest.len() && #[trigger] rest[k].offset + rest[k].size == m;
            assert(fs[k] == rest[k]);
        }
        if fs.last().offset + fs.last().size > m {
            assert(fs[fs.len() - 1].offset + fs[fs.len() - 1].size == free_max(fs, acc));
        }
    }
}

/// The end of the file is at least `PAGE_SIZE` and at least every segment end, and
/// is `PAGE_SIZE` or the end of some segment.
pub proof fn lemma_end_of_file_bounds(h: HeaderView)
    ensures
        bounds_all_ends(h, spec_end_of_file(h)),
        is_page_or_some_end(h, spec_end_of_file(h)),
{
    let a = cfs_max(h.column_families, PAGE_SIZE as int);
    lemma_cfs_max(h.column_families, PAGE_SIZE as int);
    let e = free_max(h.free_segments, a);
    lemma_free_max(h.free_segments, a);
    assert(bounds_all_ends(h, e));
    if e == a {
        if a != PAGE_SIZE {
            let (i, j) = choose|i: int, j: int|
                0 <= i < h.column_families.len() && 0 <= j < h.column_families[i].segments.len()
                    && #[trigger] h.column_families[i].segments[j].spec_end() == a;
            assert(h.column_families[i].segments[j].spec_end() == e);
        }
    } else {
        let k = choose|k: int| 0 <= k < h.free_segments.len() && #[trigger] h.free_segments[k].offset
            + h.free_segments[k].size == e;
        assert(h.free_segments[k].offset + h.free_segments[k].size == e);
    }
    assert(is_page_or_some_end(h, e));
    lemma_end_of_file_unique(h, e);
}

/// Where a new segment goes. One taken from the free list starts where the best
/// fitting free segment starts and ends within it. One from the end of the file
/// starts on a page boundary, at or after the end of every segment of the header,
/// so it shares no byte with any of them.
pub proof fn lemma_allocation_placement(h: HeaderView, size: u64)
    requires
        !has_fit(h.free_segments, size) ==> page_aligned_up(spec_end_of_file(h)) + size <= u64::MAX,
    ensures
        has_fit(h.free_segments, size) ==> {
            let f = h.free_segments[best_fit(h.free_segments, size)];
            &&& allocation(h, size).offset == f.offset
            &&& allocation(h, size).offset + size <= f.offset + f.size
            &&& allocation(h, size).size == size
        },
        !has_fit(h.free_segments, size) ==> {
            let s = allocation(h, size);
            &&& s.size == size
            &&& s.offset % (PAGE_SIZE as u64) == 0
            &&& forall|i: int, j: int|
                0 <= i < h.column_families.len() && 0 <= j < h.column_families[i].segments.len()
                    ==> #[trigger] h.column_families[i].segments[j].spec_end() <= s.offset
            &&& forall|k: int|
                0 <= k < h.free_segments.len() ==> #[trigger] h.free_segments[k].offset
                    + h.free_segments[k].size <= s.offset
        },
{
    let free = h.free_segments;
    if has_fit(free, size) {
        lemma_best_fit_upto(free, size, free.len() as int);
        let j = choose|j: int| 0 <= j < free.len() && #[trigger] can_hold(free[j], size);
        assert(can_hold(free[j], size));
    } else {
        lemma_end_of_file_bounds(h);
        let e = spec_end_of_file(h);
        let a = page_aligned_up(e);
        assert(a >= e && a % 4096 == 0) by (nonlinear_arith)
            requires
                a == ((e + 4096 - 1) / 4096) * 4096,
                e >= 0,
        ;
    }
}

} // verus!
