//! Laws of partitions: a read gives back what a write put there, and partitions on
//! separate segments do not see each other's writes.

use crate::header::Segment;
use crate::partitioned_backend::{
    backed, lemma_locate_index, lemma_locate_some, locate, locate_index, phys_at, physical_of, reads_as,
    virtual_size,
};
use vstd::prelude::*;

verus! {

/// Reading a range that was written gives back the bytes written: a successful
/// write makes the range read as the data (over physically disjoint segments), and
/// a successful read returns what the range reads as.
pub proof fn lemma_read_after_write(
    segs: Seq<Segment>,
    phys: Seq<u8>,
    offset: int,
    written: Seq<u8>,
    read: Seq<u8>,
)
    requires
        reads_as(segs, phys, offset, written),
        reads_as(segs, phys, offset, read),
        read.len() == written.len(),
    ensures
        read == written,
{
    assert forall|i: int| 0 <= i < read.len() implies read[i] == written[i] by {
        assert(read[i] == phys[phys_at(segs, offset, i)]);
        assert(written[i] == phys[phys_at(segs, offset, i)]);
    }
    assert(read =~= written);
}

/// What a write stores, a read of the same range gets back, across segment
/// boundaries too: after a successful write (which leaves every byte of its range
/// backed by the store and, over physically disjoint segments, reading as the
/// data), the range is backed, so a read of it on dependable storage succeeds; and
/// whatever a successful read of it returns is the data written.
pub proof fn lemma_write_then_read(
    segs: Seq<Segment>,
    phys: Seq<u8>,
    offset: int,
    data: Seq<u8>,
    out: Seq<u8>,
)
    requires
        forall|i: int| 0 <= i < data.len() ==> 0 <= #[trigger] phys_at(segs, offset, i) < phys.len(),
        reads_as(segs, phys, offset, data),
        reads_as(segs, phys, offset, out),
        out.len() == data.len(),
    ensures
        backed(segs, phys.len() as int, offset, data.len() as int),
        out == data,
{
    lemma_read_after_write(segs, phys, offset, data, out);
}

/// Physical offset `p` lies inside one of the segments.
pub open spec fn in_segments(segs: Seq<Segment>, p: int) -> bool {
    exists|k: int| 0 <= k < segs.len() && #[trigger] segs[k].offset <= p < segs[k].offset + segs[k].size
}

/// No segment of `a` shares a byte with a segment of `b`.
pub open spec fn partitions_disjoint(a: Seq<Segment>, b: Seq<Segment>) -> bool {
    forall|i: int, j: int|
        #![trigger a[i], b[j]]
        0 <= i < a.len() && 0 <= j < b.len() ==> a[i].offset + a[i].size <= b[j].offset || b[j].offset
            + b[j].size <= a[i].offset
}

/// Every byte of a partition's address space is backed by one of its segments.
pub proof fn lemma_located_in_segments(segs: Seq<Segment>, v: int)
    requires
        0 <= v < virtual_size(segs),
    ensures
        in_segments(segs, physical_of(segs, v)),
{
    lemma_locate_some(segs, v);
    lemma_locate_index(segs, v);
    let k = locate_index(segs, v).0;
    assert(segs[k].offset <= physical_of(segs, v) < segs[k].offset + segs[k].size);
}

/// Writing through one partition leaves what a read through another partition, on
/// segments that share no byte with the first, gives: the write changes only bytes
/// of its own segments.
pub proof fn lemma_write_isolated(
    a: Seq<Segment>,
    b: Seq<Segment>,
    before: Seq<u8>,
    after: Seq<u8>,
    offset_a: int,
    n: int,
    offset_b: int,
    out: Seq<u8>,
)
    requires
        partitions_disjoint(a, b),
        0 <= n,
        n > 0 ==> 0 <= offset_a && offset_a + n <= virtual_size(a),
        forall|p: int|
            0 <= p < before.len() && (forall|i: int| 0 <= i < n ==> #[trigger] phys_at(a, offset_a, i) != p)
                ==> #[trigger] after[p] == before[p],
        reads_as(b, before, offset_b, out),
        out.len() > 0 ==> 0 <= offset_b && offset_b + out.len() <= virtual_size(b),
        forall|i: int| 0 <= i < out.len() ==> 0 <= #[trigger] phys_at(b, offset_b, i) < before.len(),
    ensures
        reads_as(b, after, offset_b, out),
{
    assert forall|i: int| 0 <= i < out.len() implies #[trigger] out[i] == after[phys_at(b, offset_b, i)] by {
        let p = phys_at(b, offset_b, i);
        lemma_located_in_segments(b, offset_b + i);
        let kb = choose|k: int| 0 <= k < b.len() && #[trigger] b[k].offset <= p < b[k].offset + b[k].size;
        assert forall|j: int| 0 <= j < n implies #[trigger] phys_at(a, offset_a, j) != p by {
            lemma_located_in_segments(a, offset_a + j);
            let q = phys_at(a, offset_a, j);
            let ka = choose|k: int| 0 <= k < a.len() && #[trigger] a[k].offset <= q < a[k].offset + a[k].size;
            assert(a[ka] == a[ka] && b[kb] == b[kb]);
        }
        assert(after[p] == before[p]);
    }
}

} // verus!
