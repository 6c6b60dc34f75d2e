//! A storage backend that presents one or more segments of an underlying backend as
//! a single contiguous virtual address space.

use crate::backend::{StorageBackend, StorageError};
use crate::header::Segment;
use vstd::prelude::*;

verus! {

/// Source of new segments for a partition that has to grow.
///
/// Implementations promise that each answer is one that `grants` allows.
pub trait SegmentAllocator: Sized {
    /// Whether asked for `requested_size` bytes, the allocator may answer `r` and
    /// become `after`. Allocators verified here define it; for one that is not,
    /// nothing is known of it.
    closed spec fn grants(&self, after: Self, requested_size: u64, r: Result<Segment, StorageError>) -> bool {
        arbitrary()
    }

    /// Provides a new segment of (at least) `requested_size` bytes.
    fn allocate(&mut self, requested_size: u64) -> (r: Result<Segment, StorageError>)
        ensures
            old(self).grants(*final(self), requested_size, r),
    ;
}

/// The allocator of a partition that cannot grow: it always fails.
pub struct NoExpansion;

impl SegmentAllocator for NoExpansion {
    open spec fn grants(&self, after: Self, requested_size: u64, r: Result<Segment, StorageError>) -> bool {
        r == Err::<Segment, StorageError>(StorageError::ExpansionUnavailable)
    }

    fn allocate(&mut self, requested_size: u64) -> (r: Result<Segment, StorageError>)
        ensures
            r == Err::<Segment, StorageError>(StorageError::ExpansionUnavailable),
    {
        Err(StorageError::ExpansionUnavailable)
    }
}

/// Total size of a list of segments (the size of the virtual address space).
pub open spec fn virtual_size(segs: Seq<Segment>) -> int
    decreases segs.len(),
{
    if segs.len() == 0 {
        0
    } else {
        segs[0].size + virtual_size(segs.drop_first())
    }
}

/// Virtual sizes are never negative.
pub proof fn lemma_virtual_size_nonneg(segs: Seq<Segment>)
    ensures
        virtual_size(segs) >= 0,
    decreases segs.len(),
{
    if segs.len() > 0 {
        lemma_virtual_size_nonneg(segs.drop_first());
    }
}

/// Whether every segment end and the total size fit in a u64.
pub open spec fn segments_fit(segs: Seq<Segment>) -> bool {
    &&& virtual_size(segs) <= u64::MAX
    &&& forall|i: int| 0 <= i < segs.len() ==> #[trigger] segs[i].offset + segs[i].size <= u64::MAX
}

/// Where virtual offset `v` lies: the physical offset and the bytes remaining in its
/// segment, or `None` beyond the total size.
pub open spec fn locate(segs: Seq<Segment>, v: int) -> Option<(int, int)>
    decreases segs.len(),
{
    if segs.len() == 0 || v < 0 {
        None
    } else if v < segs[0].size {
        Some((segs[0].offset + v, segs[0].size - v))
    } else {
        locate(segs.drop_first(), v - segs[0].size)
    }
}

/// The physical offset of virtual offset `v` (meaningful where `locate` is `Some`).
pub open spec fn physical_of(segs: Seq<Segment>, v: int) -> int {
    locate(segs, v).unwrap().0
}

/// How many virtual bytes are backed by an underlying store of length `u`: segments
/// are counted in order while they are fully backed, plus the backed part of the
/// first one that is not.
pub open spec fn allocated_len(segs: Seq<Segment>, u: int) -> int
    decreases segs.len(),
{
    if segs.len() == 0 || u <= segs[0].offset {
        0
    } else {
        let a = if u - segs[0].offset < segs[0].size {
            u - segs[0].offset
        } else {
            segs[0].size as int
        };
        if a < segs[0].size {
            a
        } else {
            a + allocated_len(segs.drop_first(), u)
        }
    }
}

/// The largest physical end needed to back the first `remaining` virtual bytes,
/// starting from `acc`.
pub open spec fn physical_end(segs: Seq<Segment>, remaining: int, acc: int) -> int
    decreases segs.len(),
{
    if segs.len() == 0 || remaining <= 0 {
        acc
    } else {
        let used = if remaining < segs[0].size {
            remaining
        } else {
            segs[0].size as int
        };
        let end = segs[0].offset + used;
        physical_end(segs.drop_first(), remaining - used, if end > acc { end } else { acc })
    }
}

/// The physical offset of the `i`-th byte of an access starting at virtual offset
/// `base`.
pub open spec fn phys_at(segs: Seq<Segment>, base: int, i: int) -> int {
    physical_of(segs, base + i)
}

/// Reading `out.len()` bytes at virtual offset `offset` of the partition `segs` over
/// the physical bytes `phys` gives `out`.
pub open spec fn reads_as(segs: Seq<Segment>, phys: Seq<u8>, offset: int, out: Seq<u8>) -> bool {
    forall|i: int| 0 <= i < out.len() ==> #[trigger] out[i] == phys[phys_at(segs, offset, i)]
}

/// Whether a store of `phys_len` bytes holds every physical byte behind the part
/// of an access of `n` bytes at virtual offset `offset` that lies within the
/// address space of `segs`.
pub open spec fn backed(segs: Seq<Segment>, phys_len: int, offset: int, n: int) -> bool {
    forall|i: int| 0 <= i < n && offset + i < virtual_size(segs) ==> #[trigger] phys_at(segs, offset, i) < phys_len
}

/// Size requested from the allocator when `needed` more bytes are wanted: the need
/// plus a tenth of it, and at least 1 MiB more.
pub open spec fn expansion_size(needed: int) -> int {
    needed + if needed / 10 > 1048576 {
        needed / 10
    } else {
        1048576
    }
}

/// Whether a segment can join `segs`: its end and the new total size fit in a u64.
pub open spec fn appendable(segs: Seq<Segment>, seg: Segment) -> bool {
    &&& virtual_size(segs) + seg.size <= u64::MAX
    &&& seg.offset + seg.size <= u64::MAX
}

/// Growing through `alloc`, which answered `answer` to a request for `requested`
/// bytes and became `after`, took the segments from `before` to `now` with result
/// `r`: the allocator's segment is appended when it fits, its error comes back
/// unchanged, and a segment that does not fit is refused with `ExpansionOverflow`.
pub open spec fn expansion_outcome<A: SegmentAllocator>(
    alloc: A,
    after: A,
    requested: u64,
    answer: Result<Segment, StorageError>,
    before: Seq<Segment>,
    now: Seq<Segment>,
    r: Result<(), StorageError>,
) -> bool {
    &&& alloc.grants(after, requested, answer)
    &&& match answer {
        Ok(seg) => if appendable(before, seg) {
            r is Ok && now == before.push(seg)
        } else {
            r == Err::<(), StorageError>(StorageError::ExpansionOverflow) && now == before
        },
        Err(e) => r == Err::<(), StorageError>(e) && now == before,
    }
}

/// The physical byte ranges of the segments do not overlap.
pub open spec fn segments_disjoint(segs: Seq<Segment>) -> bool {
    forall|i: int, j: int|
        #![trigger segs[i], segs[j]]
        0 <= i < segs.len() && 0 <= j < segs.len() && i != j ==> segs[i].offset + segs[i].size
            <= segs[j].offset || segs[j].offset + segs[j].size <= segs[i].offset
}

/// A storage backend that operates on one or more segments within an underlying
/// storage backend, presenting them as one continuous virtual address space, and
/// that can request new segments from an allocator when asked to grow.
pub struct PartitionedStorageBackend<B, A> {
    inner: B,
    segments: Vec<Segment>,
    expansion_callback: Option<A>,
}

impl<B: StorageBackend, A: SegmentAllocator> PartitionedStorageBackend<B, A> {
    /// The segments, in virtual order.
    pub closed spec fn segments(&self) -> Seq<Segment> {
        self.segments@
    }

    /// The underlying backend.
    pub closed spec fn inner_backend(&self) -> B {
        self.inner
    }

    /// Whether an allocator is configured.
    pub closed spec fn can_expand(&self) -> bool {
        self.expansion_callback is Some
    }

    /// The allocator, if one is configured.
    pub closed spec fn allocator(&self) -> Option<A> {
        self.expansion_callback
    }

    /// The underlying store's bytes.
    pub open spec fn physical(&self) -> Seq<u8> {
        self.inner_backend().contents()
    }

    /// Offsets and sizes fit in a u64.
    pub open spec fn wf(&self) -> bool {
        segments_fit(self.segments())
    }

    /// Creates a new partitioned storage backend with multiple segments.
    pub fn with_segments(inner: B, segments: Vec<Segment>, expansion_callback: Option<A>) -> (p: Self)
        requires
            segments_fit(segments@),
        ensures
            p.wf(),
            p.segments() == segments@,
            p.inner_backend() == inner,
            p.can_expand() == expansion_callback is Some,
    {
        Self { inner, segments, expansion_callback }
    }

    /// Gives back the underlying backend.
    pub fn into_inner(self) -> (b: B)
        ensures
            b == self.inner_backend(),
    {
        self.inner
    }

    /// The underlying backend.
    pub fn inner(&self) -> (b: &B)
        ensures
            *b == self.inner_backend(),
    {
        &self.inner
    }

    /// Returns the total size of all segments (virtual address space size).
    pub fn total_size(&self) -> (t: u64)
        requires
            self.wf(),
        ensures
            t == virtual_size(self.segments()),
    {
        let ghost s = self.segments@;
        let mut sum: u64 = 0;
        let mut i: usize = 0;
        assert(s.skip(0) =~= s);
        while i < self.segments.len()
            invariant
                s == self.segments@,
                segments_fit(s),
                i <= s.len(),
                sum + virtual_size(s.skip(i as int)) == virtual_size(s),
            decreases s.len() - i,
        {
            assert(s.skip(i as int).drop_first() =~= s.skip(i as int + 1));
            assert(s.skip(i as int)[0] == s[i as int]);
            proof {
                lemma_virtual_size_nonneg(s.skip(i as int + 1));
            }
            sum = sum + self.segments[i].size;
            i = i + 1;
        }
        assert(s.skip(i as int) =~= Seq::<Segment>::empty());
        sum
    }

    /// Maps a virtual offset to a physical offset in a specific segment.
    ///
    /// Returns `(physical_offset, remaining_in_segment)` on success.
    pub fn virtual_to_physical(&self, virtual_offset: u64) -> (r: Result<(u64, u64), StorageError>)
        requires
            self.wf(),
        ensures
            match r {
                Ok((p, rem)) => locate(self.segments(), virtual_offset as int) == Some(
                    (p as int, rem as int),
                ),
                Err(e) => locate(self.segments(), virtual_offset as int) is None && e == (
                StorageError::OffsetBeyondPartition {
                    virtual_offset,
                    total_size: virtual_size(self.segments()) as u64,
                }),
            },
    {
        let ghost s = self.segments@;
        let mut current_virtual: u64 = 0;
        let mut i: usize = 0;
        assert(s.skip(0) =~= s);
        while i < self.segments.len()
            invariant
                s == self.segments@,
                segments_fit(s),
                i <= s.len(),
                current_virtual + virtual_size(s.skip(i as int)) == virtual_size(s),
                current_virtual <= virtual_offset,
                locate(s, virtual_offset as int) == locate(s.skip(i as int), virtual_offset - current_virtual),
            decreases s.len() - i,
        {
            let segment = &self.segments[i];
            assert(s.skip(i as int).drop_first() =~= s.skip(i as int + 1));
            assert(s.skip(i as int)[0] == s[i as int]);
            proof {
                lemma_virtual_size_nonneg(s.skip(i as int + 1));
            }
            let segment_end = current_virtual + segment.size;
            if virtual_offset < segment_end {
                let offset_in_segment = virtual_offset - current_virtual;
                assert(s[i as int].offset + s[i as int].size <= u64::MAX);
                let physical_offset = segment.offset + offset_in_segment;
                let remaining_in_segment = segment.size - offset_in_segment;
                return Ok((physical_offset, remaining_in_segment));
            }
            current_virtual = segment_end;
            i = i + 1;
        }
        assert(s.skip(i as int) =~= Seq::<Segment>::empty());
        Err(StorageError::OffsetBeyondPartition { virtual_offset, total_size: current_virtual })
    }

    /// Returns the number of virtual bytes currently backed by the underlying storage.
    pub fn len(&self) -> (r: Result<u64, StorageError>)
        requires
            self.wf(),
        ensures
            r matches Ok(n) ==> n == allocated_len(self.segments(), self.physical().len() as int),
            self.inner_backend().dependable() ==> r is Ok,
    {
        let underlying_len = self.inner.len()?;
        let ghost s = self.segments@;
        let ghost u = underlying_len as int;
        let mut total_allocated: u64 = 0;
        let mut i: usize = 0;
        assert(s.skip(0) =~= s);
        while i < self.segments.len()
            invariant
                s == self.segments@,
                segments_fit(s),
                i <= s.len(),
                u == underlying_len,
                u == self.physical().len(),
                total_allocated + virtual_size(s.skip(i as int)) <= virtual_size(s),
                allocated_len(s, u) == total_allocated + allocated_len(s.skip(i as int), u),
            decreases s.len() - i,
        {
            let segment = &self.segments[i];
            assert(s.skip(i as int).drop_first() =~= s.skip(i as int + 1));
            assert(s.skip(i as int)[0] == s[i as int]);
            proof {
                lemma_virtual_size_nonneg(s.skip(i as int + 1));
            }
            if underlying_len <= segment.offset {
                return Ok(total_allocated);
            }
            let avail = underlying_len - segment.offset;
            let segment_allocated = if avail < segment.size { avail } else { segment.size };
            total_allocated = total_allocated + segment_allocated;
            if segment_allocated < segment.size {
                return Ok(total_allocated);
            }
            i = i + 1;
        }
        assert(s.skip(i as int) =~= Seq::<Segment>::empty());
        Ok(total_allocated)
    }
}


/// Virtual size after appending a segment.
pub proof fn lemma_virtual_size_push(segs: Seq<Segment>, x: Segment)
    ensures
        virtual_size(segs.push(x)) == virtual_size(segs) + x.size,
    decreases segs.len(),
{
    if segs.len() > 0 {
        assert(segs.push(x).drop_first() =~= segs.drop_first().push(x));
        assert(segs.push(x)[0] == segs[0]);
        lemma_virtual_size_push(segs.drop_first(), x);
    } else {
        assert(segs.push(x).drop_first() =~= Seq::<Segment>::empty());
        assert(segs.push(x)[0] == x);
        assert(virtual_size(Seq::<Segment>::empty()) == 0);
    }
}

/// Bounds on a located offset: it lies inside the address space, its segment has
/// bytes remaining, and (when offsets fit) its physical segment end fits in a u64.
pub proof fn lemma_locate_bound(segs: Seq<Segment>, v: int)
    requires
        locate(segs, v) is Some,
    ensures
        0 <= v,
        0 < locate(segs, v).unwrap().1,
        v + locate(segs, v).unwrap().1 <= virtual_size(segs),
        segments_fit(segs) ==> locate(segs, v).unwrap().0 + locate(segs, v).unwrap().1 <= u64::MAX,
        segments_fit(segs) ==> 0 <= locate(segs, v).unwrap().0,
    decreases segs.len(),
{
    lemma_virtual_size_nonneg(segs.drop_first());
    if v >= segs[0].size {
        let rest = segs.drop_first();
        if segments_fit(segs) {
            assert forall|i: int| 0 <= i < rest.len() implies #[trigger] rest[i].offset + rest[i].size <= u64::MAX by {
                assert(rest[i] == segs[i + 1]);
            }
        }
        lemma_locate_bound(rest, v - segs[0].size);
    } else {
        if segments_fit(segs) {
            assert(segs[0].offset + segs[0].size <= u64::MAX);
        }
    }
}

/// Every offset inside the address space is located.
pub proof fn lemma_locate_some(segs: Seq<Segment>, v: int)
    requires
        0 <= v < virtual_size(segs),
    ensures
        locate(segs, v) is Some,
    decreases segs.len(),
{
    if segs.len() > 0 && v >= segs[0].size {
        lemma_locate_some(segs.drop_first(), v - segs[0].size);
    }
}

/// Offsets after a located one, within the bytes remaining in its segment, lie in the
/// same segment at matching physical offsets.
pub proof fn lemma_locate_shift(segs: Seq<Segment>, v: int, j: int)
    requires
        locate(segs, v) is Some,
        0 <= j < locate(segs, v).unwrap().1,
    ensures
        locate(segs, v + j) == Some((locate(segs, v).unwrap().0 + j, locate(segs, v).unwrap().1 - j)),
    decreases segs.len(),
{
    if v >= segs[0].size {
        lemma_locate_shift(segs.drop_first(), v - segs[0].size, j);
        assert(v + j - segs[0].size == (v - segs[0].size) + j);
    }
}

/// The index of the segment holding virtual offset `v`, and its virtual start.
pub open spec fn locate_index(segs: Seq<Segment>, v: int) -> (int, int)
    decreases segs.len(),
{
    if segs.len() == 0 || v < 0 || v < segs[0].size {
        (0, 0)
    } else {
        let (k, start) = locate_index(segs.drop_first(), v - segs[0].size);
        (k + 1, start + segs[0].size)
    }
}

/// A located offset lies in segment `locate_index(v).0` at distance `v - start` from
/// its physical offset.
pub proof fn lemma_locate_index(segs: Seq<Segment>, v: int)
    requires
        locate(segs, v) is Some,
    ensures
        0 <= locate_index(segs, v).0 < segs.len(),
        locate(segs, v).unwrap().0 == segs[locate_index(segs, v).0].offset + (v - locate_index(segs, v).1),
        0 <= v - locate_index(segs, v).1 < segs[locate_index(segs, v).0].size,
    decreases segs.len(),
{
    if v >= segs[0].size {
        lemma_locate_index(segs.drop_first(), v - segs[0].size);
        let (k, start) = locate_index(segs.drop_first(), v - segs[0].size);
        assert(segs.drop_first()[k] == segs[k + 1]);
    }
}

/// With physically disjoint segments, distinct virtual offsets have distinct physical
/// offsets.
pub proof fn lemma_locate_injective(segs: Seq<Segment>, a: int, b: int)
    requires
        segments_disjoint(segs),
        locate(segs, a) is Some,
        locate(segs, b) is Some,
        a != b,
    ensures
        physical_of(segs, a) != physical_of(segs, b),
    decreases segs.len(),
{
    lemma_locate_index(segs, a);
    lemma_locate_index(segs, b);
    let (ka, sa) = locate_index(segs, a);
    let (kb, sb) = locate_index(segs, b);
    if ka == kb {
        if sa != sb {
            // Both offsets use the same recursion path, so the starts agree.
            lemma_locate_index_start(segs, a, b);
        }
    } else {
        assert(segs[ka] == segs[ka] && segs[kb] == segs[kb]);
    }
}

/// Offsets in the same segment share the segment's virtual start.
proof fn lemma_locate_index_start(segs: Seq<Segment>, a: int, b: int)
    requires
        locate(segs, a) is Some,
        locate(segs, b) is Some,
        locate_index(segs, a).0 == locate_index(segs, b).0,
    ensures
        locate_index(segs, a).1 == locate_index(segs, b).1,
    decreases segs.len(),
{
    if a >= segs[0].size && b >= segs[0].size {
        lemma_locate_index_start(segs.drop_first(), a - segs[0].size, b - segs[0].size);
    } else if a >= segs[0].size {
        lemma_locate_index(segs.drop_first(), a - segs[0].size);
    } else if b >= segs[0].size {
        lemma_locate_index(segs.drop_first(), b - segs[0].size);
    }
}

/// A zero-filled buffer of `n` bytes.
pub(crate) fn zeroed(n: usize) -> (v: Vec<u8>)
    ensures
        v@.len() == n,
{
    let mut v: Vec<u8> = Vec::new();
    while v.len() < n
        invariant
            v@.len() <= n,
        decreases n - v@.len(),
    {
        v.push(0);
    }
    v
}

impl<B: StorageBackend> PartitionedStorageBackend<B, NoExpansion> {
    /// Creates a new partitioned storage backend with a single segment and no way to
    /// grow.
    pub fn new(inner: B, partition_offset: u64, partition_size: u64) -> (p: Self)
        requires
            partition_offset + partition_size <= u64::MAX,
        ensures
            p.wf(),
            p.segments() == seq![Segment { offset: partition_offset, size: partition_size }],
            p.inner_backend() == inner,
            !p.can_expand(),
    {
        let mut segments = Vec::new();
        segments.push(Segment::new(partition_offset, partition_size));
        proof {
            let s = segments@;
            assert(s.drop_first() =~= Seq::<Segment>::empty());
            assert(virtual_size(s.drop_first()) == 0);
            assert(virtual_size(s) == partition_size);
            assert(s[0].offset + s[0].size <= u64::MAX);
        }
        Self { inner, segments, expansion_callback: None }
    }
}

impl<B: StorageBackend, A: SegmentAllocator> PartitionedStorageBackend<B, A> {
    /// Attempts to expand the partition by requesting a new segment.
    pub fn try_expand(&mut self, requested_size: u64) -> (r: Result<(), StorageError>)
        requires
            old(self).wf(),
        ensures
            final(self).wf(),
            final(self).inner_backend() == old(self).inner_backend(),
            final(self).can_expand() == old(self).can_expand(),
            !old(self).can_expand() ==> r == Err::<(), StorageError>(StorageError::ExpansionUnavailable)
                && *final(self) == *old(self),
            r is Err ==> final(self).segments() == old(self).segments(),
            r is Ok ==> final(self).segments().len() == old(self).segments().len() + 1
                && final(self).segments().drop_last() == old(self).segments(),
            old(self).can_expand() ==> exists|answer: Result<Segment, StorageError>|
                #[trigger] expansion_outcome(
                    old(self).allocator()->0,
                    final(self).allocator()->0,
                    requested_size,
                    answer,
                    old(self).segments(),
                    final(self).segments(),
                    r,
                ),
    {
        let ghost s = self.segments@;
        match self.expansion_callback.take() {
            Some(mut callback) => {
                let ghost before = callback;
                let allocated = callback.allocate(requested_size);
                let ghost after = callback;
                self.expansion_callback = Some(callback);
                let new_segment = match allocated {
                    Ok(seg) => seg,
                    Err(e) => {
                        let r: Result<(), StorageError> = Err(e);
                        assert(self.allocator()->0 == after && self.segments() == s);
                        assert(expansion_outcome(before, after, requested_size, allocated, s, self.segments(), r));
                        return r;
                    },
                };
                let total = self.total_size();
                if new_segment.size > u64::MAX - total || new_segment.offset > u64::MAX - new_segment.size {
                    let r: Result<(), StorageError> = Err(StorageError::ExpansionOverflow);
                    assert(self.allocator()->0 == after && self.segments() == s);
                    assert(!appendable(s, new_segment));
                    assert(expansion_outcome(before, after, requested_size, allocated, s, self.segments(), r));
                    return r;
                }
                self.segments.push(new_segment);
                proof {
                    lemma_virtual_size_push(s, new_segment);
                    assert(self.segments@.drop_last() =~= s);
                    assert forall|i: int| 0 <= i < self.segments@.len() implies #[trigger] self.segments@[i].offset + self.segments@[i].size <= u64::MAX by {
                        if i < s.len() {
                            assert(self.segments@[i] == s[i]);
                        }
                    }
                }
                let r: Result<(), StorageError> = Ok(());
                assert(self.allocator()->0 == after);
                assert(appendable(s, new_segment));
                assert(self.segments() == s.push(new_segment));
                assert(expansion_outcome(before, after, requested_size, allocated, s, self.segments(), r));
                r
            },
            None => Err(StorageError::ExpansionUnavailable),
        }
    }

    /// Sets the virtual length: grows the partition through the allocator if the
    /// length exceeds its segments (requesting `expansion_size` of the shortfall),
    /// then grows the underlying storage to the largest physical end the first `len`
    /// virtual bytes need. The underlying storage never shrinks.
    pub fn set_len(&mut self, len: u64) -> (r: Result<(), StorageError>)
        requires
            old(self).wf(),
            len > virtual_size(old(self).segments()) ==> expansion_size(
                len - virtual_size(old(self).segments()),
            ) <= u64::MAX,
        ensures
            final(self).wf(),
            final(self).can_expand() == old(self).can_expand(),
            len <= virtual_size(old(self).segments()) ==> final(self).segments() == old(self).segments(),
            len > virtual_size(old(self).segments()) && !old(self).can_expand() ==> r == Err::<(), StorageError>(StorageError::ExpansionUnavailable)
                && *final(self) == *old(self),
            len <= virtual_size(old(self).segments()) ==> final(self).allocator() == old(self).allocator(),
            len > virtual_size(old(self).segments()) && old(self).can_expand() ==> exists|
                answer: Result<Segment, StorageError>,
                grown: Result<(), StorageError>,
            |
                #[trigger] expansion_outcome(
                    old(self).allocator()->0,
                    final(self).allocator()->0,
                    expansion_size(len - virtual_size(old(self).segments())) as u64,
                    answer,
                    old(self).segments(),
                    final(self).segments(),
                    grown,
                ) && (grown is Err ==> r == grown && final(self).physical() == old(self).physical()),
            len > virtual_size(old(self).segments()) && r is Ok ==> final(self).segments().len() == old(self).segments().len() + 1
                && final(self).segments().drop_last() == old(self).segments(),
            r is Ok ==> final(self).physical().len() == (if physical_end(final(self).segments(), len as int, 0) > old(self).physical().len() {
                physical_end(final(self).segments(), len as int, 0)
            } else {
                old(self).physical().len() as int
            }),
            r is Ok ==> forall|i: int| 0 <= i < old(self).physical().len()
                ==> #[trigger] final(self).physical()[i] == old(self).physical()[i],
            final(self).inner_backend().dependable() == old(self).inner_backend().dependable(),
            old(self).inner_backend().dependable() && len <= virtual_size(old(self).segments())
                && physical_end(old(self).segments(), len as int, 0) <= usize::MAX ==> r is Ok,
    {
        let current_total = self.total_size();
        if len > current_total {
            let needed = len - current_total;
            let tenth = needed / 10;
            let buffer: u64 = if tenth > 1048576 { tenth } else { 1048576 };
            let allocation_size = needed + buffer;
            assert(allocation_size == expansion_size(len - virtual_size(old(self).segments())));
            let grown = self.try_expand(allocation_size);
            proof {
                if old(self).can_expand() {
                    let answer = choose|answer: Result<Segment, StorageError>| #[trigger] expansion_outcome(
                        old(self).allocator()->0,
                        self.allocator()->0,
                        allocation_size,
                        answer,
                        old(self).segments(),
                        self.segments(),
                        grown,
                    );
                    assert(expansion_outcome(
                        old(self).allocator()->0,
                        self.allocator()->0,
                        allocation_size,
                        answer,
                        old(self).segments(),
                        self.segments(),
                        grown,
                    ));
                }
            }
            match grown {
                Ok(()) => {},
                Err(e) => return Err(e),
            }
        }
        let ghost s = self.segments@;
        let mut remaining = len;
        let mut max_physical_end: u64 = 0;
        let mut i: usize = 0;
        assert(s.skip(0) =~= s);
        while i < self.segments.len() && remaining > 0
            invariant
                s == self.segments@,
                segments_fit(s),
                i <= s.len(),
                remaining <= len,
                physical_end(s, len as int, 0) == physical_end(s.skip(i as int), remaining as int, max_physical_end as int),
            decreases s.len() - i,
        {
            let segment = &self.segments[i];
            assert(s.skip(i as int).drop_first() =~= s.skip(i as int + 1));
            assert(s.skip(i as int)[0] == s[i as int]);
            assert(s[i as int].offset + s[i as int].size <= u64::MAX);
            let used_in_segment = if remaining < segment.size { remaining } else { segment.size };
            let physical_end_here = segment.offset + used_in_segment;
            if physical_end_here > max_physical_end {
                max_physical_end = physical_end_here;
            }
            remaining = remaining - used_in_segment;
            i = i + 1;
        }
        proof {
            if i == s.len() {
                assert(s.skip(i as int) =~= Seq::<Segment>::empty());
            }
        }
        assert(physical_end(s, len as int, 0) == max_physical_end as int);
        let current_underlying_len = self.inner.len()?;
        if max_physical_end > current_underlying_len {
            let ghost before = self.physical();
            self.inner.set_len(max_physical_end)?;
            assert(forall|i: int| 0 <= i < before.len() ==> #[trigger] self.physical()[i] == before[i]);
        }
        Ok(())
    }

    /// Reads `out.len()` virtual bytes starting at virtual offset `offset`, one
    /// segment piece at a time.
    pub fn read(&self, offset: u64, out: &mut [u8]) -> (r: Result<(), StorageError>)
        requires
            self.wf(),
        ensures
            final(out)@.len() == old(out)@.len(),
            r is Ok ==> old(out)@.len() == 0 || offset + old(out)@.len() <= virtual_size(self.segments()),
            r is Ok ==> reads_as(self.segments(), self.physical(), offset as int, final(out)@),
            r is Ok ==> forall|i: int| 0 <= i < old(out)@.len()
                ==> 0 <= #[trigger] phys_at(self.segments(), offset as int, i) < self.physical().len(),
            old(out)@.len() > 0 && offset + old(out)@.len() > virtual_size(self.segments()) ==> r is Err,
            old(out)@.len() == 0 ==> r is Ok && final(out)@ == old(out)@,
            old(out)@.len() > 0 && offset >= virtual_size(self.segments()) ==> r == Err::<(), StorageError>(
                StorageError::OffsetBeyondPartition {
                    virtual_offset: offset,
                    total_size: virtual_size(self.segments()) as u64,
                },
            ) && final(out)@ == old(out)@,
            self.inner_backend().dependable() ==> !(r matches Err(StorageError::Device { .. })),
            self.inner_backend().dependable() && backed(self.segments(), self.physical().len() as int, offset as int, old(out)@.len() as int)
                && offset + old(out)@.len() <= virtual_size(self.segments()) ==> r is Ok,
            self.inner_backend().dependable() && backed(self.segments(), self.physical().len() as int, offset as int, old(out)@.len() as int)
                && offset < virtual_size(self.segments()) < offset + old(out)@.len() ==> r == Err::<(), StorageError>(
                StorageError::OffsetBeyondPartition {
                    virtual_offset: virtual_size(self.segments()) as u64,
                    total_size: virtual_size(self.segments()) as u64,
                },
            ),
    {
        let ghost segs = self.segments@;
        let ghost phys = self.physical();
        let n = out.len();
        let mut bytes_read: usize = 0;
        let mut current_offset: u64 = offset;
        while bytes_read < n
            invariant
                segs == self.segments(),
                phys == self.physical(),
                self.wf(),
                n == out@.len(),
                n == old(out)@.len(),
                bytes_read <= n,
                bytes_read == 0 ==> out@ == old(out)@,
                current_offset == offset + bytes_read,
                bytes_read == 0 || offset + bytes_read <= virtual_size(segs),
                forall|i: int| 0 <= i < bytes_read ==> #[trigger] out@[i] == phys[phys_at(segs, offset as int, i)],
                forall|i: int| 0 <= i < bytes_read ==> 0 <= #[trigger] phys_at(segs, offset as int, i) < phys.len(),
            decreases n - bytes_read,
        {
            let (physical_offset, remaining_in_segment) = match self.virtual_to_physical(current_offset) {
                Ok(p) => p,
                Err(e) => {
                    proof {
                        if (current_offset as int) < virtual_size(segs) {
                            lemma_locate_some(segs, current_offset as int);
                        }
                    }
                    return Err(e);
                },
            };
            proof {
                lemma_locate_bound(segs, current_offset as int);
            }
            let want = n - bytes_read;
            let bytes_to_read: usize = if (remaining_in_segment as u128) < (want as u128) {
                remaining_in_segment as usize
            } else {
                want
            };
            let mut tmp = zeroed(bytes_to_read);
            proof {
                if self.inner_backend().dependable() && backed(segs, phys.len() as int, offset as int, n as int) {
                    let last = bytes_read + bytes_to_read - 1;
                    lemma_locate_shift(segs, current_offset as int, (bytes_to_read - 1) as int);
                    assert(offset + last == current_offset + (bytes_to_read - 1));
                    assert(phys_at(segs, offset as int, last) == physical_offset + bytes_to_read - 1);
                    assert(phys_at(segs, offset as int, last) < phys.len());
                }
            }
            match self.inner.read(physical_offset, tmp.as_mut_slice()) {
                Ok(()) => {},
                Err(e) => return Err(e),
            }
            let mut j: usize = 0;
            while j < bytes_to_read
                invariant
                    n == out@.len(),
                    n == old(out)@.len(),
                    bytes_read + bytes_to_read <= n,
                    bytes_to_read <= remaining_in_segment,
                    current_offset == offset + bytes_read,
                    locate(segs, current_offset as int) == Some((physical_offset as int, remaining_in_segment as int)),
                    tmp@ == phys.subrange(physical_offset as int, physical_offset + bytes_to_read),
                    tmp@.len() == bytes_to_read,
                    physical_offset + bytes_to_read <= phys.len(),
                    j <= bytes_to_read,
                    forall|i: int| 0 <= i < bytes_read + j ==> #[trigger] out@[i] == phys[phys_at(segs, offset as int, i)],
                    forall|i: int| 0 <= i < bytes_read + j ==> 0 <= #[trigger] phys_at(segs, offset as int, i) < phys.len(),
                    segments_fit(segs),
                decreases bytes_to_read - j,
            {
                let ghost prev = out@;
                out[bytes_read + j] = tmp[j];
                proof {
                    let k = bytes_read + j;
                    lemma_locate_shift(segs, current_offset as int, j as int);
                    assert(offset + k == current_offset + j);
                    assert(phys_at(segs, offset as int, k) == physical_offset + j);
                    assert forall|i: int| 0 <= i < k + 1 implies #[trigger] out@[i] == phys[phys_at(segs, offset as int, i)] by {
                        if i < k {
                            assert(out@[i] == prev[i]);
                        }
                    }
                    lemma_locate_bound(segs, current_offset as int);
                }
                j = j + 1;
            }
            bytes_read = bytes_read + bytes_to_read;
            current_offset = current_offset + bytes_to_read as u64;
        }
        Ok(())
    }

    /// Writes `data` at virtual offset `offset`, one segment piece at a time.
    pub fn write(&mut self, offset: u64, data: &[u8]) -> (r: Result<(), StorageError>)
        requires
            old(self).wf(),
        ensures
            final(self).wf(),
            final(self).segments() == old(self).segments(),
            final(self).can_expand() == old(self).can_expand(),
            r is Ok ==> final(self).physical().len() >= old(self).physical().len(),
            r is Ok ==> data@.len() == 0 || offset + data@.len() <= virtual_size(old(self).segments()),
            r is Ok ==> forall|i: int| 0 <= i < data@.len()
                ==> 0 <= #[trigger] phys_at(old(self).segments(), offset as int, i) < final(self).physical().len(),
            r is Ok && segments_disjoint(old(self).segments()) ==> reads_as(old(self).segments(), final(self).physical(), offset as int, data@),
            r is Ok ==> forall|p: int| 0 <= p < old(self).physical().len()
                && (forall|i: int| 0 <= i < data@.len() ==> #[trigger] phys_at(old(self).segments(), offset as int, i) != p)
                ==> #[trigger] final(self).physical()[p] == old(self).physical()[p],
            data@.len() > 0 && offset + data@.len() > virtual_size(old(self).segments()) ==> r is Err,
            data@.len() == 0 ==> r is Ok && *final(self) == *old(self),
            data@.len() > 0 && offset >= virtual_size(old(self).segments()) ==> r == Err::<(), StorageError>(
                StorageError::OffsetBeyondPartition {
                    virtual_offset: offset,
                    total_size: virtual_size(old(self).segments()) as u64,
                },
            ) && *final(self) == *old(self),
            final(self).inner_backend().dependable() == old(self).inner_backend().dependable(),
            old(self).inner_backend().dependable() ==> !(r matches Err(StorageError::Device { .. })),
            old(self).inner_backend().dependable() && backed(old(self).segments(), old(self).physical().len() as int, offset as int, data@.len() as int)
                && offset + data@.len() <= virtual_size(old(self).segments()) ==> r is Ok,
            old(self).inner_backend().dependable() && backed(old(self).segments(), old(self).physical().len() as int, offset as int, data@.len() as int)
                && offset < virtual_size(old(self).segments()) < offset + data@.len() ==> r == Err::<(), StorageError>(
                StorageError::OffsetBeyondPartition {
                    virtual_offset: virtual_size(old(self).segments()) as u64,
                    total_size: virtual_size(old(self).segments()) as u64,
                },
            ),
    {
        let ghost segs = self.segments@;
        let ghost phys0 = self.physical();
        let n = data.len();
        let mut bytes_written: usize = 0;
        let mut current_offset: u64 = offset;
        while bytes_written < n
            invariant
                segs == self.segments(),
                segs == old(self).segments(),
                phys0 == old(self).physical(),
                self.wf(),
                self.can_expand() == old(self).can_expand(),
                self.inner_backend().dependable() == old(self).inner_backend().dependable(),
                self.physical().len() >= phys0.len(),
                n == data@.len(),
                bytes_written <= n,
                bytes_written == 0 ==> *self == *old(self),
                current_offset == offset + bytes_written,
                bytes_written == 0 || offset + bytes_written <= virtual_size(segs),
                forall|i: int| 0 <= i < bytes_written ==> 0 <= #[trigger] phys_at(segs, offset as int, i) < self.physical().len(),
                segments_disjoint(segs) ==> forall|i: int|
                    0 <= i < bytes_written ==> self.physical()[phys_at(segs, offset as int, i)] == #[trigger] data@[i],
                forall|p: int| 0 <= p < phys0.len()
                    && (forall|i: int| 0 <= i < bytes_written ==> #[trigger] phys_at(segs, offset as int, i) != p)
                    ==> #[trigger] self.physical()[p] == phys0[p],
            decreases n - bytes_written,
        {
            let (physical_offset, remaining_in_segment) = match self.virtual_to_physical(current_offset) {
                Ok(p) => p,
                Err(e) => {
                    proof {
                        if (current_offset as int) < virtual_size(segs) {
                            lemma_locate_some(segs, current_offset as int);
                        }
                    }
                    return Err(e);
                },
            };
            proof {
                lemma_locate_bound(segs, current_offset as int);
            }
            let want = n - bytes_written;
            let bytes_to_write: usize = if (remaining_in_segment as u128) < (want as u128) {
                remaining_in_segment as usize
            } else {
                want
            };
            let mut chunk: Vec<u8> = Vec::new();
            let mut j: usize = 0;
            while j < bytes_to_write
                invariant
                    n == data@.len(),
                    bytes_written + bytes_to_write <= n,
                    j <= bytes_to_write,
                    chunk@ == data@.subrange(bytes_written as int, bytes_written + j),
                decreases bytes_to_write - j,
            {
                chunk.push(data[bytes_written + j]);
                j = j + 1;
                assert(chunk@ =~= data@.subrange(bytes_written as int, bytes_written + j));
            }
            let ghost before = self.physical();
            proof {
                if self.inner_backend().dependable() && backed(segs, phys0.len() as int, offset as int, n as int) {
                    let last = bytes_written + bytes_to_write - 1;
                    lemma_locate_shift(segs, current_offset as int, (bytes_to_write - 1) as int);
                    assert(offset + last == current_offset + (bytes_to_write - 1));
                    assert(phys_at(segs, offset as int, last) == physical_offset + bytes_to_write - 1);
                    assert(phys_at(segs, offset as int, last) < phys0.len());
                }
            }
            match self.inner.write(physical_offset, chunk.as_slice()) {
                Ok(()) => {},
                Err(e) => return Err(e),
            }
            proof {
                let after = self.physical();
                let bw2 = bytes_written + bytes_to_write;
                assert(after.len() >= before.len() && after.len() >= physical_offset + bytes_to_write);
                assert forall|k: int| 0 <= k < bytes_to_write implies after[physical_offset + k] == #[trigger] chunk@[k]
                    && chunk@[k] == data@[bytes_written + k] by {}
                assert forall|p: int| 0 <= p < before.len() && !(physical_offset <= p < physical_offset + bytes_to_write)
                    implies after[p] == before[p] by {}
                assert forall|i: int| 0 <= i < bw2 implies 0 <= #[trigger] phys_at(segs, offset as int, i) < after.len() by {
                    if i >= bytes_written {
                        let k = i - bytes_written;
                        lemma_locate_shift(segs, current_offset as int, k);
                        assert(offset + i == current_offset + k);
                    }
                }
                if segments_disjoint(segs) {
                    assert forall|i: int| 0 <= i < bw2 implies after[phys_at(segs, offset as int, i)] == #[trigger] data@[i] by {
                        if i >= bytes_written {
                            let k = i - bytes_written;
                            lemma_locate_shift(segs, current_offset as int, k);
                            assert(offset + i == current_offset + k);
                            assert(phys_at(segs, offset as int, i) == physical_offset + k);
                            assert(after[physical_offset + k] == chunk@[k]);
                        } else {
                            let p = phys_at(segs, offset as int, i);
                            assert(before[p] == data@[i]);
                            if physical_offset <= p < physical_offset + bytes_to_write {
                                let k = p - physical_offset;
                                lemma_locate_shift(segs, current_offset as int, k);
                                lemma_locate_some(segs, offset + i);
                                lemma_locate_injective(segs, offset + i, current_offset + k);
                            }
                        }
                    }
                }
                assert forall|p: int| 0 <= p < phys0.len()
                    && (forall|i: int| 0 <= i < bw2 ==> #[trigger] phys_at(segs, offset as int, i) != p)
                    implies #[trigger] after[p] == phys0[p] by {
                    if physical_offset <= p < physical_offset + bytes_to_write {
                        let k = p - physical_offset;
                        lemma_locate_shift(segs, current_offset as int, k);
                        assert(offset + (bytes_written + k) == current_offset + k);
                        assert(phys_at(segs, offset as int, bytes_written + k) == p);
                    } else {
                        assert forall|i: int| 0 <= i < bytes_written implies #[trigger] phys_at(segs, offset as int, i) != p by {}
                        assert(before[p] == phys0[p]);
                    }
                }
            }
            bytes_written = bytes_written + bytes_to_write;
            current_offset = current_offset + bytes_to_write as u64;
        }
        Ok(())
    }

    /// Syncs the underlying storage.
    pub fn sync_data(&self) -> (r: Result<(), StorageError>) {
        self.inner.sync_data()
    }

    /// Closing a partition does nothing: other partitions may still be using the
    /// underlying storage.
    pub fn close(&self) -> (r: Result<(), StorageError>)
        ensures
            r is Ok,
    {
        Ok(())
    }
}

} // verus!
