//! The state of one column family: its name, its segments, and its database once
//! opened.

use crate::backend::StorageBackend;
use crate::file_handle_pool::{touched, FileHandlePool};
use crate::header::{copy_segments, Segment};
use crate::partitioned_backend::{segments_fit, PartitionedStorageBackend, SegmentAllocator};
use vstd::prelude::*;

verus! {

/// State of a column family, whose database is opened lazily.
///
/// Column families are cheap to create (just header metadata); a database is
/// opened only when a column family is first used, over a partition of the file
/// made of its segments.
pub struct ColumnFamilyState<D> {
    /// Name of this column family.
    pub name: String,
    /// Segments that make up this column family's storage.
    pub segments: Vec<Segment>,
    /// The database, once opened.
    pub db: Option<D>,
}

impl<D> ColumnFamilyState<D> {
    /// Creates a new column family state with no database.
    pub fn new(name: String, segments: Vec<Segment>) -> (s: Self)
        ensures
            s.name == name,
            s.segments == segments,
            s.db is None,
    {
        Self { name, segments, db: None }
    }

    /// Returns the opened database, marking the column family's pooled handle as
    /// used so that it is not evicted early; `None` (with the pool untouched) when
    /// no database is open yet, in which case the caller opens one over
    /// [`Self::partition`] and stores it with [`Self::install_database`].
    pub fn ensure_database<H>(&self, pool: &mut FileHandlePool<H>) -> (r: Option<&D>)
        requires
            old(pool).wf(),
        ensures
            final(pool).wf(),
            final(pool).bound() == old(pool).bound(),
            match self.db {
                Some(d) => r == Some(&d) && (final(pool).slots(), final(pool).clock()) == touched(
                    old(pool).slots(),
                    old(pool).clock(),
                    self.name@,
                ),
                None => r is None && final(pool).slots() == old(pool).slots() && final(pool).clock()
                    == old(pool).clock(),
            },
    {
        match &self.db {
            Some(db) => {
                pool.touch(self.name.as_str());
                Some(db)
            },
            None => None,
        }
    }

    /// Returns the opened database, if any (for platforms without a handle pool).
    pub fn ensure_database_wasm(&self) -> (r: Option<&D>)
        ensures
            match self.db {
                Some(d) => r == Some(&d),
                None => r is None,
            },
    {
        match &self.db {
            Some(db) => Some(db),
            None => None,
        }
    }

    /// The partition a database of this column family lives in: its segments over
    /// `backend`, growing through `allocator`.
    pub fn partition<B: StorageBackend, A: SegmentAllocator>(&self, backend: B, allocator: A) -> (p:
        PartitionedStorageBackend<B, A>)
        requires
            segments_fit(self.segments@),
        ensures
            p.wf(),
            p.segments() == self.segments@,
            p.inner_backend() == backend,
            p.can_expand(),
    {
        let segments = copy_segments(&self.segments);
        PartitionedStorageBackend::with_segments(backend, segments, Some(allocator))
    }

    /// Stores the database opened for this column family.
    pub fn install_database(&mut self, db: D)
        ensures
            final(self).name == old(self).name,
            final(self).segments == old(self).segments,
            final(self).db == Some(db),
    {
        self.db = Some(db);
    }

    /// Drops the database, so that the next use opens it again.
    pub fn evict_database(&mut self)
        ensures
            final(self).name == old(self).name,
            final(self).segments == old(self).segments,
            final(self).db is None,
    {
        self.db = None;
    }
}

} // verus!
