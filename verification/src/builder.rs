//! Configuration for opening a column family database.

use vstd::prelude::*;

verus! {

/// Default file handle pool size.
pub const DEFAULT_POOL_SIZE: usize = 32;

/// Builder for configuring and opening a column family database.
pub struct ColumnFamilyDatabaseBuilder {
    /// Maximum number of storage handles kept open at once.
    pub pool_size: usize,
}

impl ColumnFamilyDatabaseBuilder {
    /// Creates a new builder with default settings.
    pub fn new() -> (b: Self)
        ensures
            b.pool_size == DEFAULT_POOL_SIZE,
    {
        Self { pool_size: DEFAULT_POOL_SIZE }
    }

    /// Sets the maximum number of file handles in the pool.
    ///
    /// The pool manages file descriptors for column families. A larger pool allows
    /// more column families to have active writes concurrently without eviction.
    pub fn pool_size(self, size: usize) -> (b: Self)
        ensures
            b.pool_size == size,
    {
        let mut b = self;
        b.pool_size = size;
        b
    }
}

impl Default for ColumnFamilyDatabaseBuilder {
    fn default() -> (b: Self)
        ensures
            b.pool_size == DEFAULT_POOL_SIZE,
    {
        Self::new()
    }
}

} // verus!
