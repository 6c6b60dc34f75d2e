//! Storage backends: byte-addressed, resizable storage that databases live in.

use crate::header::{kind_description, ErrorKind};
use crate::text::{decimal, push_decimal};
use vstd::prelude::*;

verus! {

/// Errors reported by storage backends.
#[derive(Debug, Clone, Copy, PartialEq, Eq, Structural)]
pub enum StorageError {
    /// A virtual offset lies beyond the total size of a partition's segments.
    OffsetBeyondPartition { virtual_offset: u64, total_size: u64 },
    /// A partition needs more space and has no way to obtain it.
    ExpansionUnavailable,
    /// A newly obtained segment would make offsets or sizes overflow.
    ExpansionOverflow,
    /// An access lies outside the stored bytes.
    OutOfRange { offset: u64, len: u64, size: u64 },
    /// A master header encodes to more bytes than its page holds.
    HeaderTooLarge { size: usize },
    /// An error of the underlying device.
    Device { kind: ErrorKind },
}

impl StorageError {
    /// The kind of this error: the device's kind for device errors, `InvalidInput`
    /// for everything else (offsets, accesses out of range, expansion, a header too
    /// large for its page).
    pub fn kind(&self) -> (k: ErrorKind)
        ensures
            k == match self {
                StorageError::Device { kind } => *kind,
                _ => ErrorKind::InvalidInput,
            },
    {
        match self {
            StorageError::Device { kind } => *kind,
            _ => ErrorKind::InvalidInput,
        }
    }
}

/// The bytes of `c` after writing `data` at `offset`: the written range holds
/// `data`, the storage grows to cover it, and any gap past the old end is zero.
pub open spec fn spliced(c: Seq<u8>, offset: int, data: Seq<u8>) -> Seq<u8> {
    let n = if offset + data.len() > c.len() {
        offset + data.len()
    } else {
        c.len() as int
    };
    Seq::new(
        n as nat,
        |i: int|
            if offset <= i < offset + data.len() {
                data[i - offset]
            } else if i < c.len() {
                c[i]
            } else {
                0u8
            },
    )
}

/// The bytes of `c` after setting its length to `len`: truncated, or extended with
/// zeros.
pub open spec fn resized(c: Seq<u8>, len: int) -> Seq<u8> {
    Seq::new(len as nat, |i: int| if i < c.len() { c[i] } else { 0u8 })
}

/// The message of a storage error.
pub open spec fn storage_error_message(e: StorageError) -> Seq<char> {
    match e {
        StorageError::OffsetBeyondPartition { virtual_offset, total_size } => "virtual offset "@
            + decimal(virtual_offset as nat) + " exceeds total size "@ + decimal(total_size as nat),
        StorageError::ExpansionUnavailable => "cannot expand partition: no expansion callback configured"@,
        StorageError::ExpansionOverflow => "cannot expand partition: new segment ends past the largest offset"@,
        StorageError::OutOfRange { offset, len, size } => "access of "@ + decimal(len as nat)
            + " bytes at offset "@ + decimal(offset as nat) + " is outside storage of "@ + decimal(
            size as nat,
        ) + " bytes"@,
        StorageError::HeaderTooLarge { size } => "master header size ("@ + decimal(size as nat)
            + " bytes) exceeds page size minus CRC (4092 bytes)"@,
        StorageError::Device { kind } => kind_description(kind),
    }
}

impl StorageError {
    /// The message of this error.
    pub fn message(&self) -> (m: String)
        ensures
            m@ == storage_error_message(*self),
    {
        match self {
            StorageError::OffsetBeyondPartition { virtual_offset, total_size } => {
                let mut m = String::from_str("virtual offset ");
                push_decimal(&mut m, *virtual_offset);
                m.append(" exceeds total size ");
                push_decimal(&mut m, *total_size);
                m
            },
            StorageError::ExpansionUnavailable => String::from_str(
                "cannot expand partition: no expansion callback configured",
            ),
            StorageError::ExpansionOverflow => String::from_str(
                "cannot expand partition: new segment ends past the largest offset",
            ),
            StorageError::OutOfRange { offset, len, size } => {
                let mut m = String::from_str("access of ");
                push_decimal(&mut m, *len);
                m.append(" bytes at offset ");
                push_decimal(&mut m, *offset);
                m.append(" is outside storage of ");
                push_decimal(&mut m, *size);
                m.append(" bytes");
                m
            },
            StorageError::HeaderTooLarge { size } => {
                let mut m = String::from_str("master header size (");
                push_decimal(&mut m, *size as u64);
                m.append(" bytes) exceeds page size minus CRC (4092 bytes)");
                m
            },
            StorageError::Device { kind } => kind.description(),
        }
    }
}

/// Byte-addressed storage that a database file lives in.
///
/// Implementations promise what each method's contract states when it returns `Ok`;
/// any method may fail, and a failed write or resize may have changed the storage.
/// A storage that is `dependable` promises more: it never fails an access that lies
/// within its bytes, a resize to a length that fits in memory, a length query or a
/// sync, and it reports the failures it has as invalid input, never as a device
/// error.
pub trait StorageBackend {
    /// The stored bytes. Implementations verified here define it; for one that is
    /// not, nothing is known of it.
    closed spec fn contents(&self) -> Seq<u8> {
        arbitrary()
    }

    /// Whether this storage fails only accesses outside its bytes and resizes
    /// beyond `usize::MAX`. Implementations verified here define it; for one that
    /// is not, it is false and promises nothing.
    closed spec fn dependable(&self) -> bool {
        false
    }

    /// Gets the current length of the storage.
    fn len(&self) -> (r: Result<u64, StorageError>)
        ensures
            r matches Ok(n) ==> n == self.contents().len(),
            self.dependable() ==> r is Ok,
    ;

    /// Reads `out.len()` bytes starting at `offset` into `out`.
    fn read(&self, offset: u64, out: &mut [u8]) -> (r: Result<(), StorageError>)
        ensures
            final(out)@.len() == old(out)@.len(),
            r is Ok ==> offset + old(out)@.len() <= self.contents().len() && final(out)@
                == self.contents().subrange(offset as int, offset + old(out)@.len()),
            self.dependable() && offset + old(out)@.len() <= self.contents().len() ==> r is Ok,
            self.dependable() ==> !(r matches Err(StorageError::Device { .. })),
    ;

    /// Sets the length of the storage: truncating, or extending with zeros.
    fn set_len(&mut self, len: u64) -> (r: Result<(), StorageError>)
        ensures
            r is Ok ==> final(self).contents() == resized(old(self).contents(), len as int),
            old(self).dependable() && len <= usize::MAX ==> r is Ok,
            old(self).dependable() ==> !(r matches Err(StorageError::Device { .. })),
            final(self).dependable() == old(self).dependable(),
    ;

    /// Syncs all buffered data with the persistent storage.
    fn sync_data(&self) -> (r: Result<(), StorageError>)
        ensures
            self.dependable() ==> r is Ok,
    ;

    /// Writes `data` starting at `offset`.
    fn write(&mut self, offset: u64, data: &[u8]) -> (r: Result<(), StorageError>)
        ensures
            r is Ok ==> final(self).contents() == spliced(old(self).contents(), offset as int, data@),
            old(self).dependable() && offset + data@.len() <= old(self).contents().len() ==> r is Ok,
            old(self).dependable() ==> !(r matches Err(StorageError::Device { .. })),
            final(self).dependable() == old(self).dependable(),
    ;

    /// Releases any resources held by the backend.
    fn close(&self) -> (r: Result<(), StorageError>);
}

/// Storage held in memory.
pub struct InMemoryBackend {
    data: Vec<u8>,
}

impl InMemoryBackend {
    /// The stored bytes.
    pub closed spec fn bytes(&self) -> Seq<u8> {
        self.data@
    }

    /// Creates an empty in-memory backend.
    pub fn new() -> (b: Self)
        ensures
            b.bytes() == Seq::<u8>::empty(),
    {
        Self { data: Vec::new() }
    }
}

impl StorageBackend for InMemoryBackend {
    open spec fn contents(&self) -> Seq<u8> {
        self.bytes()
    }

    /// Memory fails only accesses outside its bytes and resizes it cannot hold.
    open spec fn dependable(&self) -> bool {
        true
    }

    fn len(&self) -> (r: Result<u64, StorageError>)
        ensures
            r == Ok::<u64, StorageError>(self.contents().len() as u64),
    {
        Ok(self.data.len() as u64)
    }

    fn read(&self, offset: u64, out: &mut [u8]) -> (r: Result<(), StorageError>)
        ensures
            r is Ok <==> offset + old(out)@.len() <= self.contents().len(),
            r is Err ==> r == Err::<(), StorageError>(
                StorageError::OutOfRange {
                    offset,
                    len: old(out)@.len() as u64,
                    size: self.contents().len() as u64,
                },
            ),
    {
        let size = self.data.len();
        let n = out.len();
        if offset as u128 + n as u128 > size as u128 {
            return Err(StorageError::OutOfRange { offset, len: n as u64, size: size as u64 });
        }
        let start = offset as usize;
        let mut i: usize = 0;
        while i < n
            invariant
                n == out@.len(),
                size == self.data@.len(),
                start + n <= size,
                start == offset,
                i <= n,
                forall|k: int| 0 <= k < i ==> #[trigger] out@[k] == self.data@[start + k],
            decreases n - i,
        {
            out[i] = self.data[start + i];
            i = i + 1;
        }
        assert(out@ =~= self.data@.subrange(offset as int, offset + n));
        Ok(())
    }

    fn set_len(&mut self, len: u64) -> (r: Result<(), StorageError>)
        ensures
            r is Ok <==> len <= usize::MAX,
            r is Err ==> final(self).contents() == old(self).contents(),
            r is Err ==> r == Err::<(), StorageError>(
                StorageError::OutOfRange { offset: len, len: 0, size: old(self).contents().len() as u64 },
            ),
    {
        if len as u128 > usize::MAX as u128 {
            return Err(StorageError::OutOfRange { offset: len, len: 0, size: self.data.len() as u64 });
        }
        let target = len as usize;
        let ghost before = self.data@;
        if target <= self.data.len() {
            self.data.truncate(target);
            assert(self.data@ =~= resized(before, len as int));
        } else {
            while self.data.len() < target
                invariant
                    before.len() <= self.data@.len() <= target,
                    target == len,
                    forall|i: int| 0 <= i < before.len() ==> #[trigger] self.data@[i] == before[i],
                    forall|i: int| before.len() <= i < self.data@.len() ==> #[trigger] self.data@[i] == 0,
                decreases target - self.data@.len(),
            {
                self.data.push(0);
            }
            assert(self.data@ =~= resized(before, len as int));
        }
        Ok(())
    }

    /// Memory needs no syncing: this always succeeds.
    fn sync_data(&self) -> (r: Result<(), StorageError>)
        ensures
            r is Ok,
    {
        Ok(())
    }

    fn write(&mut self, offset: u64, data: &[u8]) -> (r: Result<(), StorageError>)
        ensures
            r is Ok <==> offset + data@.len() <= old(self).contents().len(),
            r is Err ==> final(self).contents() == old(self).contents(),
            r is Err ==> r == Err::<(), StorageError>(
                StorageError::OutOfRange {
                    offset,
                    len: data@.len() as u64,
                    size: old(self).contents().len() as u64,
                },
            ),
    {
        let size = self.data.len();
        let n = data.len();
        if offset as u128 + n as u128 > size as u128 {
            return Err(StorageError::OutOfRange { offset, len: n as u64, size: size as u64 });
        }
        let start = offset as usize;
        let ghost before = self.data@;
        let mut i: usize = 0;
        while i < n
            invariant
                n == data@.len(),
                size == before.len(),
                start == offset,
                start + n <= before.len(),
                self.data@.len() == before.len(),
                i <= n,
                forall|k: int| 0 <= k < self.data@.len() ==> #[trigger] self.data@[k] == (if start <= k
                    < start + i {
                    data@[k - start]
                } else {
                    before[k]
                }),
            decreases n - i,
        {
            self.data.set(start + i, data[i]);
            i = i + 1;
        }
        assert(self.data@ =~= spliced(before, offset as int, data@));
        Ok(())
    }

    /// Memory holds nothing to release: this always succeeds.
    fn close(&self) -> (r: Result<(), StorageError>)
        ensures
            r is Ok,
    {
        Ok(())
    }
}

} // verus!
