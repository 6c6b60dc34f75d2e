use manifold::backend::{InMemoryBackend, StorageBackend, StorageError};
use manifold::header::{ErrorKind, Segment};
use manifold::partitioned_backend::{NoExpansion, PartitionedStorageBackend, SegmentAllocator};

#[test]
fn test_single_segment_len() {
    let inner = InMemoryBackend::new();
    let mut backend = PartitionedStorageBackend::new(inner, 1000, 5000);

    // Initially, partition has no allocated storage
    assert_eq!(backend.len().unwrap(), 0);

    // After setting length, it should return the allocated size
    backend.set_len(3000).unwrap();
    assert_eq!(backend.len().unwrap(), 3000);

    backend.set_len(5000).unwrap();
    assert_eq!(backend.len().unwrap(), 5000);
}

#[test]
fn test_read_write_with_offset_translation() {
    let inner = InMemoryBackend::new();
    let mut backend = PartitionedStorageBackend::new(inner, 1000, 5000);

    // Pre-size the underlying storage to accommodate writes
    backend.set_len(200).unwrap();

    // Write data at partition offset 100
    let write_data = b"hello world";
    backend.write(100, write_data).unwrap();

    // Verify it was written to absolute offset 1100 in underlying storage
    let mut verify_buf = vec![0u8; write_data.len()];
    backend.inner().read(1100, &mut verify_buf).unwrap();
    assert_eq!(&verify_buf, write_data);

    // Read back through the partition
    let mut read_buf = vec![0u8; write_data.len()];
    backend.read(100, &mut read_buf).unwrap();
    assert_eq!(&read_buf, write_data);
}

#[test]
fn test_read_at_offset_zero() {
    let inner = InMemoryBackend::new();
    let mut backend = PartitionedStorageBackend::new(inner, 1000, 5000);

    // Pre-size the underlying storage
    backend.set_len(100).unwrap();

    let write_data = b"start";
    backend.write(0, write_data).unwrap();

    // Verify translation to absolute offset 1000
    let mut verify_buf = vec![0u8; write_data.len()];
    backend.inner().read(1000, &mut verify_buf).unwrap();
    assert_eq!(&verify_buf, write_data);
}

#[test]
fn test_read_at_partition_end() {
    let inner = InMemoryBackend::new();
    let mut backend = PartitionedStorageBackend::new(inner, 1000, 5000);

    // Pre-size to full partition
    backend.set_len(5000).unwrap();

    // Write exactly at the end of the partition (offset 4995, length 5)
    let write_data = b"end!_";
    backend.write(4995, write_data).unwrap();

    let mut read_buf = vec![0u8; write_data.len()];
    backend.read(4995, &mut read_buf).unwrap();
    assert_eq!(&read_buf, write_data);
}

#[test]
fn test_write_exceeds_partition_size() {
    let inner = InMemoryBackend::new();
    let mut backend = PartitionedStorageBackend::new(inner, 1000, 5000);

    // Try to write beyond partition size
    let write_data = b"overflow";
    let result = backend.write(4996, write_data);

    assert!(result.is_err());
    assert_eq!(result.unwrap_err().kind(), ErrorKind::InvalidInput);
}

#[test]
fn test_read_exceeds_partition_size() {
    let inner = InMemoryBackend::new();
    let backend = PartitionedStorageBackend::new(inner, 1000, 5000);

    let mut buf = vec![0u8; 100];
    let result = backend.read(4950, &mut buf);

    assert!(result.is_err());
    assert_eq!(result.unwrap_err().kind(), ErrorKind::InvalidInput);
}

#[test]
fn test_set_len_within_partition() {
    let inner = InMemoryBackend::new();
    let mut backend = PartitionedStorageBackend::new(inner, 1000, 5000);

    backend.set_len(3000).unwrap();

    // Underlying storage should be extended to 1000 + 3000 = 4000
    assert_eq!(backend.inner().len().unwrap(), 4000);
}

#[test]
fn test_set_len_without_expansion_callback() {
    let inner = InMemoryBackend::new();
    let mut backend = PartitionedStorageBackend::new(inner, 1000, 5000);

    // Without expansion callback, cannot exceed initial size
    let result = backend.set_len(6000);
    assert!(result.is_err());
}

#[test]
fn test_multiple_partitions_same_storage() {
    let inner = InMemoryBackend::new();

    // The partitions take turns owning the shared storage.
    let mut partition1 = PartitionedStorageBackend::new(inner, 0, 1000);
    partition1.set_len(200).unwrap();
    let mut partition2 = PartitionedStorageBackend::new(partition1.into_inner(), 1000, 1000);
    partition2.set_len(200).unwrap();
    let mut partition1 = PartitionedStorageBackend::new(partition2.into_inner(), 0, 1000);

    // Write to partition 1
    partition1.write(100, b"partition1").unwrap();

    // Write to partition 2
    let mut partition2 = PartitionedStorageBackend::new(partition1.into_inner(), 1000, 1000);
    partition2.write(100, b"partition2").unwrap();

    // Read back from partition 1
    let partition1 = PartitionedStorageBackend::new(partition2.into_inner(), 0, 1000);
    let mut buf1 = vec![0u8; 10];
    partition1.read(100, &mut buf1).unwrap();
    assert_eq!(&buf1, b"partition1");

    // Read back from partition 2
    let partition2 = PartitionedStorageBackend::new(partition1.into_inner(), 1000, 1000);
    let mut buf2 = vec![0u8; 10];
    partition2.read(100, &mut buf2).unwrap();
    assert_eq!(&buf2, b"partition2");

    // Verify they're at different absolute offsets
    let inner = partition2.into_inner();
    let mut verify1 = vec![0u8; 10];
    inner.read(100, &mut verify1).unwrap();
    assert_eq!(&verify1, b"partition1");

    let mut verify2 = vec![0u8; 10];
    inner.read(1100, &mut verify2).unwrap();
    assert_eq!(&verify2, b"partition2");
}

#[test]
fn test_partition_isolation() {
    let inner = InMemoryBackend::new();

    let partition1 = PartitionedStorageBackend::new(inner, 0, 1000);
    let partition2 = PartitionedStorageBackend::new(partition1.into_inner(), 1000, 1000);

    // Each partition initially reports 0 length
    assert_eq!(partition2.len().unwrap(), 0);
    let mut partition1 = PartitionedStorageBackend::new(partition2.into_inner(), 0, 1000);
    assert_eq!(partition1.len().unwrap(), 0);

    // Grow partition 1
    partition1.set_len(800).unwrap();

    // Partition 1 should report its allocated size
    assert_eq!(partition1.len().unwrap(), 800);

    // Partition 2 should still report 0 (not affected by partition 1)
    let partition2 = PartitionedStorageBackend::new(partition1.into_inner(), 1000, 1000);
    assert_eq!(partition2.len().unwrap(), 0);
}

#[test]
fn test_sync_delegates_to_inner() {
    let inner = InMemoryBackend::new();
    let backend = PartitionedStorageBackend::new(inner, 1000, 5000);

    // sync_data should not error (InMemoryBackend sync is no-op)
    assert!(backend.sync_data().is_ok());
}

#[test]
fn test_close_does_not_close_inner() {
    let inner = InMemoryBackend::new();
    let backend = PartitionedStorageBackend::new(inner, 1000, 5000);

    // Close the partition
    backend.close().unwrap();

    // Inner should still be usable (pre-size it first for the read test)
    let mut inner = backend.into_inner();
    inner.set_len(100).unwrap();
    let mut buf = vec![0u8; 10];
    assert!(inner.read(0, &mut buf).is_ok());
}

#[test]
fn test_multi_segment_read_write() {
    let inner = InMemoryBackend::new();

    let segments = vec![
        Segment::new(1000, 1000),  // Virtual 0-1000 -> Physical 1000-2000
        Segment::new(5000, 1000),  // Virtual 1000-2000 -> Physical 5000-6000
        Segment::new(10000, 1000), // Virtual 2000-3000 -> Physical 10000-11000
    ];

    let mut backend = PartitionedStorageBackend::with_segments(inner, segments, None::<NoExpansion>);
    backend.set_len(3000).unwrap();

    // Write data that spans multiple segments
    // Create 200 bytes of data so it definitely spans segments
    let mut data = Vec::new();
    for i in 0u8..200 {
        data.push(i);
    }

    // Write starting at virtual offset 900 (100 bytes before segment boundary)
    backend.write(900, &data).unwrap();

    // Read it back
    let mut read_buf = vec![0u8; data.len()];
    backend.read(900, &mut read_buf).unwrap();
    assert_eq!(&read_buf, &data);

    // Verify it was written to correct physical locations
    // Virtual 900-1000 (100 bytes) -> Physical 1900-2000 (end of segment 1)
    // Virtual 1000-1100 (100 bytes) -> Physical 5000-5100 (start of segment 2)
    let first_segment_bytes = 100; // bytes from virtual 900-1000

    let mut verify1 = vec![0u8; first_segment_bytes];
    backend.inner().read(1900, &mut verify1).unwrap(); // Physical 1000 + 900 = 1900
    assert_eq!(&verify1, &data[..first_segment_bytes]);

    let mut verify2 = vec![0u8; 100]; // Next 100 bytes in segment 2
    backend.inner().read(5000, &mut verify2).unwrap(); // Start of segment 2
    assert_eq!(&verify2, &data[first_segment_bytes..first_segment_bytes + 100]);
}

#[test]
fn test_multi_segment_total_size() {
    let inner = InMemoryBackend::new();

    let segments = vec![
        Segment::new(1000, 1024),
        Segment::new(5000, 2048),
        Segment::new(10000, 512),
    ];

    let backend = PartitionedStorageBackend::with_segments(inner, segments, None::<NoExpansion>);
    assert_eq!(backend.total_size(), 1024 + 2048 + 512);
}

#[test]
fn test_virtual_to_physical_mapping() {
    let inner = InMemoryBackend::new();

    let segments = vec![Segment::new(4096, 1000), Segment::new(8192, 500)];

    let backend = PartitionedStorageBackend::with_segments(inner, segments, None::<NoExpansion>);

    // Virtual offset 0 -> Physical 4096
    let (phys, rem) = backend.virtual_to_physical(0).unwrap();
    assert_eq!(phys, 4096);
    assert_eq!(rem, 1000);

    // Virtual offset 999 -> Physical 5095 (end of first segment)
    let (phys, rem) = backend.virtual_to_physical(999).unwrap();
    assert_eq!(phys, 5095);
    assert_eq!(rem, 1);

    // Virtual offset 1000 -> Physical 8192 (start of second segment)
    let (phys, rem) = backend.virtual_to_physical(1000).unwrap();
    assert_eq!(phys, 8192);
    assert_eq!(rem, 500);

    // Virtual offset 1499 -> Physical 8691 (end of second segment)
    let (phys, rem) = backend.virtual_to_physical(1499).unwrap();
    assert_eq!(phys, 8691);
    assert_eq!(rem, 1);

    // Virtual offset beyond capacity should fail
    assert!(backend.virtual_to_physical(1500).is_err());
}

// Further cases: growth through an allocator, errors and their messages.

/// Hands out segments from a fixed list, one per request.
struct ListAllocator {
    next: Vec<Segment>,
    requests: Vec<u64>,
}

impl SegmentAllocator for ListAllocator {
    fn allocate(&mut self, requested_size: u64) -> Result<Segment, StorageError> {
        self.requests.push(requested_size);
        if self.next.is_empty() {
            Err(StorageError::ExpansionUnavailable)
        } else {
            Ok(self.next.remove(0))
        }
    }
}

#[test]
fn test_set_len_expands_through_allocator() {
    let inner = InMemoryBackend::new();
    let allocator = ListAllocator { next: vec![Segment::new(20000, 4 * 1024 * 1024)], requests: vec![] };
    let mut backend =
        PartitionedStorageBackend::with_segments(inner, vec![Segment::new(4096, 1000)], Some(allocator));
    backend.set_len(1500).unwrap();
    // The shortfall is 500 bytes; the request adds at least 1 MiB.
    assert_eq!(backend.total_size(), 1000 + 4 * 1024 * 1024);
    // The first 1000 virtual bytes end at 5096, the next 500 at 20500.
    assert_eq!(backend.inner().len().unwrap(), 20500);
    assert_eq!(backend.len().unwrap(), 1500);
}

#[test]
fn test_expansion_overflow_is_refused() {
    let inner = InMemoryBackend::new();
    let allocator = ListAllocator { next: vec![Segment::new(u64::MAX - 10, 100)], requests: vec![] };
    let mut backend =
        PartitionedStorageBackend::with_segments(inner, vec![Segment::new(0, 10)], Some(allocator));
    assert_eq!(backend.set_len(20), Err(StorageError::ExpansionOverflow));
    assert_eq!(backend.total_size(), 10);
}

#[test]
fn test_offset_beyond_partition_message() {
    let inner = InMemoryBackend::new();
    let backend = PartitionedStorageBackend::new(inner, 0, 10);
    let err = backend.virtual_to_physical(10).unwrap_err();
    assert_eq!(err, StorageError::OffsetBeyondPartition { virtual_offset: 10, total_size: 10 });
    assert_eq!(err.message(), "virtual offset 10 exceeds total size 10");
    assert_eq!(err.kind(), ErrorKind::InvalidInput);
}

#[test]
fn test_write_spanning_segments_with_gaps_leaves_gaps_alone() {
    let mut inner = InMemoryBackend::new();
    inner.set_len(64).unwrap();
    inner.write(10, &[7u8; 10]).unwrap();
    let segments = vec![Segment::new(0, 10), Segment::new(20, 10)];
    let mut backend = PartitionedStorageBackend::with_segments(inner, segments, None::<NoExpansion>);
    backend.write(5, &[1u8; 10]).unwrap();
    let mut all = vec![0u8; 30];
    backend.inner().read(0, &mut all).unwrap();
    assert_eq!(&all[0..5], &[0u8; 5]);
    assert_eq!(&all[5..10], &[1u8; 5]);
    assert_eq!(&all[10..20], &[7u8; 10]);
    assert_eq!(&all[20..25], &[1u8; 5]);
    assert_eq!(&all[25..30], &[0u8; 5]);
}

#[test]
fn test_empty_access_and_access_past_the_end() {
    let inner = InMemoryBackend::new();
    assert_eq!(inner.sync_data(), Ok(()));
    assert_eq!(inner.close(), Ok(()));
    assert_eq!(inner.len(), Ok(0));
    let mut backend = PartitionedStorageBackend::<InMemoryBackend, NoExpansion>::new(inner, 4096, 100);
    // Empty reads and writes succeed without touching the storage.
    assert_eq!(backend.write(500, &[]), Ok(()));
    let mut none: [u8; 0] = [];
    assert_eq!(backend.read(500, &mut none), Ok(()));
    assert_eq!(backend.inner().len(), Ok(0));
    // An access starting at or past the end reports where it started.
    let expected = Err(StorageError::OffsetBeyondPartition { virtual_offset: 100, total_size: 100 });
    assert_eq!(backend.write(100, &[1, 2]), expected);
    let mut out = [7u8; 2];
    assert_eq!(backend.read(100, &mut out), expected);
    assert_eq!(out, [7, 7]);
}

#[test]
fn test_access_running_past_the_end_of_backed_storage_is_refused_by_the_partition() {
    let inner = InMemoryBackend::new();
    let mut backend = PartitionedStorageBackend::new(inner, 1000, 5000);
    backend.set_len(5000).unwrap();
    assert_eq!(backend.inner().len().unwrap(), 6000);
    let mut buf = vec![0u8; 100];
    assert_eq!(
        backend.read(4950, &mut buf),
        Err(StorageError::OffsetBeyondPartition { virtual_offset: 5000, total_size: 5000 })
    );
    assert_eq!(
        backend.write(4996, b"overflow"),
        Err(StorageError::OffsetBeyondPartition { virtual_offset: 5000, total_size: 5000 })
    );
    // The part inside the partition was written before the end was reached.
    let mut inside = vec![0u8; 4];
    backend.read(4996, &mut inside).unwrap();
    assert_eq!(&inside, b"over");
}

#[test]
fn test_in_memory_lengths_follow_set_len() {
    let inner = InMemoryBackend::new();
    let mut backend = PartitionedStorageBackend::new(inner, 1000, 5000);
    assert_eq!(backend.len().unwrap(), 0);
    backend.set_len(3000).unwrap();
    assert_eq!(backend.len().unwrap(), 3000);
    assert_eq!(backend.inner().len().unwrap(), 4000);
    backend.set_len(5000).unwrap();
    assert_eq!(backend.len().unwrap(), 5000);
}

#[test]
fn test_in_memory_multi_segment_write_reads_back() {
    let segments = vec![Segment::new(1000, 1000), Segment::new(5000, 1000), Segment::new(10000, 1000)];
    let mut backend: PartitionedStorageBackend<InMemoryBackend, NoExpansion> =
        PartitionedStorageBackend::with_segments(InMemoryBackend::new(), segments, None);
    backend.set_len(3000).unwrap();
    let data: Vec<u8> = (0u8..200).collect();
    backend.write(900, &data).unwrap();
    let mut first = vec![0u8; 100];
    backend.inner().read(1900, &mut first).unwrap();
    assert_eq!(&first[..], &data[..100]);
    let mut second = vec![0u8; 100];
    backend.inner().read(5000, &mut second).unwrap();
    assert_eq!(&second[..], &data[100..]);
    let mut buf = vec![0u8; 200];
    backend.read(900, &mut buf).unwrap();
    assert_eq!(buf, data);
}
