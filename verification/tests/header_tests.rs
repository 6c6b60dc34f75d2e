use manifold::header::{
    ColumnFamilyMetadata, ErrorKind, FreeSegment, HeaderError, MasterHeader, Segment, FORMAT_VERSION,
    MAGIC_NUMBER, PAGE_SIZE,
};

#[test]
fn test_empty_header_round_trip() {
    let header = MasterHeader::new();
    let bytes = header.to_bytes().unwrap();

    assert_eq!(bytes.len(), PAGE_SIZE);
    assert_eq!(&bytes[0..9], &MAGIC_NUMBER);
    assert_eq!(bytes[9], FORMAT_VERSION);

    let decoded = MasterHeader::from_bytes(&bytes).unwrap();
    assert_eq!(decoded, header);
}

#[test]
fn test_single_column_family() {
    let cf = ColumnFamilyMetadata::new("users".to_string(), PAGE_SIZE as u64, 1024 * 1024);
    let header = MasterHeader::with_column_families(vec![cf.clone()]);

    let bytes = header.to_bytes().unwrap();
    let decoded = MasterHeader::from_bytes(&bytes).unwrap();

    assert_eq!(decoded.column_families.len(), 1);
    assert_eq!(decoded.column_families[0], cf);
    assert_eq!(decoded.free_segments.len(), 0);
}

#[test]
fn test_multiple_column_families() {
    let cf1 = ColumnFamilyMetadata::new("users".to_string(), PAGE_SIZE as u64, 1024 * 1024);
    let cf2 = ColumnFamilyMetadata::new(
        "products".to_string(),
        PAGE_SIZE as u64 + 1024 * 1024,
        2048 * 1024,
    );
    let cf3 = ColumnFamilyMetadata::new(
        "orders".to_string(),
        PAGE_SIZE as u64 + 1024 * 1024 + 2048 * 1024,
        512 * 1024,
    );

    let header = MasterHeader::with_column_families(vec![cf1, cf2, cf3]);
    let bytes = header.to_bytes().unwrap();
    let decoded = MasterHeader::from_bytes(&bytes).unwrap();

    assert_eq!(decoded.column_families.len(), 3);
    assert_eq!(decoded.column_families[0].name, "users");
    assert_eq!(decoded.column_families[1].name, "products");
    assert_eq!(decoded.column_families[2].name, "orders");
}

#[test]
fn test_long_column_family_names() {
    let long_name = "a".repeat(200);
    let cf = ColumnFamilyMetadata::new(long_name.clone(), PAGE_SIZE as u64, 1024);
    let header = MasterHeader::with_column_families(vec![cf]);

    let bytes = header.to_bytes().unwrap();
    let decoded = MasterHeader::from_bytes(&bytes).unwrap();

    assert_eq!(decoded.column_families[0].name, long_name);
}

#[test]
fn test_invalid_magic_number() {
    let mut bytes = vec![0u8; PAGE_SIZE];
    bytes[0..8].copy_from_slice(b"badmagic");
    bytes[8] = FORMAT_VERSION;

    let result = MasterHeader::from_bytes(&bytes);
    assert!(result.is_err());
    assert_eq!(result.unwrap_err().kind(), ErrorKind::InvalidData);
}

#[test]
fn test_invalid_version() {
    let mut bytes = vec![0u8; PAGE_SIZE];
    bytes[0..9].copy_from_slice(&MAGIC_NUMBER);
    bytes[9] = 255; // Unsupported version

    let result = MasterHeader::from_bytes(&bytes);
    assert!(result.is_err());
}

#[test]
fn test_too_short_data() {
    let bytes = vec![0u8; 100];
    let result = MasterHeader::from_bytes(&bytes);
    assert!(result.is_err());
    assert_eq!(result.unwrap_err().kind(), ErrorKind::InvalidData);
}

#[test]
fn test_validate_empty_name() {
    let cf = ColumnFamilyMetadata::new(String::new(), PAGE_SIZE as u64, 1024);
    let header = MasterHeader::with_column_families(vec![cf]);

    let result = header.validate();
    assert!(result.is_err());
}

#[test]
fn test_validate_duplicate_names() {
    let cf1 = ColumnFamilyMetadata::new("users".to_string(), PAGE_SIZE as u64, 1024);
    let cf2 = ColumnFamilyMetadata::new("users".to_string(), PAGE_SIZE as u64 + 2048, 1024);
    let header = MasterHeader::with_column_families(vec![cf1, cf2]);

    let result = header.validate();
    assert!(result.is_err());
}

#[test]
fn test_validate_unaligned_offset() {
    let cf = ColumnFamilyMetadata::new("users".to_string(), 1000, 1024);
    let header = MasterHeader::with_column_families(vec![cf]);

    let result = header.validate();
    assert!(result.is_err());
    assert!(result.unwrap_err().message().contains("not page-aligned"));
}

#[test]
fn test_validate_zero_size() {
    let cf = ColumnFamilyMetadata::new("users".to_string(), PAGE_SIZE as u64, 0);
    let header = MasterHeader::with_column_families(vec![cf]);

    let result = header.validate();
    assert!(result.is_err());
    assert!(result.unwrap_err().message().contains("zero size"));
}

#[test]
fn test_validate_overlapping_ranges() {
    let cf1 =
        ColumnFamilyMetadata::new("users".to_string(), PAGE_SIZE as u64, PAGE_SIZE as u64 * 2);
    let cf2 = ColumnFamilyMetadata::new(
        "products".to_string(),
        (PAGE_SIZE * 2) as u64,
        PAGE_SIZE as u64 * 2,
    );
    let header = MasterHeader::with_column_families(vec![cf1, cf2]);

    let result = header.validate();
    assert!(result.is_err());
    let err_msg = result.unwrap_err().message();
    assert!(err_msg.contains("overlap"));
}

#[test]
fn test_validate_adjacent_ranges_ok() {
    let cf1 = ColumnFamilyMetadata::new("users".to_string(), PAGE_SIZE as u64, PAGE_SIZE as u64);
    let cf2 = ColumnFamilyMetadata::new(
        "products".to_string(),
        (PAGE_SIZE * 2) as u64,
        PAGE_SIZE as u64 * 2,
    );
    let header = MasterHeader::with_column_families(vec![cf1, cf2]);

    assert!(header.validate().is_ok());
}

#[test]
fn test_header_too_large() {
    // Create many column families with long names to exceed page size
    let mut cfs = Vec::new();
    for i in 0..100_u64 {
        let name = format!("column_family_with_very_long_name_{i}");
        let offset = PAGE_SIZE as u64 + (i * 1024 * 1024);
        cfs.push(ColumnFamilyMetadata::new(name, offset, 1024 * 1024));
    }

    let header = MasterHeader::with_column_families(cfs);
    let result = header.to_bytes();

    assert!(result.is_err());
}

#[test]
fn test_metadata_serialization() {
    let cf = ColumnFamilyMetadata::new("test".to_string(), 4096, 1024);
    let bytes = cf.to_bytes();

    let (decoded, consumed) = ColumnFamilyMetadata::from_bytes(&bytes).unwrap();
    assert_eq!(decoded, cf);
    assert_eq!(consumed, bytes.len());
}

#[test]
fn test_multi_segment_column_family() {
    let segments = vec![
        Segment::new(PAGE_SIZE as u64, 1024 * 1024),
        Segment::new((PAGE_SIZE as u64) + 2 * 1024 * 1024, 512 * 1024),
        Segment::new((PAGE_SIZE as u64) + 3 * 1024 * 1024, 256 * 1024),
    ];
    let cf = ColumnFamilyMetadata::with_segments("users".to_string(), segments.clone());

    assert_eq!(cf.segments.len(), 3);
    assert_eq!(cf.total_size(), 1024 * 1024 + 512 * 1024 + 256 * 1024);

    let bytes = cf.to_bytes();
    let (decoded, _) = ColumnFamilyMetadata::from_bytes(&bytes).unwrap();
    assert_eq!(decoded.segments, segments);
}

#[test]
fn test_free_segments_serialization() {
    let cf = ColumnFamilyMetadata::new("users".to_string(), PAGE_SIZE as u64, 1024 * 1024);
    let mut header = MasterHeader::with_column_families(vec![cf]);

    header.free_segments = vec![
        FreeSegment::new(PAGE_SIZE as u64 + 2 * 1024 * 1024, 512 * 1024),
        FreeSegment::new(PAGE_SIZE as u64 + 4 * 1024 * 1024, 256 * 1024),
    ];

    let bytes = header.to_bytes().unwrap();
    let decoded = MasterHeader::from_bytes(&bytes).unwrap();

    assert_eq!(decoded.free_segments.len(), 2);
    assert_eq!(decoded.free_segments[0].offset, PAGE_SIZE as u64 + 2 * 1024 * 1024);
    assert_eq!(decoded.free_segments[0].size, 512 * 1024);
    assert_eq!(decoded.free_segments[1].offset, PAGE_SIZE as u64 + 4 * 1024 * 1024);
    assert_eq!(decoded.free_segments[1].size, 256 * 1024);
}

#[test]
fn test_end_of_file_calculation() {
    let mut header = MasterHeader::new();

    // Empty header should return PAGE_SIZE
    assert_eq!(header.end_of_file(), PAGE_SIZE as u64);

    // Add a column family
    let cf1 = ColumnFamilyMetadata::new("users".to_string(), PAGE_SIZE as u64, 1024 * 1024);
    header.column_families.push(cf1);
    assert_eq!(header.end_of_file(), PAGE_SIZE as u64 + 1024 * 1024);

    // Add another column family with multiple segments
    let cf2 = ColumnFamilyMetadata::with_segments(
        "products".to_string(),
        vec![
            Segment::new(PAGE_SIZE as u64 + 2 * 1024 * 1024, 512 * 1024),
            Segment::new(PAGE_SIZE as u64 + 4 * 1024 * 1024, 256 * 1024),
        ],
    );
    header.column_families.push(cf2);
    assert_eq!(header.end_of_file(), PAGE_SIZE as u64 + 4 * 1024 * 1024 + 256 * 1024);

    // Add a free segment beyond current EOF
    header
        .free_segments
        .push(FreeSegment::new(PAGE_SIZE as u64 + 6 * 1024 * 1024, 128 * 1024));
    assert_eq!(header.end_of_file(), PAGE_SIZE as u64 + 6 * 1024 * 1024 + 128 * 1024);
}

#[test]
fn test_segment_overlap_detection() {
    let cf1 = ColumnFamilyMetadata::with_segments(
        "users".to_string(),
        vec![Segment::new(PAGE_SIZE as u64, 1024 * 1024)],
    );
    let cf2 = ColumnFamilyMetadata::with_segments(
        "products".to_string(),
        vec![Segment::new(PAGE_SIZE as u64 + 512 * 1024, 1024 * 1024)],
    );

    let header = MasterHeader::with_column_families(vec![cf1, cf2]);
    let result = header.validate();

    assert!(result.is_err());
    assert!(result.unwrap_err().message().contains("overlap"));
}

#[test]
fn test_free_segment_validation() {
    let cf = ColumnFamilyMetadata::new("users".to_string(), PAGE_SIZE as u64, 1024 * 1024);
    let mut header = MasterHeader::with_column_families(vec![cf]);

    // Test unaligned free segment
    header.free_segments.push(FreeSegment::new(1000, 1024));
    assert!(header.validate().is_err());

    // Test zero-size free segment
    header.free_segments.clear();
    header.free_segments.push(FreeSegment::new(PAGE_SIZE as u64, 0));
    assert!(header.validate().is_err());
}

#[test]
fn test_segment_end() {
    let segment = Segment::new(4096, 1024);
    assert_eq!(segment.end(), 5120);
}

// Further cases of the header format and its checks.

#[test]
fn test_header_error_messages() {
    let err = HeaderError::UnalignedSegment { name: "users".to_string(), offset: 1000 };
    assert_eq!(err.message(), "column family 'users' segment offset 1000 is not page-aligned");
    let err = HeaderError::ChecksumMismatch { stored: 0xdead, computed: 0 };
    assert_eq!(err.message(), "header checksum mismatch: expected 0xdead, got 0x0");
    let err = HeaderError::TooLarge { size: 5000 };
    assert_eq!(
        err.message(),
        "master header size (5000 bytes) exceeds page size minus CRC (4092 bytes)"
    );
    assert_eq!(err.kind(), ErrorKind::InvalidInput);
    let err = HeaderError::Overlap { first: "a".to_string(), second: "free#0".to_string() };
    assert_eq!(err.message(), "segments 'a' and 'free#0' overlap");
}

#[test]
fn test_checksum_mismatch_detected() {
    let cf = ColumnFamilyMetadata::new("users".to_string(), PAGE_SIZE as u64, 1024 * 1024);
    let header = MasterHeader::with_column_families(vec![cf]);
    let mut bytes = header.to_bytes().unwrap();
    bytes[20] ^= 0xff;
    match MasterHeader::from_bytes(&bytes) {
        Err(HeaderError::ChecksumMismatch { stored, computed }) => assert_ne!(stored, computed),
        other => panic!("expected a checksum mismatch, got {other:?}"),
    }
}

#[test]
fn test_first_failing_check_is_reported() {
    // The empty name of the first column family is found before the overlap.
    let cf1 = ColumnFamilyMetadata::new(String::new(), PAGE_SIZE as u64, PAGE_SIZE as u64 * 2);
    let cf2 = ColumnFamilyMetadata::new("b".to_string(), PAGE_SIZE as u64, PAGE_SIZE as u64);
    let header = MasterHeader::with_column_families(vec![cf1, cf2]);
    assert_eq!(header.validate(), Err(HeaderError::EmptyName));

    // An overlap between a column family and a free segment names the free segment.
    let cf = ColumnFamilyMetadata::new("users".to_string(), PAGE_SIZE as u64, PAGE_SIZE as u64 * 2);
    let mut header = MasterHeader::with_column_families(vec![cf]);
    header.free_segments.push(FreeSegment::new(PAGE_SIZE as u64 * 2, PAGE_SIZE as u64));
    assert_eq!(
        header.validate(),
        Err(HeaderError::Overlap { first: "users".to_string(), second: "free#0".to_string() })
    );
}

#[test]
fn test_decoded_header_with_duplicate_names_is_refused() {
    let cf1 = ColumnFamilyMetadata::new("x".to_string(), PAGE_SIZE as u64, 4096);
    let cf2 = ColumnFamilyMetadata::new("x".to_string(), PAGE_SIZE as u64 * 2, 4096);
    let header = MasterHeader::with_column_families(vec![cf1, cf2]);
    let bytes = header.to_bytes().unwrap();
    assert_eq!(
        MasterHeader::from_bytes(&bytes),
        Err(HeaderError::DuplicateName { name: "x".to_string() })
    );
}

#[test]
fn test_from_bytes_checked_compares_given_checksum() {
    let bytes = MasterHeader::new().to_bytes().unwrap();
    let stored = u32::from_le_bytes([
        bytes[PAGE_SIZE - 4],
        bytes[PAGE_SIZE - 3],
        bytes[PAGE_SIZE - 2],
        bytes[PAGE_SIZE - 1],
    ]);
    assert!(MasterHeader::from_bytes_checked(&bytes, stored).is_ok());
    let other = stored ^ 1;
    assert_eq!(
        MasterHeader::from_bytes_checked(&bytes, other).err(),
        Some(HeaderError::ChecksumMismatch { stored, computed: other })
    );
}

#[test]
fn test_invalid_utf8_name_message() {
    let metadata = ColumnFamilyMetadata::new("abc".to_string(), PAGE_SIZE as u64, PAGE_SIZE as u64);
    let mut bytes = metadata.to_bytes();
    bytes[5] = 0xFF;
    let err = ColumnFamilyMetadata::from_bytes(&bytes).unwrap_err();
    assert_eq!(err, HeaderError::InvalidUtf8 { valid_up_to: 1, error_len: Some(1) });
    assert_eq!(err.kind(), ErrorKind::InvalidData);
    assert_eq!(err.message(), "invalid UTF-8 in column family name: invalid utf-8 sequence of 1 bytes from index 1");
    bytes[5] = b'b';
    bytes[6] = 0xF0;
    let err = ColumnFamilyMetadata::from_bytes(&bytes).unwrap_err();
    assert_eq!(err.message(), "invalid UTF-8 in column family name: incomplete utf-8 byte sequence from index 2");
}
