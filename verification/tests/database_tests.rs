use manifold::backend::{InMemoryBackend, StorageBackend, StorageError};
use manifold::database::{ColumnFamilyDatabase, ColumnFamilyError, DatabaseError};
use manifold::header::{FreeSegment, HeaderError, MasterHeader, Segment, PAGE_SIZE};
use std::collections::BTreeMap;

/// Storage that keeps only the bytes written, so that large files cost nothing.
#[derive(Default)]
struct SparseBackend {
    len: u64,
    bytes: BTreeMap<u64, u8>,
    fail_writes: bool,
}

impl StorageBackend for SparseBackend {
    fn len(&self) -> Result<u64, StorageError> {
        Ok(self.len)
    }

    fn read(&self, offset: u64, out: &mut [u8]) -> Result<(), StorageError> {
        if offset + out.len() as u64 > self.len {
            return Err(StorageError::OutOfRange { offset, len: out.len() as u64, size: self.len });
        }
        for (i, b) in out.iter_mut().enumerate() {
            *b = *self.bytes.get(&(offset + i as u64)).unwrap_or(&0);
        }
        Ok(())
    }

    fn set_len(&mut self, len: u64) -> Result<(), StorageError> {
        self.bytes.retain(|k, _| *k < len);
        self.len = len;
        Ok(())
    }

    fn sync_data(&self) -> Result<(), StorageError> {
        Ok(())
    }

    fn write(&mut self, offset: u64, data: &[u8]) -> Result<(), StorageError> {
        if self.fail_writes {
            return Err(StorageError::Device { kind: manifold::header::ErrorKind::InvalidData });
        }
        for (i, b) in data.iter().enumerate() {
            self.bytes.insert(offset + i as u64, *b);
        }
        self.len = self.len.max(offset + data.len() as u64);
        Ok(())
    }

    fn close(&self) -> Result<(), StorageError> {
        Ok(())
    }
}

fn open_new() -> ColumnFamilyDatabase<SparseBackend, ()> {
    ColumnFamilyDatabase::open_with_backend(SparseBackend::default()).unwrap()
}

#[test]
fn test_create_and_list_column_families() {
    let mut db = open_new();

    assert_eq!(db.list_column_families().len(), 0);

    db.create_column_family("cf1", Some(10 * 1024 * 1024)).unwrap();
    db.create_column_family("cf2", Some(20 * 1024 * 1024)).unwrap();
    db.create_column_family("cf3", Some(30 * 1024 * 1024)).unwrap();

    let families = db.list_column_families();
    assert_eq!(families.len(), 3);
    assert!(families.contains(&"cf1".to_string()));
    assert!(families.contains(&"cf2".to_string()));
    assert!(families.contains(&"cf3".to_string()));
}

#[test]
fn test_duplicate_column_family_name_fails() {
    let mut db = open_new();

    db.create_column_family("duplicate", None).unwrap();
    let result = db.create_column_family("duplicate", None);

    assert!(matches!(result, Err(ColumnFamilyError::AlreadyExists(_))));
}

#[test]
fn test_get_nonexistent_column_family_fails() {
    let db = open_new();

    let result = db.column_family("nonexistent");
    assert!(matches!(result, Err(ColumnFamilyError::NotFound(_))));
}

// Further cases of the catalog.

#[test]
fn test_new_file_gets_empty_header() {
    let db = open_new();
    let backend = db.into_backend();
    assert_eq!(backend.len, PAGE_SIZE as u64);
    let mut page = vec![0u8; PAGE_SIZE];
    backend.read(0, &mut page).unwrap();
    assert_eq!(MasterHeader::from_bytes(&page).unwrap(), MasterHeader::new());
}

#[test]
fn test_catalog_survives_reopen() {
    let mut db = open_new();
    db.create_column_family("persistent1", Some(50 * 1024 * 1024)).unwrap();
    db.create_column_family("persistent2", Some(100 * 1024 * 1024)).unwrap();
    let backend = db.into_backend();
    assert_eq!(backend.len, 4096 + 150 * 1024 * 1024);

    let db: ColumnFamilyDatabase<SparseBackend, ()> = ColumnFamilyDatabase::open_with_backend(backend).unwrap();
    let families = db.list_column_families();
    assert_eq!(families, vec!["persistent1".to_string(), "persistent2".to_string()]);
    assert_eq!(db.column_family("persistent2").unwrap().name(), "persistent2");
    assert_eq!(
        db.header().column_families[1].segments,
        vec![Segment::new(4096 + 50 * 1024 * 1024, 100 * 1024 * 1024)]
    );
}

#[test]
fn test_delete_frees_segments_and_name() {
    let mut db = open_new();
    db.create_column_family("temp", Some(8192)).unwrap();
    db.create_column_family("keep", Some(4096)).unwrap();
    db.delete_column_family("temp").unwrap();
    assert!(db.column_family("temp").is_err());
    assert_eq!(db.list_column_families(), vec!["keep".to_string()]);
    assert_eq!(db.header().free_segments, vec![FreeSegment::new(4096, 8192)]);

    // A new column family goes to the end of the file, not into the free space.
    db.create_column_family("temp", Some(4096)).unwrap();
    assert_eq!(db.header().column_families[1].segments, vec![Segment::new(16384, 4096)]);

    // Deleting again is refused.
    db.delete_column_family("keep").unwrap();
    assert!(matches!(db.delete_column_family("keep"), Err(ColumnFamilyError::NotFound(n)) if n == "keep"));

    // The header on disk lists what is left.
    let backend = db.into_backend();
    let mut page = vec![0u8; PAGE_SIZE];
    backend.read(0, &mut page).unwrap();
    let header = MasterHeader::from_bytes(&page).unwrap();
    assert_eq!(header.column_families.len(), 1);
    assert_eq!(header.free_segments.len(), 2);
}

#[test]
fn test_allocation_best_fit_and_end_of_file() {
    let mut db = open_new();
    db.create_column_family("a", Some(4096)).unwrap();
    db.create_column_family("b", Some(3 * 4096)).unwrap();
    db.create_column_family("c", Some(2 * 4096)).unwrap();
    db.create_column_family("grow", Some(4096)).unwrap();
    db.delete_column_family("b").unwrap();
    db.delete_column_family("c").unwrap();
    // Free: [8192, +12288) and [20480, +8192); the smaller one that fits is taken.
    let seg = db.allocate_segment("grow", 4096).unwrap();
    assert_eq!(seg, Segment::new(20480, 4096));
    assert_eq!(
        db.header().free_segments,
        vec![FreeSegment::new(8192, 3 * 4096), FreeSegment::new(24576, 4096)]
    );
    // Nothing fits 5 pages: a new segment at the end of the file, page-aligned.
    let seg = db.allocate_segment("grow", 5 * 4096 + 1).unwrap();
    assert_eq!(seg, Segment::new(32768, 5 * 4096 + 1));
    let seg = db.allocate_segment("grow", 10).unwrap();
    assert_eq!(seg, Segment::new(24576, 10));
    assert_eq!(
        db.header().column_families[1].segments,
        vec![
            Segment::new(28672, 4096),
            Segment::new(20480, 4096),
            Segment::new(32768, 5 * 4096 + 1),
            Segment::new(24576, 10)
        ]
    );
    // The next allocation at the end starts on the next page boundary.
    let seg = db.allocate_segment("grow", 100000).unwrap();
    assert_eq!(seg.offset, 32768 + 6 * 4096);
}

#[test]
fn test_column_family_or_create() {
    let mut db = open_new();
    let cf = db.column_family_or_create("users").unwrap();
    assert_eq!(cf.name(), "users");
    let cf = db.column_family_or_create("users").unwrap();
    assert_eq!(cf.name(), "users");
    assert_eq!(db.list_column_families().len(), 1);
    assert_eq!(db.header().column_families[0].segments, vec![Segment::new(4096, 1024 * 1024 * 1024)]);
}

#[test]
fn test_header_too_large_keeps_column_family_in_header() {
    let mut db = open_new();
    let mut created = 0;
    let err = loop {
        let name = format!("column_family_with_a_rather_long_name_{created:04}");
        match db.create_column_family(&name, Some(4096)) {
            Ok(_) => created += 1,
            Err(e) => break e,
        }
    };
    match err {
        ColumnFamilyError::Io(e) => {
            assert!(matches!(e, StorageError::HeaderTooLarge { .. }));
            assert_eq!(e.kind(), manifold::header::ErrorKind::InvalidInput);
            assert!(e.message().contains("exceeds page size"));
        }
        other => panic!("expected an I/O error, got {:?}", other),
    }
    // The refused column family stays in the header held in memory, without a state.
    assert_eq!(db.list_column_families().len(), created + 1);
    assert!(db.column_family(&format!("column_family_with_a_rather_long_name_{created:04}")).is_err());
}

#[test]
fn test_corrupt_header_is_reported() {
    let mut backend = SparseBackend::default();
    backend.set_len(PAGE_SIZE as u64).unwrap();
    backend.write(0, b"not a header").unwrap();
    let r: Result<ColumnFamilyDatabase<SparseBackend, ()>, DatabaseError> =
        ColumnFamilyDatabase::open_with_backend(backend);
    assert!(matches!(r, Err(DatabaseError::Header(HeaderError::BadMagic))));

    let mut short = SparseBackend::default();
    short.set_len(100).unwrap();
    let r: Result<ColumnFamilyDatabase<SparseBackend, ()>, DatabaseError> =
        ColumnFamilyDatabase::open_with_backend(short);
    assert!(matches!(r, Err(DatabaseError::Storage(_))));
}

#[test]
fn test_failed_header_write_is_reported() {
    let mut db = open_new();
    let mut backend = db.into_backend();
    backend.fail_writes = true;
    db = ColumnFamilyDatabase::open_with_backend(backend).unwrap();
    let r = db.create_column_family("x", Some(4096));
    assert!(matches!(r, Err(ColumnFamilyError::Io(_))));
    assert!(db.column_family("x").is_err());
}

/// Every byte range the header describes, column-family segments and free segments.
fn pieces(db: &ColumnFamilyDatabase<SparseBackend, ()>) -> Vec<(u64, u64)> {
    let h = db.header();
    let mut v: Vec<(u64, u64)> = Vec::new();
    for cf in &h.column_families {
        for s in &cf.segments {
            v.push((s.offset, s.offset + s.size));
        }
    }
    for f in &h.free_segments {
        v.push((f.offset, f.offset + f.size));
    }
    v
}

fn assert_disjoint(db: &ColumnFamilyDatabase<SparseBackend, ()>) {
    let v = pieces(db);
    for i in 0..v.len() {
        for j in 0..v.len() {
            if i != j {
                let (a, b) = (v[i], v[j]);
                assert!(!(a.0 < b.1 && b.0 < a.1), "{:?} overlaps {:?}", a, b);
            }
        }
    }
}

#[test]
fn test_layout_stays_disjoint() {
    let mut db = open_new();
    assert_disjoint(&db);
    db.create_column_family("a", Some(3 * 4096)).unwrap();
    db.create_column_family("b", Some(5000)).unwrap();
    db.create_column_family("c", Some(2 * 4096)).unwrap();
    assert_disjoint(&db);
    db.delete_column_family("a").unwrap();
    assert_disjoint(&db);
    db.allocate_segment("c", 4096).unwrap();
    assert_disjoint(&db);
    db.allocate_segment("b", 100).unwrap();
    assert_disjoint(&db);
    db.allocate_segment("c", 9000).unwrap();
    assert_disjoint(&db);
    db.delete_column_family("b").unwrap();
    db.create_column_family("d", Some(4096)).unwrap();
    assert_disjoint(&db);
    assert_eq!(pieces(&db).len(), 7);
}

#[test]
fn test_create_and_delete_report_only_their_own_errors() {
    let mut db = open_new();
    // A new name is created, an existing one refused.
    assert!(db.create_column_family("a", Some(4096)).is_ok());
    assert!(matches!(db.create_column_family("a", Some(4096)), Err(ColumnFamilyError::AlreadyExists(n)) if n == "a"));
    // Deleting an existing name succeeds, a missing one is not found.
    assert_eq!(db.delete_column_family("a"), Ok(()));
    assert!(matches!(db.delete_column_family("a"), Err(ColumnFamilyError::NotFound(n)) if n == "a"));
}

#[test]
fn test_load_header_leaves_an_unreadable_file_as_it_was() {
    let mut backend = SparseBackend::default();
    backend.set_len(PAGE_SIZE as u64).unwrap();
    backend.write(0, b"not a header").unwrap();
    let before: Vec<(u64, u8)> = backend.bytes.iter().map(|(k, v)| (*k, *v)).collect();
    let r = ColumnFamilyDatabase::<SparseBackend, ()>::load_header(&mut backend);
    assert!(matches!(r, Err(DatabaseError::Header(HeaderError::BadMagic))));
    let after: Vec<(u64, u8)> = backend.bytes.iter().map(|(k, v)| (*k, *v)).collect();
    assert_eq!(before, after);
    assert_eq!(backend.len, PAGE_SIZE as u64);
}

#[test]
fn test_page_sized_creations_reopen_with_every_name() {
    let mut db = open_new();
    db.create_column_family("a", Some(PAGE_SIZE as u64)).unwrap();
    db.create_column_family("b", Some(3 * PAGE_SIZE as u64)).unwrap();
    db.create_column_family("c", Some(PAGE_SIZE as u64)).unwrap();
    let backend = db.into_backend();
    let reopened: ColumnFamilyDatabase<SparseBackend, ()> = ColumnFamilyDatabase::open_with_backend(backend).unwrap();
    assert_eq!(reopened.list_column_families(), vec!["a".to_string(), "b".to_string(), "c".to_string()]);
}

#[test]
fn test_in_memory_database_opens_creates_and_deletes() {
    let mut db: ColumnFamilyDatabase<InMemoryBackend, ()> =
        ColumnFamilyDatabase::open_with_backend(InMemoryBackend::new()).unwrap();
    assert_eq!(db.into_backend().len().unwrap(), PAGE_SIZE as u64);
    db = ColumnFamilyDatabase::open_with_backend(InMemoryBackend::new()).unwrap();
    db.create_column_family("users", Some(2 * PAGE_SIZE as u64)).unwrap();
    db.create_column_family("posts", Some(PAGE_SIZE as u64)).unwrap();
    db.delete_column_family("users").unwrap();
    assert_eq!(db.list_column_families(), vec!["posts".to_string()]);
    let backend = db.into_backend();
    assert_eq!(backend.len().unwrap(), 4 * PAGE_SIZE as u64);
    let reopened: ColumnFamilyDatabase<InMemoryBackend, ()> = ColumnFamilyDatabase::open_with_backend(backend).unwrap();
    assert_eq!(reopened.list_column_families(), vec!["posts".to_string()]);
}
