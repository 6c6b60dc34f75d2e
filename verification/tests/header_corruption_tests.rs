use manifold::backend::{StorageBackend, StorageError};
use manifold::database::{ColumnFamilyDatabase, DatabaseError};
use std::collections::BTreeMap;

/// Storage that keeps only the bytes written, so that large files cost nothing.
#[derive(Default)]
struct SparseBackend {
    len: u64,
    bytes: BTreeMap<u64, u8>,
    fail_writes: bool,
}

impl StorageBackend for SparseBackend {
    fn len(&self) -> Result<u64, StorageError> {
        Ok(self.len)
    }

    fn read(&self, offset: u64, out: &mut [u8]) -> Result<(), StorageError> {
        if offset + out.len() as u64 > self.len {
            return Err(StorageError::OutOfRange { offset, len: out.len() as u64, size: self.len });
        }
        for (i, b) in out.iter_mut().enumerate() {
            *b = *self.bytes.get(&(offset + i as u64)).unwrap_or(&0);
        }
        Ok(())
    }

    fn set_len(&mut self, len: u64) -> Result<(), StorageError> {
        self.bytes.retain(|k, _| *k < len);
        self.len = len;
        Ok(())
    }

    fn sync_data(&self) -> Result<(), StorageError> {
        Ok(())
    }

    fn write(&mut self, offset: u64, data: &[u8]) -> Result<(), StorageError> {
        if self.fail_writes {
            return Err(StorageError::Device { kind: manifold::header::ErrorKind::InvalidData });
        }
        for (i, b) in data.iter().enumerate() {
            self.bytes.insert(offset + i as u64, *b);
        }
        self.len = self.len.max(offset + data.len() as u64);
        Ok(())
    }

    fn close(&self) -> Result<(), StorageError> {
        Ok(())
    }
}


type Db = ColumnFamilyDatabase<SparseBackend, ()>;

/// A database with the given column families (default size), closed.
fn file_with(cfs: &[&str]) -> SparseBackend {
    let mut db: Db = ColumnFamilyDatabase::open_with_backend(SparseBackend::default()).unwrap();
    for cf in cfs {
        db.create_column_family(cf, None).unwrap();
    }
    db.into_backend()
}

fn reopen(backend: SparseBackend) -> Result<Db, DatabaseError> {
    ColumnFamilyDatabase::open_with_backend(backend)
}

#[test]
fn test_corrupted_magic_number() {
    let mut file = file_with(&["test_cf"]);
    file.write(0, b"CORRUPTED").unwrap();
    let result = reopen(file);
    assert!(result.is_err(), "Should detect corrupted magic number");
    let error_msg = result.err().unwrap().message();
    assert!(
        error_msg.contains("magic") || error_msg.contains("Magic"),
        "Error should mention magic number: {}",
        error_msg
    );
}

#[test]
fn test_corrupted_header_crc() {
    let mut file = file_with(&["test_cf"]);
    file.write(9, &[0xFF]).unwrap();
    let result = reopen(file);
    assert!(result.is_err(), "Should detect header CRC corruption");
    let error_msg = result.err().unwrap().message();
    assert!(
        error_msg.contains("checksum") || error_msg.contains("CRC") || error_msg.contains("corrupt"),
        "Error should mention corruption: {}",
        error_msg
    );
}

#[test]
fn test_truncated_header() {
    let mut file = file_with(&["test_cf"]);
    file.set_len(100).unwrap();
    let result = reopen(file);
    assert!(result.is_err(), "Should detect truncated header");
    let error_msg = result.err().unwrap().message();
    assert!(!error_msg.is_empty(), "Error should have meaningful message");
}

#[test]
fn test_random_byte_corruption() {
    let mut file = file_with(&["cf1", "cf2"]);
    file.write(500, &[0xDE, 0xAD, 0xBE, 0xEF]).unwrap();
    let result = reopen(file);
    assert!(result.is_err(), "Should detect random corruption");
}

#[test]
fn test_corrupted_cf_name_invalid_utf8() {
    let mut file = file_with(&["test_cf"]);
    file.write(18, &[0xFF, 0xFE, 0xFD]).unwrap();
    let result = reopen(file);
    assert!(result.is_err(), "Should detect corrupted CF name");
}

#[test]
fn test_overlapping_segments_detection() {
    let mut db: Db = ColumnFamilyDatabase::open_with_backend(SparseBackend::default()).unwrap();
    db.create_column_family("cf1", Some(1024 * 1024)).unwrap();
    // The header the database writes has no overlapping segments, so it reopens.
    assert!(reopen(db.into_backend()).is_ok());
}

#[test]
fn test_corruption_error_messages_are_clear() {
    let mut file = file_with(&["important_data"]);
    file.write(100, &[0xAA; 50]).unwrap();
    match reopen(file) {
        Err(e) => {
            let error_msg = e.message();
            assert!(!error_msg.is_empty());
            assert!(
                error_msg.contains("corrupt")
                    || error_msg.contains("invalid")
                    || error_msg.contains("checksum")
                    || error_msg.contains("CRC"),
                "Error should indicate corruption: {}",
                error_msg
            );
        }
        Ok(_) => panic!("Should have detected corruption"),
    }
}

#[test]
fn test_unsupported_version_error() {
    let mut file = file_with(&["test_cf"]);
    file.write(9, &[99]).unwrap();
    let result = reopen(file);
    assert!(result.is_err(), "Should reject unsupported version");
}

#[test]
fn test_data_survives_header_corruption() {
    let mut file = file_with(&["test_cf"]);
    file.write(200, &[0xBB; 20]).unwrap();
    let result = reopen(file);
    assert!(result.is_err(), "Should detect header corruption");
}

#[test]
fn test_recover_by_recreating() {
    let mut file = file_with(&["test_cf"]);
    file.write(0, &[0xFF; 4096]).unwrap();
    assert!(reopen(file).is_err());
    // A new, empty file gives a new database.
    let mut db: Db = ColumnFamilyDatabase::open_with_backend(SparseBackend::default()).unwrap();
    db.create_column_family("new_cf", None).unwrap();
    assert_eq!(db.list_column_families().len(), 1);
}

#[test]
fn test_zero_length_file() {
    let result = reopen(SparseBackend::default());
    assert!(result.is_ok(), "Empty file should be treated as new database");
}

#[test]
fn test_partial_header_only_magic() {
    let mut file = SparseBackend::default();
    file.write(0, b"mnfd-cf\x1A\x0A").unwrap();
    let result = reopen(file);
    assert!(result.is_err(), "Should detect incomplete header");
}
