use manifold::backend::{InMemoryBackend, StorageBackend, StorageError};
use manifold::wal::async_journal::{AsyncWALJournal, LogError};
use manifold::wal::entry::{Durability, WALEntry, WALTransactionPayload, WalError};
use manifold::wal::journal::WAL_HEADER_SIZE;

/// Storage that grows on writes past its end, as a file does.
#[derive(Default)]
struct GrowingBackend {
    bytes: Vec<u8>,
    syncs: usize,
}

impl StorageBackend for GrowingBackend {
    fn len(&self) -> Result<u64, StorageError> {
        Ok(self.bytes.len() as u64)
    }

    fn read(&self, offset: u64, out: &mut [u8]) -> Result<(), StorageError> {
        let start = offset as usize;
        if start + out.len() > self.bytes.len() {
            return Err(StorageError::OutOfRange {
                offset,
                len: out.len() as u64,
                size: self.bytes.len() as u64,
            });
        }
        out.copy_from_slice(&self.bytes[start..start + out.len()]);
        Ok(())
    }

    fn set_len(&mut self, len: u64) -> Result<(), StorageError> {
        self.bytes.resize(len as usize, 0);
        Ok(())
    }

    fn sync_data(&self) -> Result<(), StorageError> {
        Ok(())
    }

    fn write(&mut self, offset: u64, data: &[u8]) -> Result<(), StorageError> {
        let start = offset as usize;
        if self.bytes.len() < start + data.len() {
            self.bytes.resize(start + data.len(), 0);
        }
        self.bytes[start..start + data.len()].copy_from_slice(data);
        self.syncs += 0;
        Ok(())
    }

    fn close(&self) -> Result<(), StorageError> {
        Ok(())
    }
}

fn payload() -> WALTransactionPayload {
    WALTransactionPayload {
        user_root: None,
        system_root: None,
        freed_pages: vec![],
        allocated_pages: vec![],
        durability: Durability::Immediate,
    }
}

#[test]
fn test_async_journal_create() {
    let backend = InMemoryBackend::new();
    let journal = AsyncWALJournal::new(backend).unwrap();

    assert_eq!(journal.last_synced_sequence(), 0);
}

#[test]
fn test_async_append_and_sync() {
    let backend = InMemoryBackend::new();
    let mut journal = AsyncWALJournal::new(backend).unwrap();

    let mut entry = WALEntry::new("test_cf".to_string(), 1, payload());
    let seq = journal.append(&mut entry).unwrap();

    assert_eq!(seq, 1);

    // The background sync makes it durable.
    assert!(!journal.is_synced(seq));
    journal.sync_now().unwrap();
    assert!(journal.is_synced(seq));

    assert!(journal.last_synced_sequence() >= seq);
}

#[test]
fn test_async_multiple_appends() {
    let backend = InMemoryBackend::new();
    let mut journal = AsyncWALJournal::new(backend).unwrap();

    let mut sequences = vec![];

    // Append multiple entries
    for i in 0..10 {
        let mut entry = WALEntry::new(format!("cf_{}", i), i as u64, payload());
        let seq = journal.append(&mut entry).unwrap();
        sequences.push(seq);
    }

    // One sync covers them all.
    journal.sync_now().unwrap();
    for seq in sequences {
        assert!(journal.is_synced(seq));
    }

    assert_eq!(journal.last_synced_sequence(), 10);
}

#[test]
fn test_async_shutdown() {
    let backend = InMemoryBackend::new();
    let journal = AsyncWALJournal::new(backend).unwrap();

    // Shutdown should complete without hanging
    let (_, result) = journal.shutdown();
    result.unwrap();
}

// Further cases.

#[test]
fn test_async_log_reopens_and_reads() {
    let mut journal = AsyncWALJournal::new(GrowingBackend::default()).unwrap();
    for i in 0..3 {
        let mut entry = WALEntry::new(format!("cf_{i}"), i, payload());
        journal.append(&mut entry).unwrap();
    }
    assert_eq!(journal.file_size().unwrap() as usize > WAL_HEADER_SIZE, true);
    // The header's latest sequence is not advanced by appends, so reads from 1 see
    // nothing until the header says so.
    assert_eq!(journal.read_from(1).unwrap().len(), 0);
    assert_eq!(journal.read_from(0).unwrap().len(), 3);
    journal.truncate(2).unwrap();
    // Entries before the new oldest sequence number are no longer read back.
    let left = journal.read_from(0).unwrap();
    assert_eq!(left.iter().map(|e| e.sequence).collect::<Vec<_>>(), vec![2, 3]);
    let (backend, _) = journal.shutdown();
    let reopened = AsyncWALJournal::new(backend).unwrap();
    assert_eq!(reopened.last_synced_sequence(), 0);
}

#[test]
fn test_async_log_bad_header() {
    let mut backend = GrowingBackend::default();
    backend.write(0, &vec![7u8; WAL_HEADER_SIZE]).unwrap();
    match AsyncWALJournal::new(backend) {
        Err(LogError::Wal(WalError::BadMagic)) => {}
        _ => panic!("expected a bad magic number"),
    }
}
