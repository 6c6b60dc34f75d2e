use manifold::wal::entry::{Durability, WALEntry, WALTransactionPayload, WalError};
use manifold::wal::journal::{
    decode_record, WALHeader, WALJournal, WALRecovery, WAL_HEADER_SIZE, WAL_MAGIC, WAL_VERSION,
};

/// A log file held in memory, updated the way the file would be.
struct LogFile {
    bytes: Vec<u8>,
    journal: WALJournal,
}

impl LogFile {
    fn open(bytes: Vec<u8>) -> LogFile {
        let (journal, header) = WALJournal::open(&bytes).unwrap();
        let bytes = match header {
            Some(h) => h,
            None => bytes,
        };
        LogFile { bytes, journal }
    }

    fn append(&mut self, entry: &mut WALEntry) -> u64 {
        let (seq, record) = self.journal.append(entry);
        self.bytes.extend_from_slice(&record);
        let header =
            WALJournal::update_header_latest_seq(&self.bytes[..WAL_HEADER_SIZE], seq).unwrap();
        self.bytes[..WAL_HEADER_SIZE].copy_from_slice(&header);
        seq
    }

    fn truncate(&mut self, new_oldest_seq: u64) {
        let header = self.journal.truncate(new_oldest_seq);
        self.bytes = header;
    }

    fn read_from(&self, start_seq: u64) -> Vec<WALEntry> {
        WALJournal::read_from(&self.bytes, start_seq).unwrap()
    }

    fn read_header(&self) -> WALHeader {
        WALJournal::read_header(&self.bytes).unwrap()
    }
}

fn empty_payload() -> WALTransactionPayload {
    WALTransactionPayload {
        user_root: None,
        system_root: None,
        freed_pages: vec![],
        allocated_pages: vec![],
        durability: Durability::Immediate,
    }
}

#[test]
fn test_wal_create_and_open() {
    // Create new WAL
    let wal = LogFile::open(Vec::new());
    let header = wal.read_header();
    assert_eq!(&wal.bytes[0..8], &WAL_MAGIC);
    assert_eq!(wal.bytes[8], WAL_VERSION);
    assert_eq!(header.oldest_seq, 0);
    assert_eq!(header.latest_seq, 0);
}

#[test]
fn test_wal_append_and_read() {
    let mut wal = LogFile::open(Vec::new());

    let mut entry = WALEntry::new("test_cf".to_string(), 1, empty_payload());

    // Append entry
    let seq = wal.append(&mut entry);
    assert_eq!(seq, 1);
    assert_eq!(entry.sequence, 1);

    // Read back
    let entries = wal.read_from(1);
    assert_eq!(entries.len(), 1);
    assert_eq!(entries[0].sequence, 1);
    assert_eq!(entries[0].cf_name, "test_cf");
    assert_eq!(entries[0].transaction_id, 1);
}

#[test]
fn test_wal_multiple_entries() {
    let mut wal = LogFile::open(Vec::new());

    // Append multiple entries
    for i in 0..10 {
        let mut entry = WALEntry::new(format!("cf_{i}"), i, empty_payload());
        wal.append(&mut entry);
    }

    // Read all entries
    let entries = wal.read_from(1);
    assert_eq!(entries.len(), 10);

    // Read from middle
    let entries = wal.read_from(5);
    assert_eq!(entries.len(), 6); // Entries 5-10
    assert_eq!(entries[0].sequence, 5);
}

#[test]
fn test_wal_truncate() {
    let mut wal = LogFile::open(Vec::new());

    // Append entries
    for i in 0..5 {
        let mut entry = WALEntry::new(format!("cf_{i}"), i, empty_payload());
        wal.append(&mut entry);
    }

    // Truncate
    wal.truncate(6);

    // Read should return empty
    let entries = wal.read_from(6);
    assert_eq!(entries.len(), 0);

    // Header should reflect truncation
    let header = wal.read_header();
    assert_eq!(header.oldest_seq, 6);
    assert_eq!(header.latest_seq, 5); // No new entries yet

    // Append new entry should start from sequence 6
    let mut entry = WALEntry::new("cf_new".to_string(), 100, empty_payload());
    let seq = wal.append(&mut entry);
    assert_eq!(seq, 6);
}

#[test]
fn test_wal_persistence() {
    // Create WAL and append entries
    let bytes = {
        let mut wal = LogFile::open(Vec::new());
        for i in 0..3 {
            let mut entry = WALEntry::new(format!("cf_{i}"), i, empty_payload());
            wal.append(&mut entry);
        }
        wal.bytes
    };

    // Reopen and verify entries persisted
    let wal = LogFile::open(bytes);
    let entries = wal.read_from(1);
    assert_eq!(entries.len(), 3);
    assert_eq!(entries[0].sequence, 1);
    assert_eq!(entries[2].sequence, 3);
}

#[test]
fn test_recovery_empty_wal() {
    let wal = LogFile::open(Vec::new());

    let recovery = WALRecovery::new(wal.bytes.clone());
    let count = recovery.recover().unwrap();

    assert_eq!(count, 0);
}

#[test]
fn test_recovery_with_entries() {
    let mut wal = LogFile::open(Vec::new());

    // Write some entries
    for i in 0..5 {
        let mut entry = WALEntry::new(format!("cf_{i}"), i, empty_payload());
        wal.append(&mut entry);
    }

    // Recovery should find all entries
    let recovery = WALRecovery::new(wal.bytes.clone());
    let count = recovery.recover().unwrap();

    assert_eq!(count, 5);
}

#[test]
fn test_get_entries() {
    let mut wal = LogFile::open(Vec::new());

    // Write entries
    for i in 0..3 {
        let mut entry = WALEntry::new(format!("test_{i}"), i, empty_payload());
        wal.append(&mut entry);
    }

    // Get entries
    let recovery = WALRecovery::new(wal.bytes.clone());
    let entries = recovery.get_entries().unwrap();

    assert_eq!(entries.len(), 3);
    assert_eq!(entries[0].cf_name, "test_0");
    assert_eq!(entries[1].cf_name, "test_1");
    assert_eq!(entries[2].cf_name, "test_2");
}

// Further cases: damaged logs.

#[test]
fn test_torn_record_stops_reading() {
    let mut wal = LogFile::open(Vec::new());
    for i in 0..3 {
        let mut entry = WALEntry::new(format!("cf_{i}"), i, empty_payload());
        wal.append(&mut entry);
    }
    // Flip a byte inside the last record's data: its checksum no longer matches.
    let n = wal.bytes.len();
    wal.bytes[n - 6] ^= 0x55;
    let entries = wal.read_from(1);
    assert_eq!(entries.len(), 2);
    // A record cut short is an error.
    wal.bytes.truncate(n - 2);
    assert_eq!(WALJournal::read_from(&wal.bytes, 1).unwrap_err(), WalError::RecordTruncated);
}

#[test]
fn test_damaged_log_header() {
    let wal = LogFile::open(Vec::new());
    let mut bytes = wal.bytes.clone();
    bytes[10] ^= 1;
    assert_eq!(WALJournal::read_header(&bytes).unwrap_err(), WalError::HeaderChecksumMismatch);
    bytes[0] = b'X';
    assert_eq!(WALJournal::read_header(&bytes).unwrap_err(), WalError::BadMagic);
    assert_eq!(WALJournal::read_header(&bytes[..100]).unwrap_err(), WalError::HeaderTruncated);
    assert!(WALJournal::open(&bytes[..100]).is_err());
}

#[test]
fn test_recovery_sequence_gaps() {
    let mut wal = LogFile::open(Vec::new());
    let mut first = WALEntry::new("a".to_string(), 1, empty_payload());
    assert_eq!(wal.append(&mut first), 1);
    // Sequence 2 is assigned but never reaches the file; sequence 3 does, without
    // its header update.
    let mut second = WALEntry::new("b".to_string(), 2, empty_payload());
    let (seq2, _lost) = wal.journal.append(&mut second);
    assert_eq!(seq2, 2);
    let mut third = WALEntry::new("c".to_string(), 3, empty_payload());
    let (seq3, record3) = wal.journal.append(&mut third);
    assert_eq!(seq3, 3);
    wal.bytes.extend_from_slice(&record3);

    // A gap past the latest recorded sequence ends recovery there.
    assert_eq!(WALRecovery::new(wal.bytes.clone()).recover().unwrap(), 1);

    // A gap within the recorded range is corruption.
    let header = WALJournal::update_header_latest_seq(&wal.bytes[..WAL_HEADER_SIZE], 3).unwrap();
    wal.bytes[..WAL_HEADER_SIZE].copy_from_slice(&header);
    assert_eq!(
        WALRecovery::new(wal.bytes.clone()).recover().unwrap_err(),
        WalError::SequenceCorruption
    );
}

#[test]
fn test_decode_record_compares_given_checksum() {
    let mut entry = WALEntry::new("cf".to_string(), 9, empty_payload());
    entry.sequence = 4;
    let data = entry.to_bytes();
    assert_eq!(decode_record(&data, 5, 6), Ok(None));
    let decoded = decode_record(&data, 7, 7).unwrap().unwrap();
    assert_eq!(decoded, entry);
    assert!(decode_record(&data[0..3], 7, 7).is_err());
}

#[test]
fn test_header_from_bytes_checked_compares_given_checksum() {
    let bytes = WALHeader { oldest_seq: 3, latest_seq: 8 }.to_bytes();
    let stored = u32::from_le_bytes([bytes[25], bytes[26], bytes[27], bytes[28]]);
    assert_eq!(WALHeader::from_bytes_checked(&bytes, stored), Ok(WALHeader { oldest_seq: 3, latest_seq: 8 }));
    assert_eq!(WALHeader::from_bytes_checked(&bytes, stored.wrapping_add(1)), Err(WalError::HeaderChecksumMismatch));
}
