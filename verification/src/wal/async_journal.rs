//! The log kept in a storage backend, with appends separated from syncs: appends
//! return as soon as the record is written, and a later sync makes every pending
//! append durable at once (group commit). Running the sync in the background is
//! left to the caller; this is the state it drives.

use crate::backend::{spliced, StorageBackend, StorageError};
use crate::partitioned_backend::zeroed;
use crate::wal::checkpoint::PendingSequences;
use crate::wal::entry::{entry_bytes, EntryView, WALEntry, WalError};
use crate::wal::journal::{
    frame_record, parse_wal_header, read_start, record_bytes, scan_records, spec_read_from,
    wal_header_bytes, WALHeader,
    WALJournal, WAL_HEADER_SIZE,
};
use crate::wal::journal_laws::{lemma_scan_at_least, lemma_scan_same_tail, lemma_wal_header_roundtrip};
use vstd::prelude::*;

verus! {

/// Errors of a log kept in a storage backend.
#[derive(Debug, Clone, Copy, PartialEq, Eq, Structural)]
pub enum LogError {
    /// The storage failed.
    Storage(StorageError),
    /// The bytes of the log are not a valid log.
    Wal(WalError),
}

/// A write-ahead log in a storage backend, whose appends are made durable by
/// later syncs.
pub struct AsyncWALJournal<B> {
    backend: B,
    sequence_counter: u64,
    pending_sync: PendingSequences,
    last_synced: u64,
}

impl<B: StorageBackend> AsyncWALJournal<B> {
    /// The storage of the log.
    pub closed spec fn storage(&self) -> B {
        self.backend
    }

    /// The last sequence number handed out.
    pub closed spec fn counter(&self) -> u64 {
        self.sequence_counter
    }

    /// Sequence numbers appended but not yet synced.
    pub closed spec fn pending(&self) -> Set<u64> {
        self.pending_sync.set()
    }

    /// The last sequence number known to be synced.
    pub closed spec fn synced(&self) -> u64 {
        self.last_synced
    }

    /// The journal's invariant.
    pub closed spec fn wf(&self) -> bool {
        self.pending_sync.wf()
    }

    /// Opens the log kept in `backend`: an empty backend gets a fresh header,
    /// written and synced; otherwise the header is read and checked. Appends resume
    /// after, and syncs are counted from, the header's latest sequence number.
    pub fn new(backend: B) -> (r: Result<Self, LogError>)
        ensures
            r matches Ok(j) ==> {
                &&& j.wf()
                &&& j.pending() == Set::<u64>::empty()
                &&& j.counter() == j.synced()
                &&& backend.contents().len() == 0 ==> j.counter() == 0 && j.storage().contents()
                    == wal_header_bytes(0, 0)
                &&& backend.contents().len() > 0 ==> {
                    &&& backend.contents().len() >= WAL_HEADER_SIZE
                    &&& j.storage().contents() == backend.contents()
                    &&& parse_wal_header(backend.contents().subrange(0, WAL_HEADER_SIZE as int))
                        matches Ok(h) && h.latest_seq == j.counter()
                }
            },
            r matches Err(LogError::Wal(e)) ==> {
                &&& backend.contents().len() >= WAL_HEADER_SIZE
                &&& parse_wal_header(backend.contents().subrange(0, WAL_HEADER_SIZE as int))
                    == Err::<WALHeader, WalError>(e)
            },
            r matches Ok(j) ==> j.storage().dependable() == backend.dependable(),
            backend.dependable() && (backend.contents().len() == 0 || (backend.contents().len() >= WAL_HEADER_SIZE
                && parse_wal_header(backend.contents().subrange(0, WAL_HEADER_SIZE as int)) is Ok)) ==> r is Ok,
    {
        let mut backend = backend;
        let backend_len = match backend.len() {
            Ok(n) => n,
            Err(e) => return Err(LogError::Storage(e)),
        };
        let header = if backend_len == 0 {
            let header = WALHeader::new();
            let bytes = header.to_bytes();
            // The header lies past the end of the empty log: grow it to hold it.
            match backend.set_len(WAL_HEADER_SIZE as u64) {
                Ok(()) => {},
                Err(e) => return Err(LogError::Storage(e)),
            }
            match backend.write(0, bytes.as_slice()) {
                Ok(()) => {},
                Err(e) => return Err(LogError::Storage(e)),
            }
            match backend.sync_data() {
                Ok(()) => {},
                Err(e) => return Err(LogError::Storage(e)),
            }
            assert(backend.contents() =~= wal_header_bytes(0, 0));
            header
        } else {
            let mut header_buf = zeroed(WAL_HEADER_SIZE);
            match backend.read(0, header_buf.as_mut_slice()) {
                Ok(()) => {},
                Err(e) => return Err(LogError::Storage(e)),
            }
            match WALHeader::from_bytes(header_buf.as_slice()) {
                Ok(h) => h,
                Err(e) => return Err(LogError::Wal(e)),
            }
        };
        Ok(Self {
            backend,
            sequence_counter: header.latest_seq,
            pending_sync: PendingSequences::new(),
            last_synced: header.latest_seq,
        })
    }

    /// Appends a transaction entry, without syncing: assigns it the next sequence
    /// number and writes its framed record at the end of the log. Returns the
    /// sequence number; `is_synced` tells when a sync has made it durable.
    ///
    /// The sequence number is used up even if the write fails.
    pub fn append(&mut self, entry: &mut WALEntry) -> (r: Result<u64, LogError>)
        requires
            old(self).wf(),
            old(self).counter() < u64::MAX,
        ensures
            final(self).wf(),
            final(self).counter() == old(self).counter() + 1,
            final(entry).sequence == final(self).counter(),
            final(entry).cf_name == old(entry).cf_name,
            final(entry).transaction_id == old(entry).transaction_id,
            final(entry).payload == old(entry).payload,
            final(self).synced() == old(self).synced(),
            r matches Ok(seq) ==> {
                &&& seq == final(self).counter()
                &&& final(self).storage().contents() == old(self).storage().contents() + record_bytes(
                    entry_bytes(final(entry)@),
                )
                &&& final(self).pending() == old(self).pending().insert(seq)
            },
            r is Err ==> final(self).pending() == old(self).pending(),
            final(self).storage().dependable() == old(self).storage().dependable(),
            old(self).storage().dependable() && old(self).storage().contents().len() + record_bytes(
                entry_bytes(final(entry)@),
            ).len() <= usize::MAX ==> r is Ok,
    {
        let seq = self.sequence_counter + 1;
        self.sequence_counter = seq;
        entry.sequence = seq;
        let wire_data = frame_record(entry);
        let offset = match self.backend.len() {
            Ok(n) => n,
            Err(e) => return Err(LogError::Storage(e)),
        };
        let ghost before = self.backend.contents();
        let n = wire_data.len() as u64;
        if offset > u64::MAX - n {
            return Err(LogError::Storage(StorageError::OutOfRange { offset, len: n, size: offset }));
        }
        // The record lies past the end of the log: grow it to hold the record.
        match self.backend.set_len(offset + n) {
            Ok(()) => {},
            Err(e) => return Err(LogError::Storage(e)),
        }
        match self.backend.write(offset, wire_data.as_slice()) {
            Ok(()) => {},
            Err(e) => return Err(LogError::Storage(e)),
        }
        assert(self.backend.contents() =~= before + wire_data@);
        self.pending_sync.register_pending(seq);
        Ok(seq)
    }

    /// Syncs the log, making every pending append durable: on success nothing is
    /// pending and the last synced sequence number is the largest that was.
    pub fn sync_now(&mut self) -> (r: Result<(), LogError>)
        requires
            old(self).wf(),
        ensures
            final(self).wf(),
            final(self).counter() == old(self).counter(),
            final(self).storage() == old(self).storage(),
            r is Ok ==> final(self).pending() == Set::<u64>::empty(),
            r is Ok && old(self).pending() == Set::<u64>::empty() ==> final(self).synced() == old(self).synced(),
            r is Ok && old(self).pending() != Set::<u64>::empty() ==> {
                &&& old(self).pending().contains(final(self).synced())
                &&& forall|s: u64| old(self).pending().contains(s) ==> s <= final(self).synced()
            },
            r is Err ==> final(self).pending() == old(self).pending() && final(self).synced() == old(self).synced(),
            r matches Err(e) ==> e is Storage,
            old(self).storage().dependable() ==> r is Ok,
    {
        match self.backend.sync_data() {
            Ok(()) => {},
            Err(e) => return Err(LogError::Storage(e)),
        }
        match self.pending_sync.range() {
            None => Ok(()),
            Some((_, max_seq)) => {
                self.pending_sync.clear();
                self.last_synced = max_seq;
                Ok(())
            },
        }
    }

    /// Whether the append with sequence number `sequence` is known to be synced.
    pub fn is_synced(&self, sequence: u64) -> (b: bool)
        ensures
            b == (self.synced() >= sequence),
    {
        self.last_synced >= sequence
    }

    /// Returns the last sequence number handed out.
    pub fn last_sequence(&self) -> (s: u64)
        ensures
            s == self.counter(),
    {
        self.sequence_counter
    }

    /// Returns the last sequence number that has been synced to disk.
    pub fn last_synced_sequence(&self) -> (s: u64)
        ensures
            s == self.synced(),
    {
        self.last_synced
    }

    /// Returns the current size of the log.
    pub fn file_size(&self) -> (r: Result<u64, LogError>)
        ensures
            r matches Ok(n) ==> n == self.storage().contents().len(),
            self.storage().dependable() ==> r is Ok,
    {
        match self.backend.len() {
            Ok(n) => Ok(n),
            Err(e) => Err(LogError::Storage(e)),
        }
    }

    /// Reads the entries with sequence numbers at least `start_sequence`.
    pub fn read_from(&self, start_sequence: u64) -> (r: Result<Vec<WALEntry>, LogError>)
        ensures
            r matches Ok(v) ==> spec_read_from(self.storage().contents(), start_sequence)
                == Ok::<Seq<EntryView>, WalError>(crate::wal::journal::entry_views(v@)),
            r matches Err(LogError::Wal(e)) ==> spec_read_from(self.storage().contents(), start_sequence)
                == Err::<Seq<EntryView>, WalError>(e),
            self.storage().dependable() && self.storage().contents().len() <= usize::MAX ==> !(r matches Err(
                LogError::Storage(_),
            )),
    {
        let len = match self.backend.len() {
            Ok(n) => n,
            Err(e) => return Err(LogError::Storage(e)),
        };
        if len > usize::MAX as u64 {
            return Err(LogError::Storage(StorageError::OutOfRange { offset: 0, len, size: len }));
        }
        let mut buf = zeroed(len as usize);
        match self.backend.read(0, buf.as_mut_slice()) {
            Ok(()) => {},
            Err(e) => return Err(LogError::Storage(e)),
        }
        assert(buf@ =~= self.backend.contents());
        match WALJournal::read_from(buf.as_slice(), start_sequence) {
            Ok(v) => Ok(v),
            Err(e) => Err(LogError::Wal(e)),
        }
    }

    /// Marks the entries before `oldest_sequence` as applied: syncs pending appends,
    /// then rewrites the header with that oldest sequence number (the records stay)
    /// and syncs again.
    pub fn truncate(&mut self, oldest_sequence: u64) -> (r: Result<(), LogError>)
        requires
            old(self).wf(),
        ensures
            final(self).wf(),
            final(self).counter() == old(self).counter(),
            r is Ok ==> {
                &&& final(self).pending() == Set::<u64>::empty()
                &&& old(self).storage().contents().len() >= WAL_HEADER_SIZE
                &&& parse_wal_header(old(self).storage().contents().subrange(0, WAL_HEADER_SIZE as int))
                    matches Ok(h) && final(self).storage().contents() == spliced(
                    old(self).storage().contents(),
                    0,
                    wal_header_bytes(oldest_sequence, h.latest_seq),
                ) && forall|s: u64|
                    #![trigger spec_read_from(final(self).storage().contents(), s)]
                    spec_read_from(final(self).storage().contents(), s) == (if s > h.latest_seq {
                        Ok::<Seq<EntryView>, WalError>(Seq::empty())
                    } else {
                        scan_records(
                            old(self).storage().contents(),
                            WAL_HEADER_SIZE as int,
                            read_start(s, oldest_sequence),
                        )
                    })
                &&& forall|s: u64|
                    #![trigger spec_read_from(final(self).storage().contents(), s)]
                    spec_read_from(final(self).storage().contents(), s) matches Ok(es) ==> forall|i: int|
                        0 <= i < es.len() ==> (#[trigger] es[i]).sequence >= oldest_sequence
            },
            r matches Err(LogError::Wal(e)) ==> {
                &&& old(self).storage().contents().len() >= WAL_HEADER_SIZE
                &&& parse_wal_header(old(self).storage().contents().subrange(0, WAL_HEADER_SIZE as int))
                    == Err::<WALHeader, WalError>(e)
                &&& final(self).storage() == old(self).storage()
            },
            final(self).storage().dependable() == old(self).storage().dependable(),
            old(self).storage().dependable() && old(self).storage().contents().len() >= WAL_HEADER_SIZE
                && parse_wal_header(old(self).storage().contents().subrange(0, WAL_HEADER_SIZE as int)) is Ok ==> r is Ok,
    {
        self.sync_now()?;
        let mut header_buf = zeroed(WAL_HEADER_SIZE);
        match self.backend.read(0, header_buf.as_mut_slice()) {
            Ok(()) => {},
            Err(e) => return Err(LogError::Storage(e)),
        }
        let mut header = match WALHeader::from_bytes(header_buf.as_slice()) {
            Ok(h) => h,
            Err(e) => return Err(LogError::Wal(e)),
        };
        header.oldest_seq = oldest_sequence;
        let bytes = header.to_bytes();
        match self.backend.write(0, bytes.as_slice()) {
            Ok(()) => {},
            Err(e) => return Err(LogError::Storage(e)),
        }
        match self.backend.sync_data() {
            Ok(()) => {},
            Err(e) => return Err(LogError::Storage(e)),
        }
        proof {
            let c0 = old(self).storage().contents();
            let c1 = self.storage().contents();
            let n = c0.len() as int;
            let hb = wal_header_bytes(oldest_sequence, header.latest_seq);
            lemma_wal_header_roundtrip(oldest_sequence, header.latest_seq);
            assert(c1.len() == n);
            assert(c1.subrange(0, WAL_HEADER_SIZE as int) =~= hb);
            assert(c1.subrange(WAL_HEADER_SIZE as int, n) =~= c0.subrange(WAL_HEADER_SIZE as int, n));
            assert forall|s: u64| #![trigger spec_read_from(c1, s)]
                spec_read_from(c1, s) == (if s > header.latest_seq {
                    Ok::<Seq<EntryView>, WalError>(Seq::empty())
                } else {
                    scan_records(c0, WAL_HEADER_SIZE as int, read_start(s, oldest_sequence))
                }) && (spec_read_from(c1, s) matches Ok(es) ==> forall|i: int|
                    0 <= i < es.len() ==> (#[trigger] es[i]).sequence >= oldest_sequence) by {
                let from = read_start(s, oldest_sequence);
                lemma_scan_same_tail(c1, c0, WAL_HEADER_SIZE as int, from);
                lemma_scan_at_least(c0, WAL_HEADER_SIZE as int, from);
            }
        }
        Ok(())
    }

    /// Shuts the log down: a final sync, then the storage is given back.
    pub fn shutdown(self) -> (r: (B, Result<(), LogError>))
        requires
            self.wf(),
        ensures
            r.0 == self.storage(),
            r.1 matches Err(e) ==> e is Storage,
    {
        let mut j = self;
        let res = j.sync_now();
        (j.backend, res)
    }
}

} // verus!
