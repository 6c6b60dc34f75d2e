//! The log file: a fixed-size header followed by checksummed entry records.
//!
//! All functions here work on the bytes of the log file; reading and writing the
//! file itself is left to the caller.

use crate::checksum::{crc32, crc32_of};
use crate::codec::{append_bytes, from_le32, from_le64, le32, le64, push_u32, push_u64, read_u32, read_u64};
use crate::wal::entry::{parse_entry, EntryView, WALEntry, WalError};
use vstd::prelude::*;
use vstd::slice::slice_subrange;

verus! {

/// Magic number for WAL file identification ("REDB-WAL").
pub const WAL_MAGIC: [u8; 8] = [0x52, 0x45, 0x44, 0x42, 0x2d, 0x57, 0x41, 0x4c];

/// Current WAL format version.
pub const WAL_VERSION: u8 = 1;

/// Size of the WAL file header in bytes.
pub const WAL_HEADER_SIZE: usize = 512;

/// The bytes of `WAL_MAGIC`.
pub open spec fn wal_magic() -> Seq<u8> {
    seq![0x52u8, 0x45u8, 0x44u8, 0x42u8, 0x2du8, 0x57u8, 0x41u8, 0x4cu8]
}

/// Header of the WAL file: the oldest sequence number kept and the latest one written.
/// The magic number and version are always `WAL_MAGIC` and `WAL_VERSION`.
#[derive(Debug, Clone, Copy, PartialEq, Eq, Structural)]
pub struct WALHeader {
    pub oldest_seq: u64,
    pub latest_seq: u64,
}

/// The checksummed part of a header: magic | version | oldest (u64) | latest (u64).
pub open spec fn wal_header_fields(oldest: u64, latest: u64) -> Seq<u8> {
    wal_magic() + seq![WAL_VERSION] + le64(oldest) + le64(latest)
}

/// `n` zero bytes.
pub open spec fn zero_bytes(n: nat) -> Seq<u8> {
    Seq::new(n, |i: int| 0u8)
}

/// The 512-byte header: the fields, the CRC-32 of the fields, zero padding.
pub open spec fn wal_header_bytes(oldest: u64, latest: u64) -> Seq<u8> {
    wal_header_fields(oldest, latest) + le32(crc32_of(wal_header_fields(oldest, latest)))
        + zero_bytes(483)
}

/// Decoding of a 512-byte header, given the checksum computed over its first 25
/// bytes.
pub open spec fn parse_wal_header_checked(b: Seq<u8>, computed: u32) -> Result<WALHeader, WalError> {
    if b.subrange(0, 8) != wal_magic() {
        Err(WalError::BadMagic)
    } else if b[8] != WAL_VERSION {
        Err(WalError::UnsupportedVersion { version: b[8] })
    } else if computed != from_le32(b.subrange(25, 29)) {
        Err(WalError::HeaderChecksumMismatch)
    } else {
        Ok(
            WALHeader {
                oldest_seq: from_le64(b.subrange(9, 17)),
                latest_seq: from_le64(b.subrange(17, 25)),
            },
        )
    }
}

/// Decoding of a 512-byte header.
pub open spec fn parse_wal_header(b: Seq<u8>) -> Result<WALHeader, WalError> {
    parse_wal_header_checked(b, crc32_of(b.subrange(0, 25)))
}

/// A framed record: total length (u32, counting the length and checksum fields) |
/// data | CRC-32 of the data. The length is written truncated to 32 bits.
pub open spec fn record_bytes(data: Seq<u8>) -> Seq<u8> {
    le32((8 + data.len()) as u32) + data + le32(crc32_of(data))
}

/// What one record yields, given the checksum stored after its entry bytes `data`
/// and the one computed over them: nothing (reading stops) when they differ, else
/// the decoded entry.
pub open spec fn record_outcome(data: Seq<u8>, stored: u32, computed: u32) -> Result<Option<EntryView>, WalError> {
    if computed != stored {
        Ok(None)
    } else {
        match parse_entry(data) {
            Err(e) => Err(e),
            Ok((entry, n)) => Ok(Some(entry)),
        }
    }
}

/// What reading the records from `off` on yields: the entries with sequence at least
/// `start_seq`, in file order. Reading stops without error at the end of the file,
/// at fewer than four bytes, at a length below 8 or at a checksum mismatch; it fails
/// if a record is cut short or its entry does not decode.
pub open spec fn scan_records(d: Seq<u8>, off: int, start_seq: u64) -> Result<Seq<EntryView>, WalError>
    decreases d.len() - off,
{
    if off < 0 || d.len() < off + 4 {
        Ok(Seq::empty())
    } else {
        let total = from_le32(d.subrange(off, off + 4)) as int;
        if total < 8 {
            Ok(Seq::empty())
        } else if d.len() < off + total {
            Err(WalError::RecordTruncated)
        } else {
            let data = d.subrange(off + 4, off + total - 4);
            let stored = from_le32(d.subrange(off + total - 4, off + total));
            match record_outcome(data, stored, crc32_of(data)) {
                Err(e) => Err(e),
                Ok(None) => Ok(Seq::empty()),
                Ok(Some(entry)) => match scan_records(d, off + total, start_seq) {
                    Err(e) => Err(e),
                    Ok(rest) => Ok(
                        if entry.sequence >= start_seq {
                            seq![entry] + rest
                        } else {
                            rest
                        },
                    ),
                },
            }
        }
    }
}

/// The sequence number reading starts from: the one asked for, or the header's
/// oldest if that is later (entries before it have been truncated away).
pub open spec fn read_start(start_seq: u64, oldest: u64) -> u64 {
    if start_seq > oldest {
        start_seq
    } else {
        oldest
    }
}

/// What `WALJournal::read_from` returns for a log file image: nothing past the
/// header's latest sequence number, else the records' entries from `read_start`
/// on.
pub open spec fn spec_read_from(d: Seq<u8>, start_seq: u64) -> Result<Seq<EntryView>, WalError> {
    if d.len() < WAL_HEADER_SIZE {
        Err(WalError::HeaderTruncated)
    } else {
        match parse_wal_header(d.subrange(0, WAL_HEADER_SIZE as int)) {
            Err(e) => Err(e),
            Ok(h) => if start_seq > h.latest_seq {
                Ok(Seq::empty())
            } else {
                scan_records(d, WAL_HEADER_SIZE as int, read_start(start_seq, h.oldest_seq))
            },
        }
    }
}

/// Views of a list of entries.
pub open spec fn entry_views(v: Seq<WALEntry>) -> Seq<EntryView> {
    v.map_values(|e: WALEntry| e@)
}

impl WALHeader {
    /// A fresh header: no entries, both sequence numbers 0.
    pub fn new() -> (h: Self)
        ensures
            h.oldest_seq == 0,
            h.latest_seq == 0,
    {
        Self { oldest_seq: 0, latest_seq: 0 }
    }

    /// Encodes the header into its 512 bytes, with the CRC-32 of the fields.
    pub fn to_bytes(&self) -> (b: Vec<u8>)
        ensures
            b@ == wal_header_bytes(self.oldest_seq, self.latest_seq),
            b@.len() == WAL_HEADER_SIZE,
    {
        let mut buf: Vec<u8> = Vec::new();
        buf.push(0x52);
        buf.push(0x45);
        buf.push(0x44);
        buf.push(0x42);
        buf.push(0x2d);
        buf.push(0x57);
        buf.push(0x41);
        buf.push(0x4c);
        buf.push(WAL_VERSION);
        push_u64(&mut buf, self.oldest_seq);
        push_u64(&mut buf, self.latest_seq);
        assert(buf@ =~= wal_header_fields(self.oldest_seq, self.latest_seq));
        let crc = crc32(buf.as_slice());
        push_u32(&mut buf, crc);
        let ghost with_crc = buf@;
        let mut i: usize = 0;
        while i < 483
            invariant
                i <= 483,
                buf@ == with_crc + zero_bytes(i as nat),
            decreases 483 - i,
        {
            buf.push(0);
            i = i + 1;
            assert(buf@ =~= with_crc + zero_bytes(i as nat));
        }
        proof {
            crate::codec::lemma_le_roundtrip();
        }
        buf
    }

    /// Decodes a 512-byte header, checking magic number, version and CRC-32.
    pub fn from_bytes(buf: &[u8]) -> (r: Result<Self, WalError>)
        requires
            buf@.len() == WAL_HEADER_SIZE,
        ensures
            r == parse_wal_header(buf@),
    {
        let computed_crc = crc32(slice_subrange(buf, 0, 25));
        Self::from_bytes_checked(buf, computed_crc)
    }

    /// Decodes a 512-byte header whose first 25 bytes have the checksum
    /// `computed_crc`: checks the magic number, the version, and that the stored
    /// checksum equals `computed_crc`.
    pub fn from_bytes_checked(buf: &[u8], computed_crc: u32) -> (r: Result<Self, WalError>)
        requires
            buf@.len() == WAL_HEADER_SIZE,
        ensures
            r == parse_wal_header_checked(buf@, computed_crc),
    {
        let magic_ok = buf[0] == 0x52 && buf[1] == 0x45 && buf[2] == 0x44 && buf[3] == 0x42
            && buf[4] == 0x2d && buf[5] == 0x57 && buf[6] == 0x41 && buf[7] == 0x4c;
        proof {
            if magic_ok {
                assert(buf@.subrange(0, 8) =~= wal_magic());
            } else if buf@.subrange(0, 8) == wal_magic() {
                assert(buf@.subrange(0, 8)[0] == buf@[0]);
                assert(buf@.subrange(0, 8)[1] == buf@[1]);
                assert(buf@.subrange(0, 8)[2] == buf@[2]);
                assert(buf@.subrange(0, 8)[3] == buf@[3]);
                assert(buf@.subrange(0, 8)[4] == buf@[4]);
                assert(buf@.subrange(0, 8)[5] == buf@[5]);
                assert(buf@.subrange(0, 8)[6] == buf@[6]);
                assert(buf@.subrange(0, 8)[7] == buf@[7]);
            }
        }
        if !magic_ok {
            return Err(WalError::BadMagic);
        }
        let version = buf[8];
        if version != WAL_VERSION {
            return Err(WalError::UnsupportedVersion { version });
        }
        let oldest_seq = read_u64(buf, 9);
        let latest_seq = read_u64(buf, 17);
        let stored_crc = read_u32(buf, 25);
        if computed_crc != stored_crc {
            return Err(WalError::HeaderChecksumMismatch);
        }
        Ok(Self { oldest_seq, latest_seq })
    }
}

/// Decodes the entry bytes `data` of a record whose stored checksum is
/// `stored_crc` and whose computed checksum is `computed_crc`; see
/// `record_outcome`.
pub fn decode_record(data: &[u8], stored_crc: u32, computed_crc: u32) -> (r: Result<Option<WALEntry>, WalError>)
    ensures
        match r {
            Ok(Some(e)) => record_outcome(data@, stored_crc, computed_crc) == Ok::<Option<EntryView>, WalError>(
                Some(e@),
            ),
            Ok(None) => record_outcome(data@, stored_crc, computed_crc) == Ok::<Option<EntryView>, WalError>(
                None,
            ),
            Err(e) => record_outcome(data@, stored_crc, computed_crc) == Err::<Option<EntryView>, WalError>(e),
        },
{
    if computed_crc != stored_crc {
        return Ok(None);
    }
    match WALEntry::from_bytes(data) {
        Ok((entry, _)) => Ok(Some(entry)),
        Err(e) => Err(e),
    }
}

/// The framed record of an entry: length (u32) | entry bytes | CRC-32 of the entry
/// bytes.
pub fn frame_record(entry: &WALEntry) -> (wire: Vec<u8>)
    ensures
        wire@ == record_bytes(crate::wal::entry::entry_bytes(entry@)),
{
    let entry_data = entry.to_bytes();
    let crc = crc32(entry_data.as_slice());
    let total_len = (entry_data.len() as u128 + 8) as u32;
    let mut wire_data: Vec<u8> = Vec::new();
    push_u32(&mut wire_data, total_len);
    append_bytes(&mut wire_data, entry_data.as_slice());
    push_u32(&mut wire_data, crc);
    wire_data
}

/// The Write-Ahead Log journal: assigns sequence numbers and produces the bytes that
/// the log file receives, and reads entries back from the file's bytes.
pub struct WALJournal {
    sequence_counter: u64,
}

impl WALJournal {
    /// The last sequence number handed out.
    pub closed spec fn counter(&self) -> u64 {
        self.sequence_counter
    }

    /// Returns the last sequence number handed out.
    pub fn last_sequence(&self) -> (s: u64)
        ensures
            s == self.counter(),
    {
        self.sequence_counter
    }

    /// Opens a journal over the current bytes of the log file. An empty file gets a
    /// fresh header, returned for the caller to write; otherwise the header is read
    /// and the counter resumes from its latest sequence number.
    pub fn open(file: &[u8]) -> (r: Result<(WALJournal, Option<Vec<u8>>), WalError>)
        ensures
            file@.len() == 0 ==> (r matches Ok((j, Some(b))) && j.counter() == 0 && b@
                == wal_header_bytes(0, 0)),
            0 < file@.len() < WAL_HEADER_SIZE ==> r == Err::<(WALJournal, Option<Vec<u8>>), WalError>(
                WalError::HeaderTruncated,
            ),
            file@.len() >= WAL_HEADER_SIZE ==> match parse_wal_header(
                file@.subrange(0, WAL_HEADER_SIZE as int),
            ) {
                Ok(h) => (r matches Ok((j, None)) && j.counter() == h.latest_seq),
                Err(e) => r == Err::<(WALJournal, Option<Vec<u8>>), WalError>(e),
            },
    {
        if file.len() == 0 {
            let header = WALHeader::new();
            let bytes = header.to_bytes();
            return Ok((WALJournal { sequence_counter: 0 }, Some(bytes)));
        }
        let header = Self::read_header(file)?;
        Ok((WALJournal { sequence_counter: header.latest_seq }, None))
    }

    /// Reads the header at the start of the log file.
    pub fn read_header(file: &[u8]) -> (r: Result<WALHeader, WalError>)
        ensures
            file@.len() < WAL_HEADER_SIZE ==> r == Err::<WALHeader, WalError>(WalError::HeaderTruncated),
            file@.len() >= WAL_HEADER_SIZE ==> r == parse_wal_header(
                file@.subrange(0, WAL_HEADER_SIZE as int),
            ),
    {
        if file.len() < WAL_HEADER_SIZE {
            return Err(WalError::HeaderTruncated);
        }
        WALHeader::from_bytes(slice_subrange(file, 0, WAL_HEADER_SIZE))
    }

    /// Assigns the next sequence number to `entry` and returns it with the framed
    /// record to append to the file: length (u32) | entry bytes | CRC-32 of the
    /// entry bytes.
    pub fn append(&mut self, entry: &mut WALEntry) -> (r: (u64, Vec<u8>))
        requires
            old(self).counter() < u64::MAX,
        ensures
            r.0 == old(self).counter() + 1,
            final(self).counter() == r.0,
            final(entry).sequence == r.0,
            final(entry).cf_name == old(entry).cf_name,
            final(entry).transaction_id == old(entry).transaction_id,
            final(entry).payload == old(entry).payload,
            r.1@ == record_bytes(crate::wal::entry::entry_bytes(final(entry)@)),
    {
        let seq = self.sequence_counter + 1;
        self.sequence_counter = seq;
        entry.sequence = seq;
        let wire_data = frame_record(entry);
        (seq, wire_data)
    }

    /// Rewrites a header with a new latest sequence number: decodes the current 512
    /// header bytes and returns the encoding with `latest_seq` replaced.
    pub fn update_header_latest_seq(header_buf: &[u8], latest_seq: u64) -> (r: Result<Vec<u8>, WalError>)
        requires
            header_buf@.len() == WAL_HEADER_SIZE,
        ensures
            match parse_wal_header(header_buf@) {
                Ok(h) => (r matches Ok(b) && b@ == wal_header_bytes(h.oldest_seq, latest_seq)),
                Err(e) => r == Err::<Vec<u8>, WalError>(e),
            },
    {
        let mut header = WALHeader::from_bytes(header_buf)?;
        header.latest_seq = latest_seq;
        Ok(header.to_bytes())
    }

    /// Resets the journal after a checkpoint: the file is to be truncated to a new
    /// header with `oldest_seq = new_oldest_seq` and `latest_seq = new_oldest_seq - 1`,
    /// and the counter continues from `new_oldest_seq - 1`. Returns the header bytes.
    pub fn truncate(&mut self, new_oldest_seq: u64) -> (b: Vec<u8>)
        requires
            new_oldest_seq >= 1,
        ensures
            b@ == wal_header_bytes(new_oldest_seq, (new_oldest_seq - 1) as u64),
            final(self).counter() == new_oldest_seq - 1,
    {
        let mut header = WALHeader::new();
        header.oldest_seq = new_oldest_seq;
        header.latest_seq = new_oldest_seq - 1;
        self.sequence_counter = new_oldest_seq - 1;
        header.to_bytes()
    }

    /// Reads all entries with sequence numbers >= `start_seq` (and not before the
    /// header's oldest sequence number) from the bytes of the log file.
    pub fn read_from(file: &[u8], start_seq: u64) -> (r: Result<Vec<WALEntry>, WalError>)
        ensures
            match r {
                Ok(v) => spec_read_from(file@, start_seq) == Ok::<Seq<EntryView>, WalError>(
                    entry_views(v@),
                ),
                Err(e) => spec_read_from(file@, start_seq) == Err::<Seq<EntryView>, WalError>(e),
            },
    {
        let header = Self::read_header(file)?;
        if start_seq > header.latest_seq {
            let v: Vec<WALEntry> = Vec::new();
            assert(entry_views(v@) =~= Seq::<EntryView>::empty());
            return Ok(v);
        }
        let from = if start_seq > header.oldest_seq {
            start_seq
        } else {
            header.oldest_seq
        };
        Self::read_records(file, WAL_HEADER_SIZE, from)
    }

    /// Reads the records from `start` on; see `scan_records`.
    fn read_records(file: &[u8], start: usize, start_seq: u64) -> (r: Result<Vec<WALEntry>, WalError>)
        requires
            start <= file@.len(),
        ensures
            match r {
                Ok(v) => scan_records(file@, start as int, start_seq) == Ok::<Seq<EntryView>, WalError>(
                    entry_views(v@),
                ),
                Err(e) => scan_records(file@, start as int, start_seq) == Err::<Seq<EntryView>, WalError>(e),
            },
    {
        let ghost d = file@;
        let len = file.len();
        let mut entries: Vec<WALEntry> = Vec::new();
        let mut off = start;
        assert(entry_views(entries@) =~= Seq::<EntryView>::empty());
        loop
            invariant
                d == file@,
                len == d.len(),
                off <= len,
                match scan_records(d, off as int, start_seq) {
                    Ok(rest) => scan_records(d, start as int, start_seq) == Ok::<Seq<EntryView>, WalError>(
                        entry_views(entries@) + rest,
                    ),
                    Err(e) => scan_records(d, start as int, start_seq) == Err::<Seq<EntryView>, WalError>(e),
                },
            decreases len - off,
        {
            if len - off < 4 {
                assert(entry_views(entries@) + Seq::<EntryView>::empty() =~= entry_views(entries@));
                return Ok(entries);
            }
            let total_len = read_u32(file, off) as usize;
            if total_len < 8 {
                assert(entry_views(entries@) + Seq::<EntryView>::empty() =~= entry_views(entries@));
                return Ok(entries);
            }
            if len - off < total_len {
                return Err(WalError::RecordTruncated);
            }
            let entry_data = slice_subrange(file, off + 4, off + total_len - 4);
            let stored_crc = read_u32(file, off + total_len - 4);
            let computed_crc = crc32(entry_data);
            let entry = match decode_record(entry_data, stored_crc, computed_crc) {
                Ok(Some(entry)) => entry,
                Ok(None) => {
                    assert(entry_views(entries@) + Seq::<EntryView>::empty() =~= entry_views(entries@));
                    return Ok(entries);
                },
                Err(e) => return Err(e),
            };
            let ghost before = entries@;
            if entry.sequence >= start_seq {
                entries.push(entry);
                proof {
                    assert(entry_views(entries@) =~= entry_views(before).push(entry@));
                    if let Ok(rest) = scan_records(d, off + total_len, start_seq) {
                        assert(entry_views(before) + (seq![entry@] + rest) =~= entry_views(entries@) + rest);
                    }
                }
            }
            off = off + total_len;
        }
    }
}

/// WAL recovery: reads back the entries that a crash left in the log file and checks
/// that their sequence numbers run without gaps.
pub struct WALRecovery {
    image: Vec<u8>,
}

/// The number of entries from index `i` on that continue the run `prev + 1, prev + 2,
/// ...`; an out-of-order sequence number within `latest` is corruption, one beyond
/// it (a partial write) ends the run.
pub open spec fn count_run(seqs: Seq<u64>, i: int, prev: int, latest: u64) -> Result<nat, WalError>
    decreases seqs.len() - i,
{
    if i < 0 || i >= seqs.len() {
        Ok(0)
    } else if seqs[i] != prev + 1 {
        if seqs[i] <= latest {
            Err(WalError::SequenceCorruption)
        } else {
            Ok(0)
        }
    } else {
        match count_run(seqs, i + 1, seqs[i] as int, latest) {
            Ok(n) => Ok(n + 1),
            Err(e) => Err(e),
        }
    }
}

/// What `WALRecovery::recover` returns for a log file image.
pub open spec fn spec_recover(d: Seq<u8>) -> Result<nat, WalError> {
    if d.len() < WAL_HEADER_SIZE {
        Err(WalError::HeaderTruncated)
    } else {
        match parse_wal_header(d.subrange(0, WAL_HEADER_SIZE as int)) {
            Err(e) => Err(e),
            Ok(h) => if h.latest_seq < h.oldest_seq {
                Ok(0)
            } else {
                match spec_read_from(d, h.oldest_seq) {
                    Err(e) => Err(e),
                    Ok(es) => count_run(
                        es.map_values(|e: EntryView| e.sequence),
                        0,
                        if h.oldest_seq == 0 { 0 } else { h.oldest_seq - 1 },
                        h.latest_seq,
                    ),
                }
            },
        }
    }
}

/// What `WALRecovery::get_entries` returns for a log file image.
pub open spec fn spec_get_entries(d: Seq<u8>) -> Result<Seq<EntryView>, WalError> {
    if d.len() < WAL_HEADER_SIZE {
        Err(WalError::HeaderTruncated)
    } else {
        match parse_wal_header(d.subrange(0, WAL_HEADER_SIZE as int)) {
            Err(e) => Err(e),
            Ok(h) => if h.latest_seq < h.oldest_seq {
                Ok(Seq::empty())
            } else {
                spec_read_from(d, h.oldest_seq)
            },
        }
    }
}

impl WALRecovery {
    /// The log file bytes this recovery reads.
    pub closed spec fn image(&self) -> Seq<u8> {
        self.image@
    }

    /// Creates a recovery over the bytes of a log file.
    pub fn new(image: Vec<u8>) -> (r: Self)
        ensures
            r.image() == image@,
    {
        Self { image }
    }

    /// Performs crash recovery: returns the number of entries, from the header's
    /// oldest sequence number on, whose sequence numbers run without gaps.
    pub fn recover(&self) -> (r: Result<usize, WalError>)
        ensures
            match r {
                Ok(n) => spec_recover(self.image()) == Ok::<nat, WalError>(n as nat),
                Err(e) => spec_recover(self.image()) == Err::<nat, WalError>(e),
            },
    {
        let file = self.image.as_slice();
        let header = WALJournal::read_header(file)?;
        if header.latest_seq < header.oldest_seq {
            return Ok(0);
        }
        let entries = WALJournal::read_from(file, header.oldest_seq)?;
        let ghost seqs = entry_views(entries@).map_values(|e: EntryView| e.sequence);
        let mut prev: u64 = if header.oldest_seq == 0 { 0 } else { header.oldest_seq - 1 };
        let mut valid_count: usize = 0;
        let mut i: usize = 0;
        let ghost prev0 = prev as int;
        assert(spec_recover(self.image()) == count_run(seqs, 0, prev0, header.latest_seq));
        while i < entries.len()
            invariant
                spec_recover(self.image()) == count_run(seqs, 0, prev0, header.latest_seq),
                seqs == entry_views(entries@).map_values(|e: EntryView| e.sequence),
                seqs.len() == entries@.len(),
                i <= entries@.len(),
                valid_count == i,
                i > 0 ==> prev == seqs[i - 1],
                i == 0 ==> prev == prev0,
                match count_run(seqs, i as int, prev as int, header.latest_seq) {
                    Ok(n) => count_run(seqs, 0, prev0, header.latest_seq) == Ok::<nat, WalError>((n + i) as nat),
                    Err(e) => count_run(seqs, 0, prev0, header.latest_seq) == Err::<nat, WalError>(e),
                },
            decreases entries@.len() - i,
        {
            let s = entries[i].sequence;
            assert(seqs[i as int] == s);
            if prev == u64::MAX || s != prev + 1 {
                assert(seqs[i as int] != prev + 1);
                assert(i < seqs.len());
                if s <= header.latest_seq {
                    return Err(WalError::SequenceCorruption);
                } else {
                    return Ok(valid_count);
                }
            }
            valid_count = valid_count + 1;
            prev = s;
            i = i + 1;
        }
        Ok(valid_count)
    }

    /// Gets all WAL entries for replay: those from the header's oldest sequence number
    /// on, or none if the header records no entries.
    pub fn get_entries(&self) -> (r: Result<Vec<WALEntry>, WalError>)
        ensures
            match r {
                Ok(v) => spec_get_entries(self.image()) == Ok::<Seq<EntryView>, WalError>(entry_views(v@)),
                Err(e) => spec_get_entries(self.image()) == Err::<Seq<EntryView>, WalError>(e),
            },
    {
        let file = self.image.as_slice();
        let header = WALJournal::read_header(file)?;
        if header.latest_seq < header.oldest_seq {
            let v: Vec<WALEntry> = Vec::new();
            assert(entry_views(v@) =~= Seq::<EntryView>::empty());
            return Ok(v);
        }
        WALJournal::read_from(file, header.oldest_seq)
    }
}

} // verus!
