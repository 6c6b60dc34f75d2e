//! Laws of the log file: what is appended is read back.

use crate::checksum::crc32_of;
use crate::codec::{from_le32, from_le64, le32, le64, lemma_le_roundtrip};
use crate::wal::entry::{entry_bytes, parse_entry, EntryView, WalError};
use crate::wal::entry_laws::{entry_encodable, lemma_entry_roundtrip};
use crate::wal::journal::{
    count_run, spec_get_entries, spec_recover, parse_wal_header, read_start, record_bytes, record_outcome, scan_records, spec_read_from,
    wal_header_bytes,
    wal_header_fields, wal_magic, WALHeader, WAL_HEADER_SIZE, WAL_VERSION,
};
use vstd::prelude::*;

verus! {

/// The framed records of a list of entries, in order.
pub open spec fn records_bytes(es: Seq<EntryView>) -> Seq<u8>
    decreases es.len(),
{
    if es.len() == 0 {
        Seq::empty()
    } else {
        record_bytes(entry_bytes(es[0])) + records_bytes(es.drop_first())
    }
}

/// The entries of `es` with sequence number at least `start_seq`, in order.
pub open spec fn entries_from(es: Seq<EntryView>, start_seq: u64) -> Seq<EntryView>
    decreases es.len(),
{
    if es.len() == 0 {
        Seq::empty()
    } else {
        (if es[0].sequence >= start_seq {
            seq![es[0]]
        } else {
            Seq::empty()
        }) + entries_from(es.drop_first(), start_seq)
    }
}

/// Every entry encodes, and its framed record length fits in a u32.
pub open spec fn all_recordable(es: Seq<EntryView>) -> bool {
    forall|i: int|
        0 <= i < es.len() ==> #[trigger] entry_encodable(es[i]) && 8 + entry_bytes(es[i]).len()
            <= u32::MAX
}

/// Decoding an encoded log header gives its sequence numbers back.
pub proof fn lemma_wal_header_roundtrip(oldest: u64, latest: u64)
    ensures
        wal_header_bytes(oldest, latest).len() == WAL_HEADER_SIZE,
        parse_wal_header(wal_header_bytes(oldest, latest)) == Ok::<WALHeader, WalError>(
            WALHeader { oldest_seq: oldest, latest_seq: latest },
        ),
{
    lemma_le_roundtrip();
    let b = wal_header_bytes(oldest, latest);
    let f = wal_header_fields(oldest, latest);
    assert(f.len() == 25);
    assert(b.subrange(0, 8) =~= wal_magic());
    assert(b[8] == WAL_VERSION);
    assert(b.subrange(0, 25) =~= f);
    assert(b.subrange(25, 29) =~= le32(crc32_of(f)));
    assert(b.subrange(9, 17) =~= le64(oldest));
    assert(b.subrange(17, 25) =~= le64(latest));
}

/// Scanning framed records reads back exactly the entries they hold (those with
/// sequence number at least `start_seq`), whatever precedes them.
pub proof fn lemma_scan_records(pre: Seq<u8>, es: Seq<EntryView>, start_seq: u64)
    requires
        all_recordable(es),
    ensures
        scan_records(pre + records_bytes(es), pre.len() as int, start_seq) == Ok::<
            Seq<EntryView>,
            WalError,
        >(entries_from(es, start_seq)),
    decreases es.len(),
{
    lemma_le_roundtrip();
    let d = pre + records_bytes(es);
    let off = pre.len() as int;
    if es.len() == 0 {
        assert(d =~= pre);
    } else {
        let e = es[0];
        let eb = entry_bytes(e);
        let rec = record_bytes(eb);
        let rest = es.drop_first();
        assert(entry_encodable(es[0]));
        assert(all_recordable(rest)) by {
            assert forall|i: int| 0 <= i < rest.len() implies #[trigger] entry_encodable(rest[i])
                && 8 + entry_bytes(rest[i]).len() <= u32::MAX by {
                assert(rest[i] == es[i + 1]);
                assert(entry_encodable(es[i + 1]));
            }
        }
        let total = 8 + eb.len();
        assert(d =~= pre + rec + records_bytes(rest));
        assert(d.subrange(off, off + 4) =~= le32(total as u32));
        assert(from_le32(d.subrange(off, off + 4)) as int == total);
        assert(d.subrange(off + 4, off + total - 4) =~= eb);
        assert(d.subrange(off + total - 4, off + total) =~= le32(crc32_of(eb)));
        lemma_entry_roundtrip(e, Seq::empty());
        assert(eb + Seq::<u8>::empty() =~= eb);
        assert(parse_entry(eb) == Ok::<(EntryView, int), WalError>((e, eb.len() as int)));
        lemma_scan_records(pre + rec, rest, start_seq);
        assert((pre + rec).len() == off + total);
    }
}

/// Reading a log file made of a header and appended records gives back the entries
/// with sequence number at least `start_seq` and at least the header's oldest (none
/// if `start_seq` is past the header's latest sequence number).
pub proof fn lemma_read_after_append(oldest: u64, latest: u64, es: Seq<EntryView>, start_seq: u64)
    requires
        all_recordable(es),
    ensures
        spec_read_from(wal_header_bytes(oldest, latest) + records_bytes(es), start_seq) == (if start_seq
            > latest {
            Ok::<Seq<EntryView>, WalError>(Seq::empty())
        } else {
            Ok::<Seq<EntryView>, WalError>(entries_from(es, read_start(start_seq, oldest)))
        }),
{
    lemma_wal_header_roundtrip(oldest, latest);
    let h = wal_header_bytes(oldest, latest);
    let d = h + records_bytes(es);
    assert(d.subrange(0, WAL_HEADER_SIZE as int) =~= h);
    lemma_scan_records(h, es, read_start(start_seq, oldest));
}

/// Scanning reads only the bytes from `off` on: two images of one length that agree
/// there scan alike.
pub proof fn lemma_scan_same_tail(d1: Seq<u8>, d2: Seq<u8>, off: int, start_seq: u64)
    requires
        0 <= off <= d1.len(),
        d1.len() == d2.len(),
        d1.subrange(off, d1.len() as int) == d2.subrange(off, d2.len() as int),
    ensures
        scan_records(d1, off, start_seq) == scan_records(d2, off, start_seq),
    decreases d1.len() - off,
{
    let n = d1.len() as int;
    assert forall|i: int| off <= i < n implies d1[i] == d2[i] by {
        assert(d1.subrange(off, n)[i - off] == d2.subrange(off, n)[i - off]);
    }
    if off + 4 <= n {
        assert(d1.subrange(off, off + 4) =~= d2.subrange(off, off + 4));
        let total = from_le32(d1.subrange(off, off + 4)) as int;
        if total >= 8 && off + total <= n {
            assert(d1.subrange(off + 4, off + total - 4) =~= d2.subrange(off + 4, off + total - 4));
            assert(d1.subrange(off + total - 4, off + total) =~= d2.subrange(off + total - 4, off + total));
            assert(d1.subrange(off + total, n) =~= d2.subrange(off + total, n));
            lemma_scan_same_tail(d1, d2, off + total, start_seq);
        }
    }
}

/// Every entry a scan reads back has a sequence number of at least `start_seq`.
pub proof fn lemma_scan_at_least(d: Seq<u8>, off: int, start_seq: u64)
    ensures
        scan_records(d, off, start_seq) matches Ok(es) ==> forall|i: int|
            0 <= i < es.len() ==> (#[trigger] es[i]).sequence >= start_seq,
    decreases d.len() - off,
{
    if off >= 0 && d.len() >= off + 4 {
        let total = from_le32(d.subrange(off, off + 4)) as int;
        if total >= 8 && d.len() >= off + total {
            lemma_scan_at_least(d, off + total, start_seq);
            if let Ok(es) = scan_records(d, off, start_seq) {
                if let Ok(rest) = scan_records(d, off + total, start_seq) {
                    assert forall|i: int| 0 <= i < es.len() implies (#[trigger] es[i]).sequence >= start_seq by {
                        let data = d.subrange(off + 4, off + total - 4);
                        let stored = from_le32(d.subrange(off + total - 4, off + total));
                        if let Ok(Some(entry)) = record_outcome(data, stored, crc32_of(data)) {
                            if entry.sequence >= start_seq {
                                if i > 0 {
                                    assert(es[i] == rest[i - 1]);
                                }
                            } else {
                                assert(es[i] == rest[i]);
                            }
                        }
                    }
                }
            }
        }
    }
}


/// Keeping the entries from `start_seq` on keeps all of them when none is older.
pub proof fn lemma_entries_from_all(es: Seq<EntryView>, start_seq: u64)
    requires
        forall|i: int| 0 <= i < es.len() ==> (#[trigger] es[i]).sequence >= start_seq,
    ensures
        entries_from(es, start_seq) == es,
    decreases es.len(),
{
    if es.len() > 0 {
        let rest = es.drop_first();
        assert forall|i: int| 0 <= i < rest.len() implies (#[trigger] rest[i]).sequence >= start_seq by {
            assert(rest[i] == es[i + 1]);
        }
        lemma_entries_from_all(rest, start_seq);
        assert(seq![es[0]] + rest =~= es);
    }
}

/// A run of consecutive sequence numbers continuing `prev` is counted in full.
proof fn lemma_count_consecutive(seqs: Seq<u64>, i: int, prev: int, latest: u64)
    requires
        0 <= i <= seqs.len(),
        forall|k: int| i <= k < seqs.len() ==> #[trigger] seqs[k] == prev + 1 + (k - i),
    ensures
        count_run(seqs, i, prev, latest) == Ok::<nat, WalError>((seqs.len() - i) as nat),
    decreases seqs.len() - i,
{
    if i < seqs.len() {
        assert(seqs[i] == prev + 1);
        assert forall|k: int| i + 1 <= k < seqs.len() implies #[trigger] seqs[k] == seqs[i] as int + 1 + (k - (i + 1)) by {}
        lemma_count_consecutive(seqs, i + 1, seqs[i] as int, latest);
    }
}

/// Recovery after a checkpoint counts every entry logged since: for a log whose
/// header has oldest sequence number `oldest >= 1` and latest `latest`, followed by
/// the records of entries numbered `oldest, oldest + 1, ..., latest`, recovery
/// reports all `latest - oldest + 1` of them, without finding corruption.
pub proof fn lemma_recover_counts_run_from_oldest(oldest: u64, latest: u64, es: Seq<EntryView>)
    requires
        1 <= oldest <= latest,
        all_recordable(es),
        es.len() == latest - oldest + 1,
        forall|i: int| 0 <= i < es.len() ==> (#[trigger] es[i]).sequence == oldest + i,
    ensures
        spec_recover(wal_header_bytes(oldest, latest) + records_bytes(es)) == Ok::<nat, WalError>(
            (latest - oldest + 1) as nat,
        ),
{
    let d = wal_header_bytes(oldest, latest) + records_bytes(es);
    lemma_wal_header_roundtrip(oldest, latest);
    assert(d.subrange(0, WAL_HEADER_SIZE as int) =~= wal_header_bytes(oldest, latest));
    lemma_read_after_append(oldest, latest, es, oldest);
    lemma_entries_from_all(es, oldest);
    assert(spec_read_from(d, oldest) == Ok::<Seq<EntryView>, WalError>(es));
    let seqs = es.map_values(|e: EntryView| e.sequence);
    assert forall|k: int| 0 <= k < seqs.len() implies #[trigger] seqs[k] == (oldest - 1) + 1 + (k - 0) by {
        assert(seqs[k] == es[k].sequence);
    }
    lemma_count_consecutive(seqs, 0, oldest - 1, latest);
}

/// Recovery hands back for replay exactly the logged entries that the header's
/// oldest sequence number keeps: for a log made of a header (with oldest sequence
/// number `oldest` at most its latest, `latest`) and the records of `es`, the
/// entries to replay are those of `es` numbered at least `oldest`, in file order;
/// when every entry is that recent (as after a checkpoint), all of them, the one
/// numbered `oldest` included.
pub proof fn lemma_get_entries_from_oldest(oldest: u64, latest: u64, es: Seq<EntryView>)
    requires
        oldest <= latest,
        all_recordable(es),
    ensures
        spec_get_entries(wal_header_bytes(oldest, latest) + records_bytes(es)) == Ok::<Seq<EntryView>, WalError>(
            entries_from(es, oldest),
        ),
        (forall|i: int| 0 <= i < es.len() ==> (#[trigger] es[i]).sequence >= oldest) ==> spec_get_entries(
            wal_header_bytes(oldest, latest) + records_bytes(es),
        ) == Ok::<Seq<EntryView>, WalError>(es),
{
    let d = wal_header_bytes(oldest, latest) + records_bytes(es);
    lemma_wal_header_roundtrip(oldest, latest);
    assert(d.subrange(0, WAL_HEADER_SIZE as int) =~= wal_header_bytes(oldest, latest));
    lemma_read_after_append(oldest, latest, es, oldest);
    if forall|i: int| 0 <= i < es.len() ==> (#[trigger] es[i]).sequence >= oldest {
        lemma_entries_from_all(es, oldest);
    }
}


/// A run of consecutive sequence numbers from index `i` up to index `k`, broken at
/// `k` (or ending with the list): counted in full when the break is past `latest`
/// or the list ends, corruption otherwise.
proof fn lemma_count_prefix(seqs: Seq<u64>, i: int, prev: int, latest: u64, k: int)
    requires
        0 <= i <= k <= seqs.len(),
        forall|m: int| i <= m < k ==> #[trigger] seqs[m] == prev + 1 + (m - i),
        k < seqs.len() ==> seqs[k] != prev + 1 + (k - i),
    ensures
        count_run(seqs, i, prev, latest) == (if k == seqs.len() || seqs[k] > latest {
            Ok::<nat, WalError>((k - i) as nat)
        } else {
            Err::<nat, WalError>(WalError::SequenceCorruption)
        }),
    decreases k - i,
{
    if i < k {
        assert(seqs[i] == prev + 1);
        assert forall|m: int| i + 1 <= m < k implies #[trigger] seqs[m] == seqs[i] as int + 1 + (m - (i + 1)) by {}
        lemma_count_prefix(seqs, i + 1, seqs[i] as int, latest, k);
    }
}

/// How recovery judges the entries logged since the header's oldest sequence number
/// `oldest >= 1`: for a log made of a header (oldest `oldest`, latest `latest`) and
/// the records of `es`, all numbered at least `oldest`, whose first `k` entries are
/// numbered `oldest, oldest + 1, ...` and whose next entry (if any) breaks that run,
/// recovery counts those `k` entries when the list ends there or the breaking entry
/// is numbered past `latest` (a write cut short by a crash), and reports sequence
/// corruption when the breaking entry is numbered within `latest`.
pub proof fn lemma_recover_judges_run(oldest: u64, latest: u64, es: Seq<EntryView>, k: int)
    requires
        1 <= oldest <= latest,
        all_recordable(es),
        forall|i: int| 0 <= i < es.len() ==> (#[trigger] es[i]).sequence >= oldest,
        0 <= k <= es.len(),
        forall|i: int| 0 <= i < k ==> (#[trigger] es[i]).sequence == oldest + i,
        k < es.len() ==> es[k].sequence != oldest + k,
    ensures
        spec_recover(wal_header_bytes(oldest, latest) + records_bytes(es)) == (if k == es.len()
            || es[k].sequence > latest {
            Ok::<nat, WalError>(k as nat)
        } else {
            Err::<nat, WalError>(WalError::SequenceCorruption)
        }),
{
    let d = wal_header_bytes(oldest, latest) + records_bytes(es);
    lemma_wal_header_roundtrip(oldest, latest);
    assert(d.subrange(0, WAL_HEADER_SIZE as int) =~= wal_header_bytes(oldest, latest));
    lemma_read_after_append(oldest, latest, es, oldest);
    lemma_entries_from_all(es, oldest);
    assert(spec_read_from(d, oldest) == Ok::<Seq<EntryView>, WalError>(es));
    let seqs = es.map_values(|e: EntryView| e.sequence);
    assert forall|m: int| 0 <= m < k implies #[trigger] seqs[m] == (oldest - 1) + 1 + (m - 0) by {
        assert(seqs[m] == es[m].sequence);
    }
    if k < es.len() {
        assert(seqs[k] == es[k].sequence);
    }
    lemma_count_prefix(seqs, 0, oldest - 1, latest, k);
}

} // verus!
