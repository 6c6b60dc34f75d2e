//! Encoding of one write-ahead-log entry: a committed transaction of one column
//! family.

use crate::codec::{
    append_bytes, from_le128, from_le32, from_le64, le128, le32, le64, push_u128, push_u32,
    push_u64, read_u128, read_u32, read_u64,
};
use crate::text::{string_from_utf8, utf8_failure};
use crate::wal::page::{page_at, page_bytes, BtreeHeader, Checksum, PageNumber};
use vstd::prelude::*;
use vstd::slice::slice_subrange;
use vstd::string::*;
use vstd::utf8::*;

verus! {

/// Durability setting of a transaction.
#[derive(Debug, Clone, Copy, PartialEq, Eq, Structural)]
pub enum Durability {
    /// Commits are not persisted until a later durable commit.
    NoSync,
    /// Commits are persisted before the commit returns.
    Immediate,
}

/// A field of a log entry, named in truncation errors.
#[derive(Debug, Clone, Copy, PartialEq, Eq, Structural)]
pub enum WalField {
    Sequence,
    CfNameLength,
    CfName,
    TransactionId,
    UserRootFlag,
    UserRoot,
    SystemRootFlag,
    SystemRoot,
    FreedPagesCount,
    FreedPage,
    AllocatedPagesCount,
    AllocatedPage,
    Durability,
}

/// Errors reported when decoding log entries and the log file.
#[derive(Debug, Clone, Copy, PartialEq, Eq, Structural)]
pub enum WalError {
    /// The bytes end inside the named field.
    Truncated { field: WalField },
    /// The column family name is not valid UTF-8: the length of its longest valid
    /// prefix, and of the invalid sequence after it (`None` if the name ends inside
    /// a sequence).
    InvalidUtf8 { valid_up_to: usize, error_len: Option<usize> },
    /// The durability byte is neither 0 nor 1.
    InvalidDurability { value: u8 },
    /// The log file does not start with the log magic number.
    BadMagic,
    /// The log file has an unsupported format version.
    UnsupportedVersion { version: u8 },
    /// The log header checksum does not match its contents.
    HeaderChecksumMismatch,
    /// The log file is shorter than its header.
    HeaderTruncated,
    /// Entries within the recorded sequence range are out of order.
    SequenceCorruption,
    /// A record's length runs past the end of the log file.
    RecordTruncated,
}

/// Kind of a [`WalError`], as an I/O error kind.
impl WalError {
    /// `UnexpectedEof` for truncation, `InvalidData` otherwise.
    pub fn kind(&self) -> (k: crate::header::ErrorKind)
        ensures
            k == (if self is Truncated || self is HeaderTruncated || self is RecordTruncated {
                crate::header::ErrorKind::UnexpectedEof
            } else {
                crate::header::ErrorKind::InvalidData
            }),
    {
        match self {
            WalError::Truncated { .. } => crate::header::ErrorKind::UnexpectedEof,
            WalError::HeaderTruncated => crate::header::ErrorKind::UnexpectedEof,
            WalError::RecordTruncated => crate::header::ErrorKind::UnexpectedEof,
            _ => crate::header::ErrorKind::InvalidData,
        }
    }
}

/// The payload of a WAL entry containing all information needed to replay a transaction.
#[derive(Debug, Clone, PartialEq, Eq)]
pub struct WALTransactionPayload {
    /// Root of the user data B-tree after this transaction.
    pub user_root: Option<(PageNumber, Checksum)>,
    /// Root of the system B-tree after this transaction.
    pub system_root: Option<(PageNumber, Checksum)>,
    /// Pages freed by this transaction.
    pub freed_pages: Vec<PageNumber>,
    /// Pages allocated by this transaction.
    pub allocated_pages: Vec<PageNumber>,
    /// The durability the transaction was committed with.
    pub durability: Durability,
}

/// Abstract value of a [`WALTransactionPayload`].
pub struct PayloadView {
    pub user_root: Option<(PageNumber, u128)>,
    pub system_root: Option<(PageNumber, u128)>,
    pub freed_pages: Seq<PageNumber>,
    pub allocated_pages: Seq<PageNumber>,
    pub durability: Durability,
}

impl View for WALTransactionPayload {
    type V = PayloadView;

    open spec fn view(&self) -> PayloadView {
        PayloadView {
            user_root: self.user_root,
            system_root: self.system_root,
            freed_pages: self.freed_pages@,
            allocated_pages: self.allocated_pages@,
            durability: self.durability,
        }
    }
}

/// A single entry in the Write-Ahead Log: a committed transaction of one column
/// family, durably logged but possibly not yet applied to the main file.
#[derive(Debug, Clone, PartialEq, Eq)]
pub struct WALEntry {
    /// Monotonic sequence number assigned by the journal.
    pub sequence: u64,
    /// Name of the column family this transaction belongs to.
    pub cf_name: String,
    /// Transaction ID of the transaction.
    pub transaction_id: u64,
    /// The serialized transaction payload.
    pub payload: WALTransactionPayload,
}

/// Abstract value of a [`WALEntry`].
pub struct EntryView {
    pub sequence: u64,
    pub cf_name: Seq<char>,
    pub transaction_id: u64,
    pub payload: PayloadView,
}

impl View for WALEntry {
    type V = EntryView;

    open spec fn view(&self) -> EntryView {
        EntryView {
            sequence: self.sequence,
            cf_name: self.cf_name@,
            transaction_id: self.transaction_id,
            payload: self.payload@,
        }
    }
}

// ---------------------------------------------------------------------------
// Encoding
// ---------------------------------------------------------------------------

/// The byte that records a durability setting.
pub open spec fn durability_byte(d: Durability) -> u8 {
    match d {
        Durability::NoSync => 0,
        Durability::Immediate => 1,
    }
}

/// Encoding of an optional root: flag 1, page number, checksum; or flag 0.
pub open spec fn root_bytes(r: Option<(PageNumber, u128)>) -> Seq<u8> {
    match r {
        Some((p, c)) => seq![1u8] + page_bytes(p) + le128(c),
        None => seq![0u8],
    }
}

/// Concatenated encodings of page numbers.
pub open spec fn pages_bytes(ps: Seq<PageNumber>) -> Seq<u8>
    decreases ps.len(),
{
    if ps.len() == 0 {
        Seq::empty()
    } else {
        pages_bytes(ps.drop_last()) + page_bytes(ps.last())
    }
}

/// Encoding of a payload:
/// user root | system root | freed count (u32) | freed pages | allocated count (u32) |
/// allocated pages | durability byte.
pub open spec fn payload_bytes(p: PayloadView) -> Seq<u8> {
    root_bytes(p.user_root) + root_bytes(p.system_root) + le32(p.freed_pages.len() as u32)
        + pages_bytes(p.freed_pages) + le32(p.allocated_pages.len() as u32) + pages_bytes(
        p.allocated_pages,
    ) + seq![durability_byte(p.durability)]
}

/// Encoding of an entry: sequence (u64) | name length (u32) | name | transaction id
/// (u64) | payload. Lengths are written truncated to 32 bits.
pub open spec fn entry_bytes(e: EntryView) -> Seq<u8> {
    le64(e.sequence) + le32(encode_utf8(e.cf_name).len() as u32) + encode_utf8(e.cf_name) + le64(
        e.transaction_id,
    ) + payload_bytes(e.payload)
}

// ---------------------------------------------------------------------------
// Decoding
// ---------------------------------------------------------------------------

/// Abstract value of a [`WalError`] (the same value).
pub open spec fn truncated(field: WalField) -> WalError {
    WalError::Truncated { field }
}

/// Decoding of an optional root at `off`: the root and the offset after it. A flag
/// byte other than 1 means no root.
pub open spec fn parse_root(d: Seq<u8>, off: int, flag: WalField, root: WalField) -> Result<
    (Option<(PageNumber, u128)>, int),
    WalError,
> {
    if d.len() < off + 1 {
        Err(truncated(flag))
    } else if d[off] == 1 {
        if d.len() < off + 1 + 24 {
            Err(truncated(root))
        } else {
            Ok((Some((page_at(d, off + 1), from_le128(d.subrange(off + 9, off + 25)))), off + 25))
        }
    } else {
        Ok((None, off + 1))
    }
}

/// Decoding of a counted list of page numbers at `off`.
pub open spec fn parse_pages(d: Seq<u8>, off: int, count: WalField, page: WalField) -> Result<
    (Seq<PageNumber>, int),
    WalError,
> {
    if d.len() < off + 4 {
        Err(truncated(count))
    } else {
        let n = from_le32(d.subrange(off, off + 4)) as int;
        if d.len() < off + 4 + 8 * n {
            Err(truncated(page))
        } else {
            Ok((Seq::new(n as nat, |k: int| page_at(d, off + 4 + 8 * k)), off + 4 + 8 * n))
        }
    }
}

/// Decoding of a payload at the start of `d`: the payload and its length.
pub open spec fn parse_payload(d: Seq<u8>) -> Result<(PayloadView, int), WalError> {
    match parse_root(d, 0, WalField::UserRootFlag, WalField::UserRoot) {
        Err(e) => Err(e),
        Ok((user_root, o1)) => match parse_root(
            d,
            o1,
            WalField::SystemRootFlag,
            WalField::SystemRoot,
        ) {
            Err(e) => Err(e),
            Ok((system_root, o2)) => match parse_pages(
                d,
                o2,
                WalField::FreedPagesCount,
                WalField::FreedPage,
            ) {
                Err(e) => Err(e),
                Ok((freed, o3)) => match parse_pages(
                    d,
                    o3,
                    WalField::AllocatedPagesCount,
                    WalField::AllocatedPage,
                ) {
                    Err(e) => Err(e),
                    Ok((allocated, o4)) => if d.len() < o4 + 1 {
                        Err(truncated(WalField::Durability))
                    } else if d[o4] > 1 {
                        Err(WalError::InvalidDurability { value: d[o4] })
                    } else {
                        Ok(
                            (
                                PayloadView {
                                    user_root,
                                    system_root,
                                    freed_pages: freed,
                                    allocated_pages: allocated,
                                    durability: if d[o4] == 0 {
                                        Durability::NoSync
                                    } else {
                                        Durability::Immediate
                                    },
                                },
                                o4 + 1,
                            ),
                        )
                    },
                },
            },
        },
    }
}

/// Decoding of an entry at the start of `d`: the entry and its length.
pub open spec fn parse_entry(d: Seq<u8>) -> Result<(EntryView, int), WalError> {
    if d.len() < 8 {
        Err(truncated(WalField::Sequence))
    } else if d.len() < 12 {
        Err(truncated(WalField::CfNameLength))
    } else {
        let nl = from_le32(d.subrange(8, 12)) as int;
        if d.len() < 12 + nl {
            Err(truncated(WalField::CfName))
        } else if !valid_utf8(d.subrange(12, 12 + nl)) {
            Err(WalError::InvalidUtf8 {
                valid_up_to: utf8_failure(d.subrange(12, 12 + nl)).0,
                error_len: utf8_failure(d.subrange(12, 12 + nl)).1,
            })
        } else if d.len() < 20 + nl {
            Err(truncated(WalField::TransactionId))
        } else {
            match parse_payload(d.subrange(20 + nl, d.len() as int)) {
                Err(e) => Err(e),
                Ok((p, c)) => Ok(
                    (
                        EntryView {
                            sequence: from_le64(d.subrange(0, 8)),
                            cf_name: decode_utf8(d.subrange(12, 12 + nl)),
                            transaction_id: from_le64(d.subrange(12 + nl, 20 + nl)),
                            payload: p,
                        },
                        20 + nl + c,
                    ),
                ),
            }
        }
    }
}

/// Appends the encoding of an optional root.
fn push_root(buf: &mut Vec<u8>, r: Option<(PageNumber, Checksum)>)
    ensures
        final(buf)@ == old(buf)@ + root_bytes(r),
{
    let ghost start = buf@;
    match r {
        Some((page_num, checksum)) => {
            buf.push(1);
            let pb = page_num.to_le_bytes();
            append_bytes(buf, pb.as_slice());
            push_u128(buf, checksum);
            assert(buf@ =~= start + root_bytes(r));
        },
        None => {
            buf.push(0);
            assert(buf@ =~= start + root_bytes(r));
        },
    }
}

/// Appends a count (truncated to 32 bits) and the page numbers.
fn push_pages(buf: &mut Vec<u8>, pages: &Vec<PageNumber>)
    ensures
        final(buf)@ == old(buf)@ + le32(pages@.len() as u32) + pages_bytes(pages@),
{
    push_u32(buf, pages.len() as u32);
    let ghost prefix = buf@;
    let mut i: usize = 0;
    while i < pages.len()
        invariant
            i <= pages@.len(),
            buf@ == prefix + pages_bytes(pages@.subrange(0, i as int)),
        decreases pages@.len() - i,
    {
        let pb = pages[i].to_le_bytes();
        append_bytes(buf, pb.as_slice());
        assert(pages@.subrange(0, i as int + 1).drop_last() =~= pages@.subrange(0, i as int));
        i = i + 1;
        assert(buf@ =~= prefix + pages_bytes(pages@.subrange(0, i as int)));
    }
    assert(pages@.subrange(0, i as int) =~= pages@);
}

/// Decodes an optional root at `off`.
fn read_root(data: &[u8], off: usize, flag: WalField, root: WalField) -> (r: Result<
    (Option<(PageNumber, Checksum)>, usize),
    WalError,
>)
    requires
        off <= data@.len(),
    ensures
        match r {
            Ok((v, o)) => parse_root(data@, off as int, flag, root) == Ok::<
                (Option<(PageNumber, u128)>, int),
                WalError,
            >((v, o as int)) && o <= data@.len(),
            Err(e) => parse_root(data@, off as int, flag, root) == Err::<
                (Option<(PageNumber, u128)>, int),
                WalError,
            >(e),
        },
{
    let len = data.len();
    if len - off < 1 {
        return Err(WalError::Truncated { field: flag });
    }
    if data[off] == 1 {
        if len - off - 1 < 24 {
            return Err(WalError::Truncated { field: root });
        }
        let pslice = slice_subrange(data, off + 1, off + 9);
        let page_num = PageNumber::from_le_bytes(pslice);
        assert(pslice@.subrange(0, 8) =~= data@.subrange(off + 1, off + 9));
        let checksum = read_u128(data, off + 9);
        Ok((Some((page_num, checksum)), off + 25))
    } else {
        Ok((None, off + 1))
    }
}

/// Decodes a counted list of page numbers at `off`.
fn read_pages(data: &[u8], off: usize, count: WalField, page: WalField) -> (r: Result<
    (Vec<PageNumber>, usize),
    WalError,
>)
    requires
        off <= data@.len(),
    ensures
        match r {
            Ok((v, o)) => parse_pages(data@, off as int, count, page) == Ok::<
                (Seq<PageNumber>, int),
                WalError,
            >((v@, o as int)) && o <= data@.len(),
            Err(e) => parse_pages(data@, off as int, count, page) == Err::<
                (Seq<PageNumber>, int),
                WalError,
            >(e),
        },
{
    let ghost d = data@;
    let len = data.len();
    if len - off < 4 {
        return Err(WalError::Truncated { field: count });
    }
    let n = read_u32(data, off) as usize;
    let mut pages: Vec<PageNumber> = Vec::new();
    let mut offset = off + 4;
    let mut i: usize = 0;
    while i < n
        invariant
            d == data@,
            len == d.len(),
            off + 4 <= len,
            n == from_le32(d.subrange(off as int, off + 4)),
            i <= n,
            offset == off + 4 + 8 * i,
            offset <= len,
            pages@ == Seq::new(i as nat, |k: int| page_at(d, off + 4 + 8 * k)),
        decreases n - i,
    {
        if len - offset < 8 {
            assert(8 * (i as int) + 8 <= 8 * (n as int)) by (nonlinear_arith)
                requires
                    i < n,
            ;
            return Err(WalError::Truncated { field: page });
        }
        let pslice = slice_subrange(data, offset, offset + 8);
        let pn = PageNumber::from_le_bytes(pslice);
        assert(pslice@.subrange(0, 8) =~= d.subrange(offset as int, offset + 8));
        pages.push(pn);
        offset = offset + 8;
        i = i + 1;
        assert(pages@ =~= Seq::new(i as nat, |k: int| page_at(d, off + 4 + 8 * k)));
    }
    Ok((pages, offset))
}

impl WALTransactionPayload {
    /// Creates a new transaction payload from the two B-tree roots (their root pages
    /// and checksums are recorded) and the page lists.
    pub fn new(
        user_root: Option<BtreeHeader>,
        system_root: Option<BtreeHeader>,
        freed_pages: Vec<PageNumber>,
        allocated_pages: Vec<PageNumber>,
        durability: Durability,
    ) -> (p: Self)
        ensures
            p.user_root == (match user_root {
                Some(h) => Some((h.root, h.checksum)),
                None => None,
            }),
            p.system_root == (match system_root {
                Some(h) => Some((h.root, h.checksum)),
                None => None,
            }),
            p.freed_pages == freed_pages,
            p.allocated_pages == allocated_pages,
            p.durability == durability,
    {
        let user_root = match user_root {
            Some(h) => Some((h.root, h.checksum)),
            None => None,
        };
        let system_root = match system_root {
            Some(h) => Some((h.root, h.checksum)),
            None => None,
        };
        Self { user_root, system_root, freed_pages, allocated_pages, durability }
    }

    /// Serializes the payload into the given buffer.
    ///
    /// Format:
    /// - user_root_present: u8 (1 = present, 0 = None)
    /// - user_root: PageNumber (8 bytes) + Checksum (16 bytes) if present
    /// - system_root_present: u8
    /// - system_root: PageNumber + Checksum if present
    /// - freed_pages_count: u32 (4 bytes)
    /// - freed_pages: [PageNumber; count] (8 bytes each)
    /// - allocated_pages_count: u32 (4 bytes)
    /// - allocated_pages: [PageNumber; count] (8 bytes each)
    /// - durability: u8 (1 byte)
    pub fn serialize_into(&self, buf: &mut Vec<u8>)
        ensures
            final(buf)@ == old(buf)@ + payload_bytes(self@),
    {
        let ghost start = buf@;
        push_root(buf, self.user_root);
        push_root(buf, self.system_root);
        push_pages(buf, &self.freed_pages);
        push_pages(buf, &self.allocated_pages);
        let durability_byte: u8 = match self.durability {
            Durability::NoSync => 0,
            Durability::Immediate => 1,
        };
        buf.push(durability_byte);
        assert(buf@ =~= start + payload_bytes(self@));
    }

    /// Deserializes the payload from bytes.
    ///
    /// Returns the payload and the number of bytes consumed.
    pub fn deserialize_from(data: &[u8]) -> (r: Result<(Self, usize), WalError>)
        ensures
            match r {
                Ok((p, n)) => parse_payload(data@) == Ok::<(PayloadView, int), WalError>((p@, n as int)),
                Err(e) => parse_payload(data@) == Err::<(PayloadView, int), WalError>(e),
            },
    {
        let (user_root, o1) = read_root(data, 0, WalField::UserRootFlag, WalField::UserRoot)?;
        let (system_root, o2) = read_root(data, o1, WalField::SystemRootFlag, WalField::SystemRoot)?;
        let (freed_pages, o3) = read_pages(data, o2, WalField::FreedPagesCount, WalField::FreedPage)?;
        let (allocated_pages, o4) = read_pages(
            data,
            o3,
            WalField::AllocatedPagesCount,
            WalField::AllocatedPage,
        )?;
        if data.len() - o4 < 1 {
            return Err(WalError::Truncated { field: WalField::Durability });
        }
        let durability = match data[o4] {
            0 => Durability::NoSync,
            1 => Durability::Immediate,
            other => {
                return Err(WalError::InvalidDurability { value: other });
            },
        };
        let p = Self { user_root, system_root, freed_pages, allocated_pages, durability };
        Ok((p, o4 + 1))
    }
}

impl WALEntry {
    /// Creates a new WAL entry. The sequence number (0 here) is assigned by the
    /// journal during append.
    pub fn new(cf_name: String, transaction_id: u64, payload: WALTransactionPayload) -> (e: Self)
        ensures
            e.sequence == 0,
            e.cf_name == cf_name,
            e.transaction_id == transaction_id,
            e.payload == payload,
    {
        Self { sequence: 0, cf_name, transaction_id, payload }
    }

    /// Serializes the entry to bytes.
    ///
    /// Format:
    /// - sequence: u64 (8 bytes)
    /// - cf_name_len: u32 (4 bytes)
    /// - cf_name: [u8; cf_name_len] (variable)
    /// - transaction_id: u64 (8 bytes)
    /// - payload: serialized WALTransactionPayload (variable)
    pub fn to_bytes(&self) -> (bytes: Vec<u8>)
        ensures
            bytes@ == entry_bytes(self@),
    {
        let mut buf = Vec::new();
        push_u64(&mut buf, self.sequence);
        let cf_name_bytes = self.cf_name.as_str().as_bytes();
        push_u32(&mut buf, cf_name_bytes.len() as u32);
        append_bytes(&mut buf, cf_name_bytes);
        push_u64(&mut buf, self.transaction_id);
        self.payload.serialize_into(&mut buf);
        assert(buf@ =~= entry_bytes(self@));
        buf
    }

    /// Deserializes an entry from bytes.
    ///
    /// Returns the entry and the number of bytes consumed.
    pub fn from_bytes(data: &[u8]) -> (r: Result<(Self, usize), WalError>)
        ensures
            match r {
                Ok((e, n)) => parse_entry(data@) == Ok::<(EntryView, int), WalError>((e@, n as int)),
                Err(err) => parse_entry(data@) == Err::<(EntryView, int), WalError>(err),
            },
    {
        let len = data.len();
        if len < 8 {
            return Err(WalError::Truncated { field: WalField::Sequence });
        }
        let sequence = read_u64(data, 0);
        if len < 12 {
            return Err(WalError::Truncated { field: WalField::CfNameLength });
        }
        let cf_name_len = read_u32(data, 8) as usize;
        if len - 12 < cf_name_len {
            return Err(WalError::Truncated { field: WalField::CfName });
        }
        let cf_name = match string_from_utf8(slice_subrange(data, 12, 12 + cf_name_len)) {
            Ok(s) => s,
            Err((valid_up_to, error_len)) => return Err(WalError::InvalidUtf8 { valid_up_to, error_len }),
        };
        let offset = 12 + cf_name_len;
        if len - offset < 8 {
            return Err(WalError::Truncated { field: WalField::TransactionId });
        }
        let transaction_id = read_u64(data, offset);
        let rest = slice_subrange(data, offset + 8, len);
        let (payload, payload_len) = WALTransactionPayload::deserialize_from(rest)?;
        Ok((Self { sequence, cf_name, transaction_id, payload }, offset + 8 + payload_len))
    }
}

} // verus!
