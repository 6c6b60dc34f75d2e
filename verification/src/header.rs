//! The master header: the first page of a column-family database file, which
//! lists every column family with its segments and the free segments.

use crate::checksum::{crc32, crc32_of};
use crate::text::{
    alt_hex, decimal, push_alt_hex, push_decimal, push_utf8_failure, string_from_utf8, utf8_failure,
    utf8_failure_text,
};
use crate::codec::{append_bytes, from_le32, from_le64, le32, le64, push_u32, push_u64, read_u32, read_u64, lemma_le_roundtrip};
use vstd::prelude::*;
use vstd::slice::slice_subrange;
use vstd::utf8::*;
use vstd::string::*;

verus! {

broadcast use vstd::utf8::group_utf8_lib;

/// Magic number identifying a column family database file.
///
/// The sequence includes DOS/Unix line ending detection bytes (0x1A, 0x0A) to help
/// detect text-mode corruption.
pub const MAGIC_NUMBER: [u8; 9] = [0x6d, 0x6e, 0x66, 0x64, 0x2d, 0x63, 0x66, 0x1a, 0x0a];

/// Current format version for the master header.
/// Version 2 introduces segmented column families with free space tracking.
pub const FORMAT_VERSION: u8 = 2;

/// Size of one page in bytes (4KB). The master header must fit within a single page.
pub const PAGE_SIZE: usize = 4096;

/// The bytes of `MAGIC_NUMBER`.
pub open spec fn magic_bytes() -> Seq<u8> {
    seq![0x6du8, 0x6eu8, 0x66u8, 0x64u8, 0x2du8, 0x63u8, 0x66u8, 0x1au8, 0x0au8]
}

/// A contiguous segment of storage within the database file.
#[derive(Debug, Clone, Copy, PartialEq, Eq, Structural)]
pub struct Segment {
    /// Absolute byte offset where this segment begins in the file.
    pub offset: u64,
    /// Size of this segment in bytes.
    pub size: u64,
}

/// A free (deleted/unused) segment that can be reclaimed.
#[derive(Debug, Clone, Copy, PartialEq, Eq, Structural)]
pub struct FreeSegment {
    /// Absolute byte offset where this free segment begins.
    pub offset: u64,
    /// Size of this free segment in bytes.
    pub size: u64,
}

/// Metadata describing a column family composed of one or more segments.
#[derive(Debug, Clone, PartialEq, Eq)]
pub struct ColumnFamilyMetadata {
    /// Name of the column family.
    pub name: String,
    /// Segments that make up this column family.
    pub segments: Vec<Segment>,
}

/// Abstract value of a [`ColumnFamilyMetadata`].
pub struct MetadataView {
    pub name: Seq<char>,
    pub segments: Seq<Segment>,
}

impl View for ColumnFamilyMetadata {
    type V = MetadataView;

    open spec fn view(&self) -> MetadataView {
        MetadataView { name: self.name@, segments: self.segments@ }
    }
}

/// Master header describing the layout of all column families within a database file.
#[derive(Debug, Clone, PartialEq, Eq)]
pub struct MasterHeader {
    /// Version of the header format.
    pub version: u8,
    /// Metadata for all column families in the database.
    pub column_families: Vec<ColumnFamilyMetadata>,
    /// Free segments available for reuse.
    pub free_segments: Vec<FreeSegment>,
}

/// Abstract value of a [`MasterHeader`].
pub struct HeaderView {
    pub version: u8,
    pub column_families: Seq<MetadataView>,
    pub free_segments: Seq<FreeSegment>,
}

impl View for MasterHeader {
    type V = HeaderView;

    open spec fn view(&self) -> HeaderView {
        HeaderView {
            version: self.version,
            column_families: self.column_families@.map_values(|c: ColumnFamilyMetadata| c@),
            free_segments: self.free_segments@,
        }
    }
}

// ---------------------------------------------------------------------------
// Encoding
// ---------------------------------------------------------------------------

/// Encoding of one segment (or free segment): `offset` (u64) | `size` (u64).
pub open spec fn segment_bytes(offset: u64, size: u64) -> Seq<u8> {
    le64(offset) + le64(size)
}

/// Concatenated encodings of a list of segments.
pub open spec fn segments_bytes(segs: Seq<Segment>) -> Seq<u8>
    decreases segs.len(),
{
    if segs.len() == 0 {
        Seq::empty()
    } else {
        segments_bytes(segs.drop_last()) + segment_bytes(segs.last().offset, segs.last().size)
    }
}

/// Concatenated encodings of a list of free segments.
pub open spec fn free_segments_bytes(segs: Seq<FreeSegment>) -> Seq<u8>
    decreases segs.len(),
{
    if segs.len() == 0 {
        Seq::empty()
    } else {
        free_segments_bytes(segs.drop_last()) + segment_bytes(
            segs.last().offset,
            segs.last().size,
        )
    }
}

/// UTF-8 bytes of a name.
pub open spec fn name_bytes(name: Seq<char>) -> Seq<u8> {
    encode_utf8(name)
}

/// Whether a metadata entry can be encoded: its name and segment count fit in a u32.
pub open spec fn metadata_encodable(m: MetadataView) -> bool {
    &&& name_bytes(m.name).len() <= u32::MAX
    &&& m.segments.len() <= u32::MAX
}

/// Encoding of a metadata entry:
/// `name_len` (u32) | `name_bytes` | `segment_count` (u32) | segments.
pub open spec fn metadata_bytes(m: MetadataView) -> Seq<u8> {
    le32(name_bytes(m.name).len() as u32) + name_bytes(m.name) + le32(m.segments.len() as u32)
        + segments_bytes(m.segments)
}

/// Concatenated encodings of a list of metadata entries.
pub open spec fn metadata_list_bytes(cfs: Seq<MetadataView>) -> Seq<u8>
    decreases cfs.len(),
{
    if cfs.len() == 0 {
        Seq::empty()
    } else {
        metadata_list_bytes(cfs.drop_last()) + metadata_bytes(cfs.last())
    }
}

/// Whether a header can be encoded at all (each count and name length fits in a u32).
pub open spec fn header_encodable(h: HeaderView) -> bool {
    &&& h.column_families.len() <= u32::MAX
    &&& h.free_segments.len() <= u32::MAX
    &&& forall|i: int|
        0 <= i < h.column_families.len() ==> #[trigger] metadata_encodable(h.column_families[i])
}

/// The header contents before padding: magic | version | `cf_count` (u32) |
/// metadata entries | `free_count` (u32) | free segments.
pub open spec fn header_body(h: HeaderView) -> Seq<u8> {
    magic_bytes() + seq![h.version] + le32(h.column_families.len() as u32) + metadata_list_bytes(
        h.column_families,
    ) + le32(h.free_segments.len() as u32) + free_segments_bytes(h.free_segments)
}

/// `n` zero bytes.
pub open spec fn zeros(n: nat) -> Seq<u8> {
    Seq::new(n, |i: int| 0u8)
}

/// The first `PAGE_SIZE - 4` bytes of an encoded header: the body padded with zeros.
pub open spec fn header_padded(h: HeaderView) -> Seq<u8> {
    header_body(h) + zeros((PAGE_SIZE - 4 - header_body(h).len()) as nat)
}

/// The full encoded page: the padded body followed by the CRC-32 of the padded body.
pub open spec fn header_page(h: HeaderView) -> Seq<u8> {
    header_padded(h) + le32(crc32_of(header_padded(h)))
}

/// Appends a zero byte `n` times.
fn push_zeros(buf: &mut Vec<u8>, n: usize)
    ensures
        final(buf)@ == old(buf)@ + zeros(n as nat),
{
    let ghost start = buf@;
    let mut i: usize = 0;
    while i < n
        invariant
            i <= n,
            buf@ == start + zeros(i as nat),
        decreases n - i,
    {
        buf.push(0u8);
        i = i + 1;
        assert(buf@ =~= start + zeros(i as nat));
    }
}

/// Appends the magic number.
fn push_magic(buf: &mut Vec<u8>)
    ensures
        final(buf)@ == old(buf)@ + magic_bytes(),
{
    let ghost start = buf@;
    buf.push(0x6d);
    buf.push(0x6e);
    buf.push(0x66);
    buf.push(0x64);
    buf.push(0x2d);
    buf.push(0x63);
    buf.push(0x66);
    buf.push(0x1a);
    buf.push(0x0a);
    assert(buf@ =~= start + magic_bytes());
}

impl Segment {
    /// Creates a new segment.
    pub fn new(offset: u64, size: u64) -> (s: Self)
        ensures
            s.offset == offset,
            s.size == size,
    {
        Self { offset, size }
    }

    /// The end offset (exclusive) of this segment.
    pub open spec fn spec_end(&self) -> int {
        self.offset + self.size
    }

    /// Returns the end offset (exclusive) of this segment.
    pub fn end(&self) -> (e: u64)
        requires
            self.offset + self.size <= u64::MAX,
        ensures
            e == self.offset + self.size,
    {
        self.offset + self.size
    }

    /// Serializes this segment to bytes. Format: `offset` (u64) | `size` (u64)
    pub fn to_bytes(&self) -> (bytes: Vec<u8>)
        ensures
            bytes@ == segment_bytes(self.offset, self.size),
    {
        let mut bytes = Vec::new();
        push_u64(&mut bytes, self.offset);
        push_u64(&mut bytes, self.size);
        assert(bytes@ =~= segment_bytes(self.offset, self.size));
        bytes
    }
}

impl FreeSegment {
    /// Creates a new free segment.
    pub fn new(offset: u64, size: u64) -> (s: Self)
        ensures
            s.offset == offset,
            s.size == size,
    {
        Self { offset, size }
    }

    /// Serializes this free segment to bytes. Format: `offset` (u64) | `size` (u64)
    pub fn to_bytes(&self) -> (bytes: Vec<u8>)
        ensures
            bytes@ == segment_bytes(self.offset, self.size),
    {
        let mut bytes = Vec::new();
        push_u64(&mut bytes, self.offset);
        push_u64(&mut bytes, self.size);
        assert(bytes@ =~= segment_bytes(self.offset, self.size));
        bytes
    }
}

/// A copy of a list of segments.
pub fn copy_segments(segs: &Vec<Segment>) -> (r: Vec<Segment>)
    ensures
        r@ == segs@,
{
    let mut r: Vec<Segment> = Vec::new();
    let mut i: usize = 0;
    while i < segs.len()
        invariant
            i <= segs@.len(),
            r@ == segs@.subrange(0, i as int),
        decreases segs@.len() - i,
    {
        r.push(segs[i]);
        i = i + 1;
        assert(r@ =~= segs@.subrange(0, i as int));
    }
    assert(r@ =~= segs@);
    r
}

/// Sum of the sizes of a list of segments.
pub open spec fn total_size_of(segs: Seq<Segment>) -> int
    decreases segs.len(),
{
    if segs.len() == 0 {
        0
    } else {
        total_size_of(segs.drop_last()) + segs.last().size
    }
}

impl ColumnFamilyMetadata {
    /// Creates a new column family metadata entry with a single segment.
    pub fn new(name: String, offset: u64, size: u64) -> (m: Self)
        ensures
            m@.name == name@,
            m@.segments == seq![Segment { offset, size }],
    {
        let mut segments = Vec::new();
        segments.push(Segment::new(offset, size));
        Self { name, segments }
    }

    /// Creates a new column family metadata entry with multiple segments.
    pub fn with_segments(name: String, segments: Vec<Segment>) -> (m: Self)
        ensures
            m@.name == name@,
            m@.segments == segments@,
    {
        Self { name, segments }
    }

    /// Returns the total size of all segments.
    pub fn total_size(&self) -> (t: u64)
        requires
            total_size_of(self.segments@) <= u64::MAX,
        ensures
            t == total_size_of(self.segments@),
    {
        let mut sum: u64 = 0;
        let mut i: usize = 0;
        while i < self.segments.len()
            invariant
                i <= self.segments@.len(),
                sum == total_size_of(self.segments@.subrange(0, i as int)),
                total_size_of(self.segments@) <= u64::MAX,
            decreases self.segments@.len() - i,
        {
            proof {
                lemma_total_size_prefix_monotone(self.segments@, i as int + 1);
                assert(self.segments@.subrange(0, i as int + 1).drop_last() =~= self.segments@.subrange(0, i as int));
            }
            sum = sum + self.segments[i].size;
            i = i + 1;
        }
        assert(self.segments@.subrange(0, i as int) =~= self.segments@);
        sum
    }

    /// Serializes this metadata entry to bytes.
    ///
    /// Format: `name_len` (u32) | `name_bytes` | `segment_count` (u32) | segments
    pub fn to_bytes(&self) -> (bytes: Vec<u8>)
        ensures
            bytes@ == metadata_bytes(self@),
    {
        let name_bytes = self.name.as_str().as_bytes();
        let name_len = name_bytes.len() as u32;
        let segment_count = self.segments.len() as u32;
        let mut bytes = Vec::new();
        push_u32(&mut bytes, name_len);
        append_bytes(&mut bytes, name_bytes);
        push_u32(&mut bytes, segment_count);
        let ghost prefix = bytes@;
        let mut i: usize = 0;
        while i < self.segments.len()
            invariant
                i <= self.segments@.len(),
                bytes@ == prefix + segments_bytes(self.segments@.subrange(0, i as int)),
            decreases self.segments@.len() - i,
        {
            let sb = self.segments[i].to_bytes();
            append_bytes(&mut bytes, sb.as_slice());
            proof {
                assert(self.segments@.subrange(0, i as int + 1).drop_last() =~= self.segments@.subrange(0, i as int));
            }
            i = i + 1;
            assert(bytes@ =~= prefix + segments_bytes(self.segments@.subrange(0, i as int)));
        }
        assert(self.segments@.subrange(0, i as int) =~= self.segments@);
        bytes
    }
}

/// Totals of prefixes never exceed the total of the whole list.
pub proof fn lemma_total_size_prefix_monotone(segs: Seq<Segment>, k: int)
    requires
        0 <= k <= segs.len(),
    ensures
        total_size_of(segs.subrange(0, k)) <= total_size_of(segs),
    decreases segs.len() - k,
{
    if k < segs.len() {
        lemma_total_size_prefix_monotone(segs, k + 1);
        assert(segs.subrange(0, k + 1).drop_last() =~= segs.subrange(0, k));
    } else {
        assert(segs.subrange(0, k) =~= segs);
    }
}


/// Kinds of errors reported by the formats in this crate and by storage devices.
#[derive(Debug, Clone, Copy, PartialEq, Eq, Structural)]
pub enum ErrorKind {
    /// The bytes do not hold a valid encoding.
    InvalidData,
    /// The value cannot be encoded as requested.
    InvalidInput,
    /// The bytes end before the encoding does.
    UnexpectedEof,
    /// A named item does not exist.
    NotFound,
    /// The device refused the operation for lack of permission.
    PermissionDenied,
    /// Any other failure of the device.
    Other,
}

/// The description of an error kind, as std writes it.
pub open spec fn kind_description(k: ErrorKind) -> Seq<char> {
    match k {
        ErrorKind::InvalidData => "invalid data"@,
        ErrorKind::InvalidInput => "invalid input parameter"@,
        ErrorKind::UnexpectedEof => "unexpected end of file"@,
        ErrorKind::NotFound => "entity not found"@,
        ErrorKind::PermissionDenied => "permission denied"@,
        ErrorKind::Other => "other error"@,
    }
}

impl ErrorKind {
    /// The description of this kind.
    pub fn description(&self) -> (d: String)
        ensures
            d@ == kind_description(*self),
    {
        match self {
            ErrorKind::InvalidData => String::from_str("invalid data"),
            ErrorKind::InvalidInput => String::from_str("invalid input parameter"),
            ErrorKind::UnexpectedEof => String::from_str("unexpected end of file"),
            ErrorKind::NotFound => String::from_str("entity not found"),
            ErrorKind::PermissionDenied => String::from_str("permission denied"),
            ErrorKind::Other => String::from_str("other error"),
        }
    }
}

/// Errors reported when encoding, decoding or validating a master header.
#[derive(Debug, Clone, PartialEq, Eq)]
pub enum HeaderError {
    /// The page is shorter than `PAGE_SIZE`.
    TooShort { need: usize, have: usize },
    /// The first nine bytes are not `MAGIC_NUMBER`.
    BadMagic,
    /// The stored CRC does not match the CRC of the page contents.
    ChecksumMismatch { stored: u32, computed: u32 },
    /// The format version is not `FORMAT_VERSION`.
    UnsupportedVersion { version: u8 },
    /// Fewer than four bytes remain for a name length.
    NameLengthTruncated,
    /// Fewer bytes remain than a metadata entry's name and segment count need.
    MetadataTruncated { required: u64, available: usize },
    /// A column family name is not valid UTF-8: the length of its longest valid
    /// prefix, and of the invalid sequence after it (`None` if the name ends inside
    /// a sequence).
    InvalidUtf8 { valid_up_to: usize, error_len: Option<usize> },
    /// Fewer than sixteen bytes remain for a segment.
    SegmentTruncated,
    /// Fewer than four bytes remain for the free segment count.
    FreeCountTruncated,
    /// Fewer than sixteen bytes remain for a free segment.
    FreeSegmentTruncated,
    /// A column family has an empty name.
    EmptyName,
    /// Two column families share a name.
    DuplicateName { name: String },
    /// A column family segment offset is not a multiple of `PAGE_SIZE`.
    UnalignedSegment { name: String, offset: u64 },
    /// A column family segment has size zero.
    ZeroSizeSegment { name: String },
    /// A column family segment's offset plus size overflows.
    SegmentOverflow { name: String },
    /// A free segment offset is not a multiple of `PAGE_SIZE`.
    UnalignedFreeSegment { offset: u64 },
    /// A free segment has size zero.
    ZeroSizeFreeSegment,
    /// A free segment's offset plus size overflows.
    FreeSegmentOverflow,
    /// Two segments (of column families or free) overlap.
    Overlap { first: String, second: String },
    /// The encoded header does not fit in `PAGE_SIZE - 4` bytes.
    TooLarge { size: usize },
}

/// Abstract value of a [`HeaderError`], with names as character sequences.
pub enum HeaderErrorView {
    TooShort { need: nat, have: nat },
    BadMagic,
    ChecksumMismatch { stored: u32, computed: u32 },
    UnsupportedVersion { version: u8 },
    NameLengthTruncated,
    MetadataTruncated { required: nat, available: nat },
    InvalidUtf8 { valid_up_to: usize, error_len: Option<usize> },
    SegmentTruncated,
    FreeCountTruncated,
    FreeSegmentTruncated,
    EmptyName,
    DuplicateName { name: Seq<char> },
    UnalignedSegment { name: Seq<char>, offset: u64 },
    ZeroSizeSegment { name: Seq<char> },
    SegmentOverflow { name: Seq<char> },
    UnalignedFreeSegment { offset: u64 },
    ZeroSizeFreeSegment,
    FreeSegmentOverflow,
    Overlap { first: Seq<char>, second: Seq<char> },
    TooLarge { size: nat },
}

impl View for HeaderError {
    type V = HeaderErrorView;

    open spec fn view(&self) -> HeaderErrorView {
        match self {
            HeaderError::TooShort { need, have } => HeaderErrorView::TooShort {
                need: *need as nat,
                have: *have as nat,
            },
            HeaderError::BadMagic => HeaderErrorView::BadMagic,
            HeaderError::ChecksumMismatch { stored, computed } => HeaderErrorView::ChecksumMismatch {
                stored: *stored,
                computed: *computed,
            },
            HeaderError::UnsupportedVersion { version } => HeaderErrorView::UnsupportedVersion {
                version: *version,
            },
            HeaderError::NameLengthTruncated => HeaderErrorView::NameLengthTruncated,
            HeaderError::MetadataTruncated { required, available } => HeaderErrorView::MetadataTruncated {
                required: *required as nat,
                available: *available as nat,
            },
            HeaderError::InvalidUtf8 { valid_up_to, error_len } => HeaderErrorView::InvalidUtf8 {
                valid_up_to: *valid_up_to,
                error_len: *error_len,
            },
            HeaderError::SegmentTruncated => HeaderErrorView::SegmentTruncated,
            HeaderError::FreeCountTruncated => HeaderErrorView::FreeCountTruncated,
            HeaderError::FreeSegmentTruncated => HeaderErrorView::FreeSegmentTruncated,
            HeaderError::EmptyName => HeaderErrorView::EmptyName,
            HeaderError::DuplicateName { name } => HeaderErrorView::DuplicateName { name: name@ },
            HeaderError::UnalignedSegment { name, offset } => HeaderErrorView::UnalignedSegment {
                name: name@,
                offset: *offset,
            },
            HeaderError::ZeroSizeSegment { name } => HeaderErrorView::ZeroSizeSegment {
                name: name@,
            },
            HeaderError::SegmentOverflow { name } => HeaderErrorView::SegmentOverflow {
                name: name@,
            },
            HeaderError::UnalignedFreeSegment { offset } => HeaderErrorView::UnalignedFreeSegment {
                offset: *offset,
            },
            HeaderError::ZeroSizeFreeSegment => HeaderErrorView::ZeroSizeFreeSegment,
            HeaderError::FreeSegmentOverflow => HeaderErrorView::FreeSegmentOverflow,
            HeaderError::Overlap { first, second } => HeaderErrorView::Overlap {
                first: first@,
                second: second@,
            },
            HeaderError::TooLarge { size } => HeaderErrorView::TooLarge { size: *size as nat },
        }
    }
}

impl HeaderError {
    /// The kind of this error: `InvalidInput` for an oversized header, `InvalidData`
    /// for everything else.
    pub fn kind(&self) -> (k: ErrorKind)
        ensures
            k == (if self is TooLarge { ErrorKind::InvalidInput } else { ErrorKind::InvalidData }),
    {
        match self {
            HeaderError::TooLarge { .. } => ErrorKind::InvalidInput,
            _ => ErrorKind::InvalidData,
        }
    }
}

/// The message of a header error: the text an I/O error carries for it.
pub open spec fn header_error_message(e: HeaderErrorView) -> Seq<char> {
    match e {
        HeaderErrorView::TooShort { need, have } => "data too short: need "@ + decimal(need) + ", have "@
            + decimal(have),
        HeaderErrorView::BadMagic => "invalid magic number"@,
        HeaderErrorView::ChecksumMismatch { stored, computed } => "header checksum mismatch: expected "@
            + alt_hex(stored as nat) + ", got "@ + alt_hex(computed as nat),
        HeaderErrorView::UnsupportedVersion { version } => "unsupported format version: "@ + decimal(
            version as nat,
        ),
        HeaderErrorView::NameLengthTruncated => "insufficient data for name length"@,
        HeaderErrorView::MetadataTruncated { required, available } =>
            "insufficient data for metadata entry: need at least "@ + decimal(required) + ", have "@
            + decimal(available),
        HeaderErrorView::InvalidUtf8 { valid_up_to, error_len } => "invalid UTF-8 in column family name: "@
            + utf8_failure_text(valid_up_to, error_len),
        HeaderErrorView::SegmentTruncated => "insufficient data for segment"@,
        HeaderErrorView::FreeCountTruncated => "insufficient data for free segment count"@,
        HeaderErrorView::FreeSegmentTruncated => "insufficient data for free segment"@,
        HeaderErrorView::EmptyName => "column family name cannot be empty"@,
        HeaderErrorView::DuplicateName { name } => "duplicate column family name: "@ + name,
        HeaderErrorView::UnalignedSegment { name, offset } => "column family '"@ + name
            + "' segment offset "@ + decimal(offset as nat) + " is not page-aligned"@,
        HeaderErrorView::ZeroSizeSegment { name } => "column family '"@ + name
            + "' has segment with zero size"@,
        HeaderErrorView::SegmentOverflow { name } => "column family '"@ + name
            + "' segment offset + size overflows"@,
        HeaderErrorView::UnalignedFreeSegment { offset } => "free segment offset "@ + decimal(
            offset as nat,
        ) + " is not page-aligned"@,
        HeaderErrorView::ZeroSizeFreeSegment => "free segment has zero size"@,
        HeaderErrorView::FreeSegmentOverflow => "free segment offset + size overflows"@,
        HeaderErrorView::Overlap { first, second } => "segments '"@ + first + "' and '"@ + second
            + "' overlap"@,
        HeaderErrorView::TooLarge { size } => "master header size ("@ + decimal(size)
            + " bytes) exceeds page size minus CRC (4092 bytes)"@,
    }
}

impl HeaderError {
    /// The message of this error.
    pub fn message(&self) -> (m: String)
        ensures
            m@ == header_error_message(self@),
    {
        match self {
            HeaderError::TooShort { need, have } => {
                let mut m = String::from_str("data too short: need ");
                push_decimal(&mut m, *need as u64);
                m.append(", have ");
                push_decimal(&mut m, *have as u64);
                m
            },
            HeaderError::BadMagic => String::from_str("invalid magic number"),
            HeaderError::ChecksumMismatch { stored, computed } => {
                let mut m = String::from_str("header checksum mismatch: expected ");
                push_alt_hex(&mut m, *stored);
                m.append(", got ");
                push_alt_hex(&mut m, *computed);
                m
            },
            HeaderError::UnsupportedVersion { version } => {
                let mut m = String::from_str("unsupported format version: ");
                push_decimal(&mut m, *version as u64);
                m
            },
            HeaderError::NameLengthTruncated => String::from_str("insufficient data for name length"),
            HeaderError::MetadataTruncated { required, available } => {
                let mut m = String::from_str("insufficient data for metadata entry: need at least ");
                push_decimal(&mut m, *required);
                m.append(", have ");
                push_decimal(&mut m, *available as u64);
                m
            },
            HeaderError::InvalidUtf8 { valid_up_to, error_len } => {
                let mut m = String::from_str("invalid UTF-8 in column family name: ");
                push_utf8_failure(&mut m, *valid_up_to, *error_len);
                m
            },
            HeaderError::SegmentTruncated => String::from_str("insufficient data for segment"),
            HeaderError::FreeCountTruncated => String::from_str("insufficient data for free segment count"),
            HeaderError::FreeSegmentTruncated => String::from_str("insufficient data for free segment"),
            HeaderError::EmptyName => String::from_str("column family name cannot be empty"),
            HeaderError::DuplicateName { name } => {
                let mut m = String::from_str("duplicate column family name: ");
                m.append(name.as_str());
                m
            },
            HeaderError::UnalignedSegment { name, offset } => {
                let mut m = String::from_str("column family '");
                m.append(name.as_str());
                m.append("' segment offset ");
                push_decimal(&mut m, *offset);
                m.append(" is not page-aligned");
                m
            },
            HeaderError::ZeroSizeSegment { name } => {
                let mut m = String::from_str("column family '");
                m.append(name.as_str());
                m.append("' has segment with zero size");
                m
            },
            HeaderError::SegmentOverflow { name } => {
                let mut m = String::from_str("column family '");
                m.append(name.as_str());
                m.append("' segment offset + size overflows");
                m
            },
            HeaderError::UnalignedFreeSegment { offset } => {
                let mut m = String::from_str("free segment offset ");
                push_decimal(&mut m, *offset);
                m.append(" is not page-aligned");
                m
            },
            HeaderError::ZeroSizeFreeSegment => String::from_str("free segment has zero size"),
            HeaderError::FreeSegmentOverflow => String::from_str("free segment offset + size overflows"),
            HeaderError::Overlap { first, second } => {
                let mut m = String::from_str("segments '");
                m.append(first.as_str());
                m.append("' and '");
                m.append(second.as_str());
                m.append("' overlap");
                m
            },
            HeaderError::TooLarge { size } => {
                let mut m = String::from_str("master header size (");
                push_decimal(&mut m, *size as u64);
                m.append(" bytes) exceeds page size minus CRC (4092 bytes)");
                m
            },
        }
    }
}

/// Whether every segment end (offset + size) of a header fits in a u64.
pub open spec fn header_ends_fit(h: HeaderView) -> bool {
    &&& forall|i: int, j: int|
        0 <= i < h.column_families.len() && 0 <= j < h.column_families[i].segments.len()
            ==> #[trigger] h.column_families[i].segments[j].spec_end() <= u64::MAX
    &&& forall|k: int|
        0 <= k < h.free_segments.len() ==> #[trigger] h.free_segments[k].offset
            + h.free_segments[k].size <= u64::MAX
}

/// `e` is at least `PAGE_SIZE` and at least every segment end.
pub open spec fn bounds_all_ends(h: HeaderView, e: int) -> bool {
    &&& PAGE_SIZE <= e
    &&& forall|i: int, j: int|
        0 <= i < h.column_families.len() && 0 <= j < h.column_families[i].segments.len()
            ==> #[trigger] h.column_families[i].segments[j].spec_end() <= e
    &&& forall|k: int|
        0 <= k < h.free_segments.len() ==> #[trigger] h.free_segments[k].offset
            + h.free_segments[k].size <= e
}

/// `e` is `PAGE_SIZE` or the end of some segment.
pub open spec fn is_page_or_some_end(h: HeaderView, e: int) -> bool {
    ||| e == PAGE_SIZE
    ||| exists|i: int, j: int|
        0 <= i < h.column_families.len() && 0 <= j < h.column_families[i].segments.len()
            && #[trigger] h.column_families[i].segments[j].spec_end() == e
    ||| exists|k: int|
        0 <= k < h.free_segments.len() && #[trigger] h.free_segments[k].offset
            + h.free_segments[k].size == e
}

/// The end of the file as the header describes it: the largest segment end, or
/// `PAGE_SIZE` if that is larger.
pub open spec fn spec_end_of_file(h: HeaderView) -> int {
    choose|e: int| bounds_all_ends(h, e) && is_page_or_some_end(h, e)
}

impl MasterHeader {
    /// Creates a new empty master header.
    pub fn new() -> (h: Self)
        ensures
            h@.version == FORMAT_VERSION,
            h@.column_families.len() == 0,
            h@.free_segments.len() == 0,
    {
        Self { version: FORMAT_VERSION, column_families: Vec::new(), free_segments: Vec::new() }
    }

    /// Creates a master header with the given column families.
    pub fn with_column_families(column_families: Vec<ColumnFamilyMetadata>) -> (h: Self)
        ensures
            h.version == FORMAT_VERSION,
            h.column_families == column_families,
            h@.free_segments.len() == 0,
    {
        Self { version: FORMAT_VERSION, column_families, free_segments: Vec::new() }
    }

    /// Finds the end of the last allocated segment in the file.
    /// Returns `PAGE_SIZE` if no segments exist (first allocation starts after header).
    pub fn end_of_file(&self) -> (e: u64)
        requires
            header_ends_fit(self@),
        ensures
            bounds_all_ends(self@, e as int),
            is_page_or_some_end(self@, e as int),
            e == spec_end_of_file(self@),
    {
        let ghost h = self@;
        let mut max_end: u64 = PAGE_SIZE as u64;
        let mut i: usize = 0;
        while i < self.column_families.len()
            invariant
                h == self@,
                header_ends_fit(h),
                i <= h.column_families.len(),
                PAGE_SIZE <= max_end,
                forall|a: int, b: int|
                    0 <= a < i && 0 <= b < h.column_families[a].segments.len()
                        ==> #[trigger] h.column_families[a].segments[b].spec_end() <= max_end,
                max_end == PAGE_SIZE || exists|a: int, b: int|
                    0 <= a < h.column_families.len() && 0 <= b < h.column_families[a].segments.len()
                        && #[trigger] h.column_families[a].segments[b].spec_end() == max_end,
            decreases h.column_families.len() - i,
        {
            let cf = &self.column_families[i];
            assert(h.column_families[i as int] == cf@);
            let mut j: usize = 0;
            while j < cf.segments.len()
                invariant
                    h == self@,
                    header_ends_fit(h),
                    i < h.column_families.len(),
                    h.column_families[i as int] == cf@,
                    j <= cf.segments@.len(),
                    PAGE_SIZE <= max_end,
                    forall|a: int, b: int|
                        0 <= a < i && 0 <= b < h.column_families[a].segments.len()
                            ==> #[trigger] h.column_families[a].segments[b].spec_end() <= max_end,
                    forall|b: int|
                        0 <= b < j ==> #[trigger] h.column_families[i as int].segments[b].spec_end() <= max_end,
                    max_end == PAGE_SIZE || exists|a: int, b: int|
                        0 <= a < h.column_families.len() && 0 <= b < h.column_families[a].segments.len()
                            && #[trigger] h.column_families[a].segments[b].spec_end() == max_end,
                decreases cf.segments@.len() - j,
            {
                assert(h.column_families[i as int].segments[j as int].spec_end() <= u64::MAX);
                let end = cf.segments[j].end();
                if end > max_end {
                    max_end = end;
                    assert(h.column_families[i as int].segments[j as int].spec_end() == max_end);
                }
                j = j + 1;
            }
            i = i + 1;
        }
        let mut k: usize = 0;
        while k < self.free_segments.len()
            invariant
                h == self@,
                header_ends_fit(h),
                k <= h.free_segments.len(),
                PAGE_SIZE <= max_end,
                forall|a: int, b: int|
                    0 <= a < h.column_families.len() && 0 <= b < h.column_families[a].segments.len()
                        ==> #[trigger] h.column_families[a].segments[b].spec_end() <= max_end,
                forall|c: int|
                    0 <= c < k ==> #[trigger] h.free_segments[c].offset + h.free_segments[c].size
                        <= max_end,
                is_page_or_some_end(h, max_end as int),
            decreases h.free_segments.len() - k,
        {
            let free_seg = &self.free_segments[k];
            assert(h.free_segments[k as int].offset + h.free_segments[k as int].size <= u64::MAX);
            let end = free_seg.offset + free_seg.size;
            if end > max_end {
                max_end = end;
                assert(h.free_segments[k as int].offset + h.free_segments[k as int].size == max_end);
            }
            k = k + 1;
        }
        proof {
            lemma_end_of_file_unique(h, max_end as int);
        }
        max_end
    }

    /// Serializes the master header to bytes that fit within one page.
    ///
    /// Format:
    /// - magic (9 bytes)
    /// - version (1 byte)
    /// - `cf_count` (u32)
    /// - metadata entries (variable)
    /// - `free_count` (u32)
    /// - free segment entries (variable)
    /// - padding with zeros to `PAGE_SIZE - 4`
    /// - CRC32 checksum (4 bytes) of everything before it, at `PAGE_SIZE - 4`
    ///
    /// Returns an error if the serialized size exceeds `PAGE_SIZE - 4`.
    pub fn to_bytes(&self) -> (r: Result<Vec<u8>, HeaderError>)
        ensures
            match r {
                Ok(bytes) => header_body(self@).len() <= PAGE_SIZE - 4 && bytes@ == header_page(
                    self@,
                ) && bytes@.len() == PAGE_SIZE,
                Err(e) => header_body(self@).len() > PAGE_SIZE - 4 && e@
                    == (HeaderErrorView::TooLarge { size: header_body(self@).len() }),
            },
    {
        let ghost h = self@;
        let mut bytes: Vec<u8> = Vec::new();
        push_magic(&mut bytes);
        bytes.push(self.version);
        let cf_count = self.column_families.len() as u32;
        push_u32(&mut bytes, cf_count);
        let ghost prefix = bytes@;
        let mut i: usize = 0;
        while i < self.column_families.len()
            invariant
                h == self@,
                i <= h.column_families.len(),
                bytes@ == prefix + metadata_list_bytes(h.column_families.subrange(0, i as int)),
            decreases h.column_families.len() - i,
        {
            let mb = self.column_families[i].to_bytes();
            append_bytes(&mut bytes, mb.as_slice());
            proof {
                assert(h.column_families.subrange(0, i as int + 1).drop_last() =~= h.column_families.subrange(0, i as int));
            }
            i = i + 1;
            assert(bytes@ =~= prefix + metadata_list_bytes(h.column_families.subrange(0, i as int)));
        }
        assert(h.column_families.subrange(0, i as int) =~= h.column_families);
        let free_count = self.free_segments.len() as u32;
        push_u32(&mut bytes, free_count);
        let ghost prefix2 = bytes@;
        let mut k: usize = 0;
        while k < self.free_segments.len()
            invariant
                h == self@,
                k <= h.free_segments.len(),
                bytes@ == prefix2 + free_segments_bytes(h.free_segments.subrange(0, k as int)),
            decreases h.free_segments.len() - k,
        {
            let fb = self.free_segments[k].to_bytes();
            append_bytes(&mut bytes, fb.as_slice());
            proof {
                assert(h.free_segments.subrange(0, k as int + 1).drop_last() =~= h.free_segments.subrange(0, k as int));
            }
            k = k + 1;
            assert(bytes@ =~= prefix2 + free_segments_bytes(h.free_segments.subrange(0, k as int)));
        }
        assert(h.free_segments.subrange(0, k as int) =~= h.free_segments);
        assert(bytes@ =~= header_body(h));
        if bytes.len() > PAGE_SIZE - 4 {
            return Err(HeaderError::TooLarge { size: bytes.len() });
        }
        let pad = PAGE_SIZE - 4 - bytes.len();
        push_zeros(&mut bytes, pad);
        assert(bytes@ =~= header_padded(h));
        let crc = crc32(bytes.as_slice());
        push_u32(&mut bytes, crc);
        proof {
            crate::header_laws::lemma_header_page_len(h);
        }
        Ok(bytes)
    }
}

/// The end-of-file value is determined by being a bound that is attained.
pub proof fn lemma_end_of_file_unique(h: HeaderView, e: int)
    requires
        bounds_all_ends(h, e),
        is_page_or_some_end(h, e),
    ensures
        spec_end_of_file(h) == e,
{
    let c = spec_end_of_file(h);
    assert(bounds_all_ends(h, c) && is_page_or_some_end(h, c));
    if c < e {
        if e == PAGE_SIZE {
        } else if exists|i: int, j: int|
            0 <= i < h.column_families.len() && 0 <= j < h.column_families[i].segments.len()
                && #[trigger] h.column_families[i].segments[j].spec_end() == e {
            let (i, j) = choose|i: int, j: int|
                0 <= i < h.column_families.len() && 0 <= j < h.column_families[i].segments.len()
                    && #[trigger] h.column_families[i].segments[j].spec_end() == e;
            assert(h.column_families[i].segments[j].spec_end() <= c);
        } else {
            let k = choose|k: int|
                0 <= k < h.free_segments.len() && #[trigger] h.free_segments[k].offset
                    + h.free_segments[k].size == e;
            assert(h.free_segments[k].offset + h.free_segments[k].size <= c);
        }
    } else if c > e {
        if c == PAGE_SIZE {
        } else if exists|i: int, j: int|
            0 <= i < h.column_families.len() && 0 <= j < h.column_families[i].segments.len()
                && #[trigger] h.column_families[i].segments[j].spec_end() == c {
            let (i, j) = choose|i: int, j: int|
                0 <= i < h.column_families.len() && 0 <= j < h.column_families[i].segments.len()
                    && #[trigger] h.column_families[i].segments[j].spec_end() == c;
            assert(h.column_families[i].segments[j].spec_end() <= e);
        } else {
            let k = choose|k: int|
                0 <= k < h.free_segments.len() && #[trigger] h.free_segments[k].offset
                    + h.free_segments[k].size == c;
            assert(h.free_segments[k].offset + h.free_segments[k].size <= e);
        }
    }
}


// ---------------------------------------------------------------------------
// Decoding
// ---------------------------------------------------------------------------

/// The segment encoded by the sixteen bytes of `d` starting at `at`.
pub open spec fn segment_at(d: Seq<u8>, at: int) -> Segment {
    Segment {
        offset: from_le64(d.subrange(at, at + 8)),
        size: from_le64(d.subrange(at + 8, at + 16)),
    }
}

/// The free segment encoded by the sixteen bytes of `d` starting at `at`.
pub open spec fn free_segment_at(d: Seq<u8>, at: int) -> FreeSegment {
    FreeSegment {
        offset: from_le64(d.subrange(at, at + 8)),
        size: from_le64(d.subrange(at + 8, at + 16)),
    }
}

/// Decoding of one metadata entry at the start of `d`: the entry and the number of
/// bytes it occupies, or the error the decoder reports.
pub open spec fn parse_metadata(d: Seq<u8>) -> Result<(MetadataView, int), HeaderErrorView> {
    if d.len() < 4 {
        Err(HeaderErrorView::NameLengthTruncated)
    } else {
        let nl = from_le32(d.subrange(0, 4)) as int;
        if d.len() < 4 + nl + 4 {
            Err(HeaderErrorView::MetadataTruncated { required: (4 + nl + 4) as nat, available: d.len() })
        } else if !valid_utf8(d.subrange(4, 4 + nl)) {
            Err(HeaderErrorView::InvalidUtf8 {
                valid_up_to: utf8_failure(d.subrange(4, 4 + nl)).0,
                error_len: utf8_failure(d.subrange(4, 4 + nl)).1,
            })
        } else {
            let count = from_le32(d.subrange(4 + nl, 8 + nl)) as int;
            if d.len() < 8 + nl + 16 * count {
                Err(HeaderErrorView::SegmentTruncated)
            } else {
                Ok(
                    (
                        MetadataView {
                            name: decode_utf8(d.subrange(4, 4 + nl)),
                            segments: Seq::new(
                                count as nat,
                                |k: int| segment_at(d, 8 + nl + 16 * k),
                            ),
                        },
                        8 + nl + 16 * count,
                    ),
                )
            }
        }
    }
}

impl Segment {
    /// Deserializes a segment from bytes.
    ///
    /// Returns (`segment`, `bytes_consumed`) on success.
    pub fn from_bytes(data: &[u8]) -> (r: Result<(Self, usize), HeaderError>)
        ensures
            match r {
                Ok((seg, n)) => data@.len() >= 16 && n == 16 && seg == segment_at(data@, 0),
                Err(e) => data@.len() < 16 && e@ == HeaderErrorView::SegmentTruncated,
            },
    {
        if data.len() < 16 {
            return Err(HeaderError::SegmentTruncated);
        }
        let offset = read_u64(data, 0);
        let size = read_u64(data, 8);
        Ok((Self { offset, size }, 16))
    }
}

impl FreeSegment {
    /// Deserializes a free segment from bytes.
    ///
    /// Returns (`free_segment`, `bytes_consumed`) on success.
    pub fn from_bytes(data: &[u8]) -> (r: Result<(Self, usize), HeaderError>)
        ensures
            match r {
                Ok((seg, n)) => data@.len() >= 16 && n == 16 && seg == free_segment_at(data@, 0),
                Err(e) => data@.len() < 16 && e@ == HeaderErrorView::FreeSegmentTruncated,
            },
    {
        if data.len() < 16 {
            return Err(HeaderError::FreeSegmentTruncated);
        }
        let offset = read_u64(data, 0);
        let size = read_u64(data, 8);
        Ok((Self { offset, size }, 16))
    }
}

impl ColumnFamilyMetadata {
    /// Deserializes metadata from bytes.
    ///
    /// Returns (`metadata`, `bytes_consumed`) on success.
    pub fn from_bytes(data: &[u8]) -> (r: Result<(Self, usize), HeaderError>)
        ensures
            match r {
                Ok((m, n)) => parse_metadata(data@) == Ok::<(MetadataView, int), HeaderErrorView>((m@, n as int)),
                Err(e) => parse_metadata(data@) == Err::<(MetadataView, int), HeaderErrorView>(e@),
            },
    {
        let len = data.len();
        if len < 4 {
            return Err(HeaderError::NameLengthTruncated);
        }
        let name_len = read_u32(data, 0) as usize;
        if (len as u64) < 4 + name_len as u64 + 4 {
            return Err(HeaderError::MetadataTruncated { required: 4 + name_len as u64 + 4, available: len });
        }
        let name = match string_from_utf8(slice_subrange(data, 4, 4 + name_len)) {
            Ok(name) => name,
            Err((valid_up_to, error_len)) => return Err(HeaderError::InvalidUtf8 { valid_up_to, error_len }),
        };
        let segment_count_start = 4 + name_len;
        let segment_count = read_u32(data, segment_count_start) as usize;
        let mut segments: Vec<Segment> = Vec::new();
        let mut offset = segment_count_start + 4;
        let ghost d = data@;
        let ghost base = segment_count_start + 4;
        let mut i: usize = 0;
        while i < segment_count
            invariant
                d == data@,
                len == d.len(),
                base == segment_count_start + 4,
                base <= len,
                segment_count_start == 4 + name_len,
                name_len == from_le32(d.subrange(0, 4)),
                segment_count == from_le32(d.subrange(4 + name_len, 8 + name_len)),
                valid_utf8(d.subrange(4, 4 + name_len as int)),
                name@ == decode_utf8(d.subrange(4, 4 + name_len as int)),
                i <= segment_count,
                offset == base + 16 * i,
                offset <= len,
                segments@ == Seq::new(i as nat, |k: int| segment_at(d, base + 16 * k)),
            decreases segment_count - i,
        {
            let rest = slice_subrange(data, offset, len);
            let (segment, consumed) = match Segment::from_bytes(rest) {
                Ok(p) => p,
                Err(e) => {
                    assert(16 * (i as int) + 16 <= 16 * (segment_count as int)) by (nonlinear_arith)
                        requires
                            i < segment_count,
                    ;
                    assert(len < base + 16 * segment_count);
                    return Err(e);
                },
            };
            assert(rest@.subrange(0, 8) =~= d.subrange(offset as int, offset + 8));
            assert(rest@.subrange(8, 16) =~= d.subrange(offset + 8, offset + 16));
            segments.push(segment);
            offset = offset + consumed;
            i = i + 1;
            assert(segments@ =~= Seq::new(i as nat, |k: int| segment_at(d, base + 16 * k)));
        }
        Ok((Self { name, segments }, offset))
    }
}


// ---------------------------------------------------------------------------
// Validation
// ---------------------------------------------------------------------------

/// The check applied to one column-family segment.
pub open spec fn segment_check(name: Seq<char>, seg: Segment) -> Option<HeaderErrorView> {
    if seg.offset % (PAGE_SIZE as u64) != 0 {
        Some(HeaderErrorView::UnalignedSegment { name, offset: seg.offset })
    } else if seg.size == 0 {
        Some(HeaderErrorView::ZeroSizeSegment { name })
    } else if seg.offset + seg.size > u64::MAX {
        Some(HeaderErrorView::SegmentOverflow { name })
    } else {
        None
    }
}

/// The first failing segment check of a list, in list order.
pub open spec fn first_segment_error(name: Seq<char>, segs: Seq<Segment>) -> Option<HeaderErrorView>
    decreases segs.len(),
{
    if segs.len() == 0 {
        None
    } else {
        match first_segment_error(name, segs.drop_last()) {
            Some(e) => Some(e),
            None => segment_check(name, segs.last()),
        }
    }
}

/// The check applied to the column family at index `i`, given all before it passed.
pub open spec fn cf_check(cfs: Seq<MetadataView>, i: int) -> Option<HeaderErrorView> {
    if cfs[i].name.len() == 0 {
        Some(HeaderErrorView::EmptyName)
    } else if exists|j: int| 0 <= j < i && #[trigger] cfs[j].name == cfs[i].name {
        Some(HeaderErrorView::DuplicateName { name: cfs[i].name })
    } else {
        first_segment_error(cfs[i].name, cfs[i].segments)
    }
}

/// The first failing column-family check among the first `n` column families.
pub open spec fn first_cf_error(cfs: Seq<MetadataView>, n: nat) -> Option<HeaderErrorView>
    decreases n,
{
    if n == 0 {
        None
    } else {
        match first_cf_error(cfs, (n - 1) as nat) {
            Some(e) => Some(e),
            None => cf_check(cfs, n - 1),
        }
    }
}

/// The check applied to one free segment.
pub open spec fn free_check(seg: FreeSegment) -> Option<HeaderErrorView> {
    if seg.offset % (PAGE_SIZE as u64) != 0 {
        Some(HeaderErrorView::UnalignedFreeSegment { offset: seg.offset })
    } else if seg.size == 0 {
        Some(HeaderErrorView::ZeroSizeFreeSegment)
    } else if seg.offset + seg.size > u64::MAX {
        Some(HeaderErrorView::FreeSegmentOverflow)
    } else {
        None
    }
}

/// The first failing free-segment check, in list order.
pub open spec fn first_free_error(segs: Seq<FreeSegment>) -> Option<HeaderErrorView>
    decreases segs.len(),
{
    if segs.len() == 0 {
        None
    } else {
        match first_free_error(segs.drop_last()) {
            Some(e) => Some(e),
            None => free_check(segs.last()),
        }
    }
}

/// A byte range `[start, end)` of the file with the name it is reported under.
pub struct SpanView {
    pub start: int,
    pub end: int,
    pub label: Seq<char>,
}

/// Two spans share at least one byte.
pub open spec fn spans_overlap(a: SpanView, b: SpanView) -> bool {
    a.start < b.end && b.start < a.end
}

/// Spans of the segments of one column family, labelled with its name.
pub open spec fn spans_of(m: MetadataView) -> Seq<SpanView> {
    m.segments.map_values(
        |s: Segment| SpanView { start: s.offset as int, end: s.offset + s.size, label: m.name },
    )
}

/// Spans of all column-family segments, column family by column family.
pub open spec fn cf_spans(cfs: Seq<MetadataView>) -> Seq<SpanView>
    decreases cfs.len(),
{
    if cfs.len() == 0 {
        Seq::empty()
    } else {
        cf_spans(cfs.drop_last()) + spans_of(cfs.last())
    }
}

/// The label of the free segment at index `i`: `free#` followed by `i` in decimal.
pub open spec fn free_label(i: nat) -> Seq<char> {
    seq!['f', 'r', 'e', 'e', '#'] + decimal(i)
}

/// Spans of the free segments, labelled by position.
pub open spec fn free_spans(fs: Seq<FreeSegment>) -> Seq<SpanView> {
    Seq::new(
        fs.len(),
        |i: int|
            SpanView {
                start: fs[i].offset as int,
                end: fs[i].offset + fs[i].size,
                label: free_label(i as nat),
            },
    )
}

/// All spans, column-family segments first, then free segments.
pub open spec fn all_spans(h: HeaderView) -> Seq<SpanView> {
    cf_spans(h.column_families) + free_spans(h.free_segments)
}

/// Where a stable insertion places `x` into `s`: after every element from the back
/// that does not start after `x`.
pub open spec fn insert_pos(s: Seq<SpanView>, x: SpanView) -> int
    decreases s.len(),
{
    if s.len() == 0 {
        0
    } else if s.last().start <= x.start {
        s.len() as int
    } else {
        insert_pos(s.drop_last(), x)
    }
}

/// `s` sorted by start, keeping the relative order of spans that start together
/// (a stable sort).
pub open spec fn sorted_by_start(s: Seq<SpanView>) -> Seq<SpanView>
    decreases s.len(),
{
    if s.len() == 0 {
        Seq::empty()
    } else {
        let rest = sorted_by_start(s.drop_last());
        rest.insert(insert_pos(rest, s.last()), s.last())
    }
}

/// `(i, j)` is an overlapping pair of `s` and no pair before it (in the order
/// `(0,1), (0,2), ..., (1,2), ...`) overlaps.
pub open spec fn is_first_overlap(s: Seq<SpanView>, i: int, j: int) -> bool {
    &&& 0 <= i < j < s.len()
    &&& spans_overlap(s[i], s[j])
    &&& forall|a: int, b: int|
        #![trigger s[a], s[b]]
        0 <= a < b < s.len() && (a < i || (a == i && b < j)) ==> !spans_overlap(s[a], s[b])
}

/// No two spans of `s` overlap.
pub open spec fn spans_disjoint(s: Seq<SpanView>) -> bool {
    forall|a: int, b: int| #![trigger s[a], s[b]] 0 <= a < b < s.len() ==> !spans_overlap(s[a], s[b])
}

/// The overlap error for a list of spans: the first overlapping pair, if any.
pub open spec fn overlap_error(s: Seq<SpanView>) -> Option<HeaderErrorView> {
    if spans_disjoint(s) {
        None
    } else {
        let (i, j) = choose|i: int, j: int| is_first_overlap(s, i, j);
        Some(HeaderErrorView::Overlap { first: s[i].label, second: s[j].label })
    }
}

/// No two column families share a name.
pub open spec fn cf_names_unique(cfs: Seq<MetadataView>) -> bool {
    forall|i: int, j: int|
        #![trigger cfs[i], cfs[j]]
        0 <= i < cfs.len() && 0 <= j < cfs.len() && i != j ==> cfs[i].name != cfs[j].name
}

/// What `MasterHeader::validate` reports: the first failing check, in the order
/// column families (name, duplicates, segments), free segments, overlaps among
/// all spans sorted by start.
pub open spec fn spec_validate(h: HeaderView) -> Result<(), HeaderErrorView> {
    match first_cf_error(h.column_families, h.column_families.len()) {
        Some(e) => Err(e),
        None => match first_free_error(h.free_segments) {
            Some(e) => Err(e),
            None => match overlap_error(sorted_by_start(all_spans(h))) {
                Some(e) => Err(e),
                None => Ok(()),
            },
        },
    }
}

/// A span held during overlap detection.
struct Span {
    start: u64,
    end: u64,
    label: String,
}

impl View for Span {
    type V = SpanView;

    closed spec fn view(&self) -> SpanView {
        SpanView { start: self.start as int, end: self.end as int, label: self.label@ }
    }
}

/// Views of a list of spans.
spec fn span_views(v: Seq<Span>) -> Seq<SpanView> {
    v.map_values(|s: Span| s@)
}

/// Views of a list after a push.
proof fn lemma_span_views_push(v: Seq<Span>, x: Span)
    ensures
        span_views(v.push(x)) == span_views(v).push(x@),
{
    assert(span_views(v.push(x)) =~= span_views(v).push(x@));
}

/// Inserts `x` into `v` at `insert_pos`.
fn insert_by_start(v: &mut Vec<Span>, x: Span)
    ensures
        span_views(final(v)@) == span_views(old(v)@).insert(insert_pos(span_views(old(v)@), x@), x@),
{
    let ghost s = span_views(v@);
    let mut p: usize = v.len();
    assert(s.subrange(0, p as int) =~= s);
    while p > 0 && v[p - 1].start > x.start
        invariant
            p <= v@.len(),
            s == span_views(v@),
            insert_pos(s, x@) == insert_pos(s.subrange(0, p as int), x@),
        decreases p,
    {
        proof {
            assert(s.subrange(0, p as int).drop_last() =~= s.subrange(0, p - 1));
        }
        p = p - 1;
    }
    proof {
        if p > 0 {
            assert(s.subrange(0, p as int).last() == s[p - 1]);
        }
        assert(insert_pos(s.subrange(0, p as int), x@) == p);
    }
    v.insert(p, x);
    assert(span_views(v@) =~= s.insert(p as int, x@));
}

/// Builds the labelled spans of all segments of a validated-so-far header.
fn collect_spans(h: &MasterHeader) -> (spans: Vec<Span>)
    requires
        header_ends_fit(h@),
    ensures
        span_views(spans@) == all_spans(h@),
{
    let ghost hv = h@;
    let mut spans: Vec<Span> = Vec::new();
    let mut i: usize = 0;
    while i < h.column_families.len()
        invariant
            hv == h@,
            header_ends_fit(hv),
            i <= hv.column_families.len(),
            span_views(spans@) == cf_spans(hv.column_families.subrange(0, i as int)),
        decreases hv.column_families.len() - i,
    {
        let cf = &h.column_families[i];
        assert(hv.column_families[i as int] == cf@);
        let ghost before = span_views(spans@);
        let mut j: usize = 0;
        while j < cf.segments.len()
            invariant
                hv == h@,
                header_ends_fit(hv),
                i < hv.column_families.len(),
                hv.column_families[i as int] == cf@,
                j <= cf.segments@.len(),
                span_views(spans@) == before + spans_of(cf@).subrange(0, j as int),
            decreases cf.segments@.len() - j,
        {
            assert(hv.column_families[i as int].segments[j as int].spec_end() <= u64::MAX);
            let seg = &cf.segments[j];
            let span = Span { start: seg.offset, end: seg.end(), label: cf.name.clone() };
            proof {
                lemma_span_views_push(spans@, span);
                assert(spans_of(cf@).subrange(0, j as int + 1) =~= spans_of(cf@).subrange(0, j as int).push(span@));
            }
            spans.push(span);
            j = j + 1;
            assert(span_views(spans@) =~= before + spans_of(cf@).subrange(0, j as int));
        }
        assert(spans_of(cf@).subrange(0, j as int) =~= spans_of(cf@));
        assert(hv.column_families.subrange(0, i as int + 1).drop_last() =~= hv.column_families.subrange(0, i as int));
        i = i + 1;
    }
    assert(hv.column_families.subrange(0, i as int) =~= hv.column_families);
    let ghost cf_part = span_views(spans@);
    let mut k: usize = 0;
    while k < h.free_segments.len()
        invariant
            hv == h@,
            header_ends_fit(hv),
            k <= hv.free_segments.len(),
            cf_part == cf_spans(hv.column_families),
            span_views(spans@) == cf_part + free_spans(hv.free_segments).subrange(0, k as int),
        decreases hv.free_segments.len() - k,
    {
        assert(hv.free_segments[k as int].offset + hv.free_segments[k as int].size <= u64::MAX);
        let free_seg = &h.free_segments[k];
        let mut label = String::from_str("free#");
        push_decimal(&mut label, k as u64);
        proof {
            reveal_strlit("free#");
            assert("free#"@ =~= seq!['f', 'r', 'e', 'e', '#']);
        }
        let span = Span { start: free_seg.offset, end: free_seg.offset + free_seg.size, label };
        proof {
            lemma_span_views_push(spans@, span);
            assert(free_spans(hv.free_segments).subrange(0, k as int + 1) =~= free_spans(hv.free_segments).subrange(0, k as int).push(span@));
        }
        spans.push(span);
        k = k + 1;
        assert(span_views(spans@) =~= cf_part + free_spans(hv.free_segments).subrange(0, k as int));
    }
    assert(free_spans(hv.free_segments).subrange(0, k as int) =~= free_spans(hv.free_segments));
    spans
}

/// Sorts spans by start, stably.
fn sort_spans(v: &Vec<Span>) -> (sorted: Vec<Span>)
    ensures
        span_views(sorted@) == sorted_by_start(span_views(v@)),
{
    let ghost all = span_views(v@);
    let mut sorted: Vec<Span> = Vec::new();
    let mut i: usize = 0;
    while i < v.len()
        invariant
            all == span_views(v@),
            i <= v@.len(),
            span_views(sorted@) == sorted_by_start(all.subrange(0, i as int)),
        decreases v@.len() - i,
    {
        let x = Span { start: v[i].start, end: v[i].end, label: v[i].label.clone() };
        assert(x@ == all[i as int]);
        insert_by_start(&mut sorted, x);
        assert(all.subrange(0, i as int + 1).drop_last() =~= all.subrange(0, i as int));
        assert(all.subrange(0, i as int + 1).last() == all[i as int]);
        i = i + 1;
    }
    assert(all.subrange(0, i as int) =~= all);
    sorted
}

/// Finds the first overlapping pair of sorted spans, as `(first label, second label)`.
fn find_overlap(s: &Vec<Span>) -> (r: Option<(String, String)>)
    ensures
        match r {
            Some((a, b)) => overlap_error(span_views(s@)) == Some(
                HeaderErrorView::Overlap { first: a@, second: b@ },
            ),
            None => overlap_error(span_views(s@)) == None::<HeaderErrorView>,
        },
{
    let ghost sv = span_views(s@);
    let mut i: usize = 0;
    while i < s.len()
        invariant
            sv == span_views(s@),
            i <= s@.len(),
            forall|a: int, b: int|
                #![trigger sv[a], sv[b]]
                0 <= a < b < sv.len() && a < i ==> !spans_overlap(sv[a], sv[b]),
        decreases s@.len() - i,
    {
        let mut j: usize = i + 1;
        while j < s.len()
            invariant
                sv == span_views(s@),
                i < s@.len(),
                i + 1 <= j <= s@.len(),
                forall|a: int, b: int|
                    #![trigger sv[a], sv[b]]
                    0 <= a < b < sv.len() && (a < i || (a == i && b < j)) ==> !spans_overlap(sv[a], sv[b]),
            decreases s@.len() - j,
        {
            if s[i].start < s[j].end && s[j].start < s[i].end {
                assert(is_first_overlap(sv, i as int, j as int));
                proof {
                    lemma_first_overlap_unique(sv, i as int, j as int);
                }
                return Some((s[i].label.clone(), s[j].label.clone()));
            }
            j = j + 1;
        }
        i = i + 1;
    }
    None
}

/// The first overlapping pair is unique.
proof fn lemma_first_overlap_unique(s: Seq<SpanView>, i: int, j: int)
    requires
        is_first_overlap(s, i, j),
    ensures
        !spans_disjoint(s),
        overlap_error(s) == Some(HeaderErrorView::Overlap { first: s[i].label, second: s[j].label }),
{
    assert(!spans_disjoint(s)) by {
        assert(s[i] == s[i] && s[j] == s[j]);
    }
    let (a, b) = choose|a: int, b: int| is_first_overlap(s, a, b);
    assert(is_first_overlap(s, a, b));
    if a < i || (a == i && b < j) {
        assert(!spans_overlap(s[a], s[b]));
    } else if i < a || (i == a && j < b) {
        assert(!spans_overlap(s[i], s[j]));
    }
    assert(a == i && b == j);
}

impl MasterHeader {
    /// Validates the master header for consistency.
    ///
    /// Checks:
    /// - Column family names are non-empty and unique
    /// - Segment offsets are page-aligned
    /// - Segment sizes are positive
    /// - Segment ends do not overflow
    /// - No overlapping segments (CF or free)
    pub fn validate(&self) -> (r: Result<(), HeaderError>)
        ensures
            match r {
                Ok(()) => spec_validate(self@) == Ok::<(), HeaderErrorView>(()),
                Err(e) => spec_validate(self@) == Err::<(), HeaderErrorView>(e@),
            },
    {
        let ghost h = self@;
        let ghost cfs = h.column_families;
        let mut i: usize = 0;
        while i < self.column_families.len()
            invariant
                h == self@,
                cfs == h.column_families,
                i <= cfs.len(),
                first_cf_error(cfs, i as nat) == None::<HeaderErrorView>,
                forall|a: int, b: int|
                    0 <= a < i && 0 <= b < cfs[a].segments.len()
                        ==> #[trigger] cfs[a].segments[b].spec_end() <= u64::MAX,
            decreases cfs.len() - i,
        {
            let cf = &self.column_families[i];
            assert(cfs[i as int] == cf@);
            if cf.name.as_str().is_empty() {
                proof {
                    lemma_first_cf_error_at(cfs, i as nat);
                    lemma_first_cf_error_stable(cfs, (i + 1) as nat, cfs.len());
                }
                return Err(HeaderError::EmptyName);
            }
            let mut j: usize = 0;
            while j < i
                invariant
                    h == self@,
                    cfs == h.column_families,
                    j <= i < cfs.len(),
                    cfs[i as int] == cf@,
                    first_cf_error(cfs, i as nat) == None::<HeaderErrorView>,
                    cf@.name.len() != 0,
                    forall|a: int| 0 <= a < j ==> #[trigger] cfs[a].name != cf@.name,
                decreases i - j,
            {
                if self.column_families[j].name == cf.name {
                    proof {
                        assert(cfs[j as int].name == cfs[i as int].name);
                        lemma_first_cf_error_at(cfs, i as nat);
                        lemma_first_cf_error_stable(cfs, (i + 1) as nat, cfs.len());
                    }
                    return Err(HeaderError::DuplicateName { name: cf.name.clone() });
                }
                j = j + 1;
            }
            assert(cf_check(cfs, i as int) == first_segment_error(cf@.name, cf@.segments));
            let mut k: usize = 0;
            while k < cf.segments.len()
                invariant
                    h == self@,
                    cfs == h.column_families,
                    i < cfs.len(),
                    cfs[i as int] == cf@,
                    first_cf_error(cfs, i as nat) == None::<HeaderErrorView>,
                    cf_check(cfs, i as int) == first_segment_error(cf@.name, cf@.segments),
                    k <= cf@.segments.len(),
                    first_segment_error(cf@.name, cf@.segments.subrange(0, k as int)) == None::<HeaderErrorView>,
                    forall|b: int| 0 <= b < k ==> #[trigger] cf@.segments[b].spec_end() <= u64::MAX,
                decreases cf@.segments.len() - k,
            {
                let segment = &cf.segments[k];
                assert(cf@.segments.subrange(0, k as int + 1).drop_last() =~= cf@.segments.subrange(0, k as int));
                let bad = segment.offset % (PAGE_SIZE as u64) != 0 || segment.size == 0
                    || segment.offset > u64::MAX - segment.size;
                if bad {
                    proof {
                        lemma_first_segment_error_prefix(cf@.name, cf@.segments, k as int + 1);
                        lemma_first_cf_error_at(cfs, i as nat);
                        lemma_first_cf_error_stable(cfs, (i + 1) as nat, cfs.len());
                    }
                    if segment.offset % (PAGE_SIZE as u64) != 0 {
                        return Err(HeaderError::UnalignedSegment { name: cf.name.clone(), offset: segment.offset });
                    }
                    if segment.size == 0 {
                        return Err(HeaderError::ZeroSizeSegment { name: cf.name.clone() });
                    }
                    return Err(HeaderError::SegmentOverflow { name: cf.name.clone() });
                }
                k = k + 1;
            }
            assert(cf@.segments.subrange(0, k as int) =~= cf@.segments);
            proof {
                lemma_first_cf_error_at(cfs, i as nat);
            }
            i = i + 1;
        }
        let ghost frees = h.free_segments;
        let mut k: usize = 0;
        while k < self.free_segments.len()
            invariant
                h == self@,
                cfs == h.column_families,
                frees == h.free_segments,
                first_cf_error(cfs, cfs.len()) == None::<HeaderErrorView>,
                forall|a: int, b: int|
                    0 <= a < cfs.len() && 0 <= b < cfs[a].segments.len()
                        ==> #[trigger] cfs[a].segments[b].spec_end() <= u64::MAX,
                k <= frees.len(),
                first_free_error(frees.subrange(0, k as int)) == None::<HeaderErrorView>,
                forall|c: int| 0 <= c < k ==> #[trigger] frees[c].offset + frees[c].size <= u64::MAX,
            decreases frees.len() - k,
        {
            let free_seg = &self.free_segments[k];
            assert(frees.subrange(0, k as int + 1).drop_last() =~= frees.subrange(0, k as int));
            let bad = free_seg.offset % (PAGE_SIZE as u64) != 0 || free_seg.size == 0
                || free_seg.offset > u64::MAX - free_seg.size;
            if bad {
                proof { lemma_first_free_error_prefix(frees, k as int + 1); }
                if free_seg.offset % (PAGE_SIZE as u64) != 0 {
                    return Err(HeaderError::UnalignedFreeSegment { offset: free_seg.offset });
                }
                if free_seg.size == 0 {
                    return Err(HeaderError::ZeroSizeFreeSegment);
                }
                return Err(HeaderError::FreeSegmentOverflow);
            }
            k = k + 1;
        }
        assert(frees.subrange(0, k as int) =~= frees);
        let spans = collect_spans(self);
        let sorted = sort_spans(&spans);
        match find_overlap(&sorted) {
            Some((first, second)) => Err(HeaderError::Overlap { first, second }),
            None => Ok(()),
        }
    }
}

/// Once an error is found among the first `a` column families, it stays the first error.
proof fn lemma_first_cf_error_stable(cfs: Seq<MetadataView>, a: nat, b: nat)
    requires
        a <= b,
        first_cf_error(cfs, a) is Some,
    ensures
        first_cf_error(cfs, b) == first_cf_error(cfs, a),
    decreases b - a,
{
    if a < b {
        lemma_first_cf_error_stable(cfs, a, (b - 1) as nat);
    }
}

/// Once the first `n` column families pass, the error at index `n` is the first error
/// of the first `n + 1`.
proof fn lemma_first_cf_error_at(cfs: Seq<MetadataView>, n: nat)
    requires
        first_cf_error(cfs, n) == None::<HeaderErrorView>,
    ensures
        first_cf_error(cfs, n + 1) == cf_check(cfs, n as int),
{
}

/// Once a prefix of length `k - 1` passes, the first error of the length-`k` prefix
/// (when there is one) is the first error of the whole list.
proof fn lemma_first_segment_error_prefix(name: Seq<char>, segs: Seq<Segment>, k: int)
    requires
        0 < k <= segs.len(),
        first_segment_error(name, segs.subrange(0, k)) is Some,
    ensures
        first_segment_error(name, segs) == first_segment_error(name, segs.subrange(0, k)),
    decreases segs.len() - k,
{
    if k < segs.len() {
        assert(segs.subrange(0, k + 1).drop_last() =~= segs.subrange(0, k));
        lemma_first_segment_error_prefix(name, segs, k + 1);
    } else {
        assert(segs.subrange(0, k) =~= segs);
    }
}

/// Free-segment analogue of `lemma_first_segment_error_prefix`.
proof fn lemma_first_free_error_prefix(segs: Seq<FreeSegment>, k: int)
    requires
        0 < k <= segs.len(),
        first_free_error(segs.subrange(0, k)) is Some,
    ensures
        first_free_error(segs) == first_free_error(segs.subrange(0, k)),
    decreases segs.len() - k,
{
    if k < segs.len() {
        assert(segs.subrange(0, k + 1).drop_last() =~= segs.subrange(0, k));
        lemma_first_free_error_prefix(segs, k + 1);
    } else {
        assert(segs.subrange(0, k) =~= segs);
    }
}


/// Decoding of `n` consecutive metadata entries starting at `off`: the entries and
/// the offset just past them.
pub open spec fn parse_metadata_list(d: Seq<u8>, off: int, n: nat) -> Result<
    (Seq<MetadataView>, int),
    HeaderErrorView,
>
    decreases n,
{
    if n == 0 {
        Ok((Seq::empty(), off))
    } else {
        match parse_metadata_list(d, off, (n - 1) as nat) {
            Err(e) => Err(e),
            Ok((cfs, o)) => match parse_metadata(d.subrange(o, d.len() as int)) {
                Err(e) => Err(e),
                Ok((m, c)) => Ok((cfs.push(m), o + c)),
            },
        }
    }
}

/// Decoding of a master header page before validation, given the checksum
/// computed over its first `PAGE_SIZE - 4` bytes.
pub open spec fn parse_header_checked(d: Seq<u8>, computed: u32) -> Result<HeaderView, HeaderErrorView> {
    if d.len() < PAGE_SIZE {
        Err(HeaderErrorView::TooShort { need: PAGE_SIZE as nat, have: d.len() })
    } else if d.subrange(0, 9) != magic_bytes() {
        Err(HeaderErrorView::BadMagic)
    } else if from_le32(d.subrange(PAGE_SIZE - 4, PAGE_SIZE as int)) != computed {
        Err(
            HeaderErrorView::ChecksumMismatch {
                stored: from_le32(d.subrange(PAGE_SIZE - 4, PAGE_SIZE as int)),
                computed,
            },
        )
    } else if d[9] != FORMAT_VERSION {
        Err(HeaderErrorView::UnsupportedVersion { version: d[9] })
    } else {
        match parse_metadata_list(d, 14, from_le32(d.subrange(10, 14)) as nat) {
            Err(e) => Err(e),
            Ok((cfs, o)) => if o + 4 > d.len() {
                Err(HeaderErrorView::FreeCountTruncated)
            } else {
                let count = from_le32(d.subrange(o, o + 4)) as int;
                if o + 4 + 16 * count > d.len() {
                    Err(HeaderErrorView::FreeSegmentTruncated)
                } else {
                    Ok(
                        HeaderView {
                            version: d[9],
                            column_families: cfs,
                            free_segments: Seq::new(
                                count as nat,
                                |k: int| free_segment_at(d, o + 4 + 16 * k),
                            ),
                        },
                    )
                }
            },
        }
    }
}

/// Decoding of a master header page before validation.
pub open spec fn parse_header(d: Seq<u8>) -> Result<HeaderView, HeaderErrorView> {
    parse_header_checked(d, crc32_of(d.subrange(0, PAGE_SIZE - 4)))
}

/// What `MasterHeader::from_bytes_checked` returns: the decoded header if it also
/// validates.
pub open spec fn spec_header_from_bytes_checked(d: Seq<u8>, computed: u32) -> Result<HeaderView, HeaderErrorView> {
    match parse_header_checked(d, computed) {
        Err(e) => Err(e),
        Ok(h) => match spec_validate(h) {
            Err(e) => Err(e),
            Ok(()) => Ok(h),
        },
    }
}

/// What `MasterHeader::from_bytes` returns: the decoded header if it also validates.
pub open spec fn spec_header_from_bytes(d: Seq<u8>) -> Result<HeaderView, HeaderErrorView> {
    spec_header_from_bytes_checked(d, crc32_of(d.subrange(0, PAGE_SIZE - 4)))
}

/// Whether the first nine bytes are the magic number.
fn has_magic(data: &[u8]) -> (b: bool)
    requires
        data@.len() >= 9,
    ensures
        b == (data@.subrange(0, 9) == magic_bytes()),
{
    let b = data[0] == 0x6d && data[1] == 0x6e && data[2] == 0x66 && data[3] == 0x64 && data[4]
        == 0x2d && data[5] == 0x63 && data[6] == 0x66 && data[7] == 0x1a && data[8] == 0x0a;
    if b {
        assert(data@.subrange(0, 9) =~= magic_bytes());
    } else {
        proof {
            if data@.subrange(0, 9) == magic_bytes() {
                assert(data@.subrange(0, 9)[0] == data@[0]);
            assert(data@.subrange(0, 9)[1] == data@[1]);
            assert(data@.subrange(0, 9)[2] == data@[2]);
            assert(data@.subrange(0, 9)[3] == data@[3]);
            assert(data@.subrange(0, 9)[4] == data@[4]);
            assert(data@.subrange(0, 9)[5] == data@[5]);
            assert(data@.subrange(0, 9)[6] == data@[6]);
            assert(data@.subrange(0, 9)[7] == data@[7]);
                assert(data@.subrange(0, 9)[8] == data@[8]);
            }
        }
    }
    b
}

impl MasterHeader {
    /// Deserializes a master header from bytes.
    ///
    /// Validates magic number, CRC32 checksum, version, and metadata integrity.
    pub fn from_bytes(data: &[u8]) -> (r: Result<Self, HeaderError>)
        ensures
            match r {
                Ok(h) => spec_header_from_bytes(data@) == Ok::<HeaderView, HeaderErrorView>(h@),
                Err(e) => spec_header_from_bytes(data@) == Err::<HeaderView, HeaderErrorView>(e@),
            },
    {
        let len = data.len();
        if len < PAGE_SIZE {
            return Err(HeaderError::TooShort { need: PAGE_SIZE, have: len });
        }
        let computed_crc = crc32(slice_subrange(data, 0, PAGE_SIZE - 4));
        Self::from_bytes_checked(data, computed_crc)
    }

    /// Deserializes a master header from bytes whose first `PAGE_SIZE - 4` bytes
    /// have the checksum `computed_crc`: checks the length, the magic number, that
    /// the stored checksum equals `computed_crc`, the version, and then decodes and
    /// validates the metadata.
    pub fn from_bytes_checked(data: &[u8], computed_crc: u32) -> (r: Result<Self, HeaderError>)
        ensures
            match r {
                Ok(h) => spec_header_from_bytes_checked(data@, computed_crc) == Ok::<HeaderView, HeaderErrorView>(h@),
                Err(e) => spec_header_from_bytes_checked(data@, computed_crc) == Err::<HeaderView, HeaderErrorView>(e@),
            },
    {
        let ghost d = data@;
        let len = data.len();
        if len < PAGE_SIZE {
            return Err(HeaderError::TooShort { need: PAGE_SIZE, have: len });
        }
        if !has_magic(data) {
            return Err(HeaderError::BadMagic);
        }
        let stored_crc = read_u32(data, PAGE_SIZE - 4);
        if stored_crc != computed_crc {
            return Err(HeaderError::ChecksumMismatch { stored: stored_crc, computed: computed_crc });
        }
        let version = data[9];
        if version != FORMAT_VERSION {
            return Err(HeaderError::UnsupportedVersion { version });
        }
        let cf_count = read_u32(data, 10) as usize;
        let mut column_families: Vec<ColumnFamilyMetadata> = Vec::new();
        let mut offset: usize = 14;
        let mut i: usize = 0;
        assert(column_families@.map_values(|c: ColumnFamilyMetadata| c@) =~= Seq::<MetadataView>::empty());
        while i < cf_count
            invariant
                d == data@,
                len == d.len(),
                len >= PAGE_SIZE,
                d.subrange(0, 9) == magic_bytes(),
                from_le32(d.subrange(PAGE_SIZE - 4, PAGE_SIZE as int)) == computed_crc,
                d[9] == FORMAT_VERSION,
                version == d[9],
                cf_count == from_le32(d.subrange(10, 14)),
                i <= cf_count,
                offset <= len,
                parse_metadata_list(d, 14, i as nat) == Ok::<(Seq<MetadataView>, int), HeaderErrorView>(
                    (column_families@.map_values(|c: ColumnFamilyMetadata| c@), offset as int),
                ),
            decreases cf_count - i,
        {
            let rest = slice_subrange(data, offset, len);
            match ColumnFamilyMetadata::from_bytes(rest) {
                Ok((cf_meta, consumed)) => {
                    proof {
                        lemma_parse_metadata_consumed(rest@);
                    }
                    let ghost before = column_families@;
                    column_families.push(cf_meta);
                    assert(column_families@.map_values(|c: ColumnFamilyMetadata| c@) =~= before.map_values(
                        |c: ColumnFamilyMetadata| c@,
                    ).push(cf_meta@));
                    offset = offset + consumed;
                },
                Err(e) => {
                    proof {
                        lemma_parse_metadata_list_error(d, 14, (i + 1) as nat, cf_count as nat);
                    }
                    return Err(e);
                },
            }
            i = i + 1;
        }
        let ghost cfs_view = column_families@.map_values(|c: ColumnFamilyMetadata| c@);
        assert(parse_metadata_list(d, 14, cf_count as nat) == Ok::<(Seq<MetadataView>, int), HeaderErrorView>(
            (cfs_view, offset as int)));
        if len - offset < 4 {
            return Err(HeaderError::FreeCountTruncated);
        }
        let free_count = read_u32(data, offset) as usize;
        offset = offset + 4;
        let ghost base = offset;
        let mut free_segments: Vec<FreeSegment> = Vec::new();
        let mut k: usize = 0;
        while k < free_count
            invariant
                d == data@,
                len == d.len(),
                len >= PAGE_SIZE,
                d.subrange(0, 9) == magic_bytes(),
                from_le32(d.subrange(PAGE_SIZE - 4, PAGE_SIZE as int)) == computed_crc,
                d[9] == FORMAT_VERSION,
                version == d[9],
                cf_count == from_le32(d.subrange(10, 14)),
                parse_metadata_list(d, 14, cf_count as nat) == Ok::<(Seq<MetadataView>, int), HeaderErrorView>(
                    (cfs_view, base - 4)),
                base >= 4,
                free_count == from_le32(d.subrange(base - 4, base as int)),
                base <= len,
                k <= free_count,
                offset == base + 16 * k,
                offset <= len,
                free_segments@ == Seq::new(k as nat, |j: int| free_segment_at(d, base + 16 * j)),
            decreases free_count - k,
        {
            let rest = slice_subrange(data, offset, len);
            let (free_seg, consumed) = match FreeSegment::from_bytes(rest) {
                Ok(p) => p,
                Err(e) => {
                    assert(16 * (k as int) + 16 <= 16 * (free_count as int)) by (nonlinear_arith)
                        requires
                            k < free_count,
                    ;
                    return Err(e);
                },
            };
            assert(rest@.subrange(0, 8) =~= d.subrange(offset as int, offset + 8));
            assert(rest@.subrange(8, 16) =~= d.subrange(offset + 8, offset + 16));
            free_segments.push(free_seg);
            offset = offset + consumed;
            k = k + 1;
            assert(free_segments@ =~= Seq::new(k as nat, |j: int| free_segment_at(d, base + 16 * j)));
        }
        let header = Self { version, column_families, free_segments };
        assert(header@.column_families == cfs_view);
        assert(parse_header_checked(d, computed_crc) == Ok::<HeaderView, HeaderErrorView>(header@));
        match header.validate() {
            Ok(()) => Ok(header),
            Err(e) => Err(e),
        }
    }
}

/// A successful metadata decode consumes no more than the bytes it was given.
proof fn lemma_parse_metadata_consumed(d: Seq<u8>)
    ensures
        parse_metadata(d) matches Ok((m, c)) ==> 0 <= c <= d.len(),
{
}

/// An error decoding some entry of a list is also the error of every longer list.
proof fn lemma_parse_metadata_list_error(d: Seq<u8>, off: int, a: nat, b: nat)
    requires
        a <= b,
        parse_metadata_list(d, off, a) is Err,
    ensures
        parse_metadata_list(d, off, b) == parse_metadata_list(d, off, a),
    decreases b - a,
{
    if a < b {
        lemma_parse_metadata_list_error(d, off, a, (b - 1) as nat);
    }
}

} // verus!
