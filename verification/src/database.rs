//! A database of column families that share one file.
//!
//! The first page of the file holds the master header, which lays out every column
//! family as a list of segments of the file and keeps the free segments that deleted
//! column families left behind. The database keeps that header in memory together
//! with the state of each column family, and implements creating, finding, listing
//! and deleting column families and handing out segments to growing ones.

use crate::backend::{resized, spliced, storage_error_message, StorageBackend, StorageError};
use crate::header::{
    cf_names_unique, copy_segments, header_body, header_ends_fit, header_page, spec_end_of_file,
    spec_header_from_bytes, ColumnFamilyMetadata, FreeSegment, HeaderError, HeaderErrorView,
    HeaderView, MasterHeader, MetadataView, Segment, FORMAT_VERSION, PAGE_SIZE, header_error_message,
};
use crate::header_laws::lemma_valid_header;
use crate::layout_laws::{
    layout_disjoint, lemma_allocate_keeps_disjoint, lemma_create_keeps_disjoint,
    lemma_delete_keeps_disjoint, lemma_valid_layout_disjoint,
};
use crate::partitioned_backend::zeroed;
use crate::state::ColumnFamilyState;
use vstd::prelude::*;

verus! {

/// Default size allocated to a new column family (1 GiB).
pub const DEFAULT_COLUMN_FAMILY_SIZE: u64 = 1073741824;

/// Errors opening a database.
#[derive(Debug, Clone, PartialEq, Eq)]
pub enum DatabaseError {
    /// The storage failed.
    Storage(StorageError),
    /// The master header could not be encoded or decoded.
    Header(HeaderError),
}

/// Errors that can occur when working with column families.
#[derive(Debug, Clone, PartialEq, Eq)]
pub enum ColumnFamilyError {
    /// A column family with this name already exists.
    AlreadyExists(String),
    /// The requested column family was not found.
    NotFound(String),
    /// The master header could not be written: it no longer fits in its page.
    Database(DatabaseError),
    /// The storage failed.
    Io(StorageError),
}

/// The message of a database error: that of the storage or header error inside.
pub open spec fn database_error_message(e: DatabaseError) -> Seq<char> {
    match e {
        DatabaseError::Storage(s) => storage_error_message(s),
        DatabaseError::Header(h) => header_error_message(h@),
    }
}

/// The message of a column family error.
pub open spec fn column_family_error_message(e: ColumnFamilyError) -> Seq<char> {
    match e {
        ColumnFamilyError::AlreadyExists(name) => "column family '"@ + name@ + "' already exists"@,
        ColumnFamilyError::NotFound(name) => "column family '"@ + name@ + "' not found"@,
        ColumnFamilyError::Database(d) => "database error: "@ + database_error_message(d),
        ColumnFamilyError::Io(s) => "I/O error: "@ + storage_error_message(s),
    }
}

impl DatabaseError {
    /// The message of this error.
    pub fn message(&self) -> (m: String)
        ensures
            m@ == database_error_message(*self),
    {
        match self {
            DatabaseError::Storage(s) => s.message(),
            DatabaseError::Header(h) => h.message(),
        }
    }
}

impl ColumnFamilyError {
    /// The message of this error.
    pub fn message(&self) -> (m: String)
        ensures
            m@ == column_family_error_message(*self),
    {
        match self {
            ColumnFamilyError::AlreadyExists(name) => {
                let mut m = String::from_str("column family '");
                m.append(name.as_str());
                m.append("' already exists");
                m
            },
            ColumnFamilyError::NotFound(name) => {
                let mut m = String::from_str("column family '");
                m.append(name.as_str());
                m.append("' not found");
                m
            },
            ColumnFamilyError::Database(d) => {
                let mut m = String::from_str("database error: ");
                m.append(d.message().as_str());
                m
            },
            ColumnFamilyError::Io(s) => {
                let mut m = String::from_str("I/O error: ");
                m.append(s.message().as_str());
                m
            },
        }
    }
}

impl From<DatabaseError> for ColumnFamilyError {
    fn from(err: DatabaseError) -> (e: Self) {
        ColumnFamilyError::Database(err)
    }
}

impl vstd::std_specs::convert::FromSpecImpl<DatabaseError> for ColumnFamilyError {
    open spec fn obeys_from_spec() -> bool {
        true
    }

    open spec fn from_spec(err: DatabaseError) -> Self {
        ColumnFamilyError::Database(err)
    }
}

impl From<StorageError> for ColumnFamilyError {
    fn from(err: StorageError) -> (e: Self) {
        ColumnFamilyError::Io(err)
    }
}

impl vstd::std_specs::convert::FromSpecImpl<StorageError> for ColumnFamilyError {
    open spec fn obeys_from_spec() -> bool {
        true
    }

    open spec fn from_spec(err: StorageError) -> Self {
        ColumnFamilyError::Io(err)
    }
}

/// The storage error a header too large for its page is reported as.
fn header_too_large(e: HeaderError) -> (s: StorageError)
    requires
        e@ is TooLarge,
    ensures
        s == (StorageError::HeaderTooLarge { size: e@->TooLarge_size as usize }),
{
    match e {
        HeaderError::TooLarge { size } => StorageError::HeaderTooLarge { size },
        _ => StorageError::ExpansionOverflow,
    }
}

/// A handle to a column family of a [`ColumnFamilyDatabase`], by name.
pub struct ColumnFamily {
    name: String,
}

impl ColumnFamily {
    /// The name of the column family.
    pub closed spec fn spec_name(&self) -> Seq<char> {
        self.name@
    }

    /// Returns the name of this column family.
    pub fn name(&self) -> (n: &str)
        ensures
            n@ == self.spec_name(),
    {
        self.name.as_str()
    }
}

/// No two states belong to the same column family.
pub open spec fn states_unique<D>(s: Seq<ColumnFamilyState<D>>) -> bool {
    forall|i: int, j: int|
        #![trigger s[i], s[j]]
        0 <= i < s.len() && 0 <= j < s.len() && i != j ==> s[i].name@ != s[j].name@
}

/// Whether a column family named `name` has a state.
pub open spec fn state_has<D>(s: Seq<ColumnFamilyState<D>>, name: Seq<char>) -> bool {
    exists|i: int| 0 <= i < s.len() && #[trigger] s[i].name@ == name
}

/// The index of the state of `name` (meaningful when it has one).
pub open spec fn state_index<D>(s: Seq<ColumnFamilyState<D>>, name: Seq<char>) -> int {
    choose|i: int| 0 <= i < s.len() && #[trigger] s[i].name@ == name
}

/// The states describe exactly the column families of the header, in order.
pub open spec fn mirrors<D>(s: Seq<ColumnFamilyState<D>>, cfs: Seq<MetadataView>) -> bool {
    &&& s.len() == cfs.len()
    &&& forall|i: int|
        0 <= i < s.len() ==> #[trigger] s[i].name@ == cfs[i].name && s[i].segments@ == cfs[i].segments
}

/// A header with no column families and no free segments.
pub open spec fn empty_header() -> HeaderView {
    HeaderView {
        version: FORMAT_VERSION,
        column_families: Seq::empty(),
        free_segments: Seq::empty(),
    }
}

/// The header after adding column family `name` of `size` bytes at the end of the
/// file.
pub open spec fn with_new_column_family(h: HeaderView, name: Seq<char>, size: u64) -> HeaderView {
    HeaderView {
        column_families: h.column_families.push(
            MetadataView {
                name,
                segments: seq![Segment { offset: spec_end_of_file(h) as u64, size }],
            },
        ),
        ..h
    }
}

/// `j` is the first column family of `cfs` named `name`.
pub open spec fn is_first_named(cfs: Seq<MetadataView>, name: Seq<char>, j: int) -> bool {
    &&& 0 <= j < cfs.len()
    &&& cfs[j].name == name
    &&& forall|k: int| 0 <= k < j ==> #[trigger] cfs[k].name != name
}

/// Whether some column family of `cfs` is named `name`.
pub open spec fn header_has(cfs: Seq<MetadataView>, name: Seq<char>) -> bool {
    exists|j: int| 0 <= j < cfs.len() && #[trigger] cfs[j].name == name
}

/// The first column family of `cfs` named `name` (meaningful when there is one).
pub open spec fn first_named(cfs: Seq<MetadataView>, name: Seq<char>) -> int {
    choose|j: int| is_first_named(cfs, name, j)
}

/// Free segments covering the same bytes as `segs`.
pub open spec fn as_free(segs: Seq<Segment>) -> Seq<FreeSegment> {
    segs.map_values(|s: Segment| FreeSegment { offset: s.offset, size: s.size })
}

/// The header after deleting the column family at index `j`: it is removed, and
/// its segments join the end of the free list.
pub open spec fn without_column_family(h: HeaderView, j: int) -> HeaderView {
    HeaderView {
        column_families: h.column_families.remove(j),
        free_segments: h.free_segments + as_free(h.column_families[j].segments),
        ..h
    }
}

/// Whether free segment `f` can take an allocation of `size` bytes: it holds at
/// least that many (a free segment of `u64::MAX` bytes is never chosen).
pub open spec fn can_hold(f: FreeSegment, size: u64) -> bool {
    size <= f.size && f.size < u64::MAX
}

/// Whether some free segment can take `size` bytes.
pub open spec fn has_fit(free: Seq<FreeSegment>, size: u64) -> bool {
    exists|j: int| 0 <= j < free.len() && #[trigger] can_hold(free[j], size)
}

/// `i` is the best fit for `size`: the first of the smallest free segments that can
/// take it.
pub open spec fn is_best_fit(free: Seq<FreeSegment>, size: u64, i: int) -> bool {
    &&& 0 <= i < free.len()
    &&& can_hold(free[i], size)
    &&& forall|j: int| 0 <= j < free.len() && #[trigger] can_hold(free[j], size) ==> free[i].size <= free[j].size
    &&& forall|j: int| 0 <= j < i && #[trigger] can_hold(free[j], size) ==> free[i].size < free[j].size
}

/// The best fit among the first `n` free segments, as a front-to-back scan finds it
/// (`-1` if none can take `size` bytes).
pub open spec fn best_fit_upto(free: Seq<FreeSegment>, size: u64, n: int) -> int
    decreases n,
{
    if n <= 0 {
        -1
    } else {
        let k = best_fit_upto(free, size, n - 1);
        if can_hold(free[n - 1], size) && (k < 0 || free[n - 1].size < free[k].size) {
            n - 1
        } else {
            k
        }
    }
}

/// The best fit for `size` (meaningful when there is one).
pub open spec fn best_fit(free: Seq<FreeSegment>, size: u64) -> int {
    best_fit_upto(free, size, free.len() as int)
}

/// `x` rounded up to a multiple of `PAGE_SIZE`.
pub open spec fn page_aligned_up(x: int) -> int {
    ((x + PAGE_SIZE - 1) / (PAGE_SIZE as int)) * PAGE_SIZE
}

/// The segment handed out for `size` bytes: the start of the best-fitting free
/// segment, or else the end of the file rounded up to a page.
pub open spec fn allocation(h: HeaderView, size: u64) -> Segment {
    if has_fit(h.free_segments, size) {
        Segment { offset: h.free_segments[best_fit(h.free_segments, size)].offset, size }
    } else {
        Segment { offset: page_aligned_up(spec_end_of_file(h)) as u64, size }
    }
}

/// The free list after handing out `size` bytes: the best fit is taken out, and
/// what it holds beyond `size` goes back at the end of the list.
pub open spec fn free_after_allocation(free: Seq<FreeSegment>, size: u64) -> Seq<FreeSegment> {
    if has_fit(free, size) {
        let i = best_fit(free, size);
        let rest = free.remove(i);
        if free[i].size == size {
            rest
        } else {
            rest.push(FreeSegment { offset: (free[i].offset + size) as u64, size: (free[i].size - size) as u64 })
        }
    } else {
        free
    }
}

/// The column families after adding `seg` to the first one named `name` (unchanged
/// when there is none).
pub open spec fn cfs_with_segment(cfs: Seq<MetadataView>, name: Seq<char>, seg: Segment) -> Seq<MetadataView> {
    if header_has(cfs, name) {
        let j = first_named(cfs, name);
        cfs.update(j, MetadataView { name: cfs[j].name, segments: cfs[j].segments.push(seg) })
    } else {
        cfs
    }
}

/// `after` is `before` with `seg` added to the segments of the state of `name`
/// (unchanged when there is none).
pub open spec fn states_with_segment<D>(
    before: Seq<ColumnFamilyState<D>>,
    after: Seq<ColumnFamilyState<D>>,
    name: Seq<char>,
    seg: Segment,
) -> bool {
    if state_has(before, name) {
        let i = state_index(before, name);
        &&& after.len() == before.len()
        &&& forall|k: int| 0 <= k < before.len() && k != i ==> #[trigger] after[k] == before[k]
        &&& after[i].name == before[i].name
        &&& after[i].db == before[i].db
        &&& after[i].segments@ == before[i].segments@.push(seg)
    } else {
        after == before
    }
}

/// The first column family with a name is the only one that is first.
pub proof fn lemma_first_named_unique(cfs: Seq<MetadataView>, name: Seq<char>, j: int)
    requires
        is_first_named(cfs, name, j),
    ensures
        header_has(cfs, name),
        first_named(cfs, name) == j,
{
    assert(cfs[j].name == name);
    let c = first_named(cfs, name);
    assert(is_first_named(cfs, name, c));
    if c < j {
        assert(cfs[c].name != name);
    } else if j < c {
        assert(cfs[j].name != name);
    }
}

/// What the front-to-back scan finds among the first `n` free segments.
pub proof fn lemma_best_fit_upto(free: Seq<FreeSegment>, size: u64, n: int)
    requires
        0 <= n <= free.len(),
    ensures
        best_fit_upto(free, size, n) < 0 ==> forall|j: int| 0 <= j < n ==> !#[trigger] can_hold(free[j], size),
        best_fit_upto(free, size, n) >= 0 ==> {
            let k = best_fit_upto(free, size, n);
            &&& k < n
            &&& can_hold(free[k], size)
            &&& forall|j: int| 0 <= j < n && #[trigger] can_hold(free[j], size) ==> free[k].size <= free[j].size
            &&& forall|j: int| 0 <= j < k && #[trigger] can_hold(free[j], size) ==> free[k].size < free[j].size
        },
    decreases n,
{
    if n > 0 {
        lemma_best_fit_upto(free, size, n - 1);
    }
}

/// The size a column family is created with: the one asked for, or the default.
pub open spec fn size_or_default(size: Option<u64>) -> u64 {
    match size {
        Some(s) => s,
        None => DEFAULT_COLUMN_FAMILY_SIZE,
    }
}

/// A database of column families that share one file, whose first page holds the
/// master header.
pub struct ColumnFamilyDatabase<B, D> {
    header_backend: B,
    header: MasterHeader,
    column_families: Vec<ColumnFamilyState<D>>,
}

impl<B: StorageBackend, D> ColumnFamilyDatabase<B, D> {
    /// The master header held in memory.
    pub closed spec fn layout(&self) -> HeaderView {
        self.header@
    }

    /// The storage of the file.
    pub closed spec fn backend(&self) -> B {
        self.header_backend
    }

    /// The states of the column families.
    pub closed spec fn states(&self) -> Seq<ColumnFamilyState<D>> {
        self.column_families@
    }

    /// The bytes of the file.
    pub open spec fn stored(&self) -> Seq<u8> {
        self.backend().contents()
    }

    /// The database's invariant: segment ends fit in a u64, and no two states
    /// belong to the same column family.
    pub open spec fn wf(&self) -> bool {
        &&& header_ends_fit(self.layout())
        &&& states_unique(self.states())
    }

    /// The states describe exactly the column families of the header.
    pub open spec fn in_sync(&self) -> bool {
        mirrors(self.states(), self.layout().column_families)
    }

    /// The first page of the file holds the header held in memory.
    pub open spec fn persisted(&self) -> bool {
        &&& self.stored().len() >= PAGE_SIZE
        &&& self.stored().subrange(0, PAGE_SIZE as int) == header_page(self.layout())
    }

    /// Reads the master header of the file `backend`, or, if the file is empty,
    /// writes and syncs a new, empty one. A file that is not empty is only read:
    /// whatever comes back, its bytes stay as they were.
    pub fn load_header(backend: &mut B) -> (r: Result<MasterHeader, DatabaseError>)
        ensures
            old(backend).contents().len() > 0 ==> final(backend).contents() == old(backend).contents(),
            r matches Ok(h) ==> {
                &&& old(backend).contents().len() == 0 ==> h@ == empty_header()
                    && final(backend).contents() == header_page(empty_header())
                    && final(backend).contents().len() == PAGE_SIZE
                &&& old(backend).contents().len() > 0 ==> {
                    &&& old(backend).contents().len() >= PAGE_SIZE
                    &&& spec_header_from_bytes(old(backend).contents().subrange(0, PAGE_SIZE as int))
                        == Ok::<HeaderView, HeaderErrorView>(h@)
                }
            },
            old(backend).contents().len() > 0 && (old(backend).contents().len() < PAGE_SIZE
                || spec_header_from_bytes(old(backend).contents().subrange(0, PAGE_SIZE as int)) is Err) ==> r is Err,
            r matches Err(DatabaseError::Header(e)) ==> {
                &&& old(backend).contents().len() >= PAGE_SIZE
                &&& spec_header_from_bytes(old(backend).contents().subrange(0, PAGE_SIZE as int))
                    == Err::<HeaderView, HeaderErrorView>(e@)
            },
            old(backend).contents().len() >= PAGE_SIZE
                && spec_header_from_bytes(old(backend).contents().subrange(0, PAGE_SIZE as int)) is Err ==> {
                ||| r matches Err(DatabaseError::Storage(_))
                ||| r matches Err(DatabaseError::Header(e)) && Err::<HeaderView, HeaderErrorView>(e@)
                    == spec_header_from_bytes(old(backend).contents().subrange(0, PAGE_SIZE as int))
            },
            final(backend).dependable() == old(backend).dependable(),
            old(backend).dependable() && (old(backend).contents().len() == 0 || (old(backend).contents().len() >= PAGE_SIZE
                && spec_header_from_bytes(old(backend).contents().subrange(0, PAGE_SIZE as int)) is Ok)) ==> r is Ok,
    {
        let len = match backend.len() {
            Ok(n) => n,
            Err(e) => return Err(DatabaseError::Storage(e)),
        };
        if len == 0 {
            let header = MasterHeader::new();
            assert(header@.column_families =~= Seq::<MetadataView>::empty());
            assert(header@.free_segments =~= Seq::<FreeSegment>::empty());
            assert(header@ == empty_header());
            assert(header_body(header@).len() == 18) by {
                crate::codec::lemma_le_roundtrip();
                assert(crate::header::metadata_list_bytes(Seq::<MetadataView>::empty()).len() == 0);
                assert(crate::header::free_segments_bytes(Seq::<FreeSegment>::empty()).len() == 0);
                assert(crate::header::magic_bytes().len() == 9);
            }
            let bytes = match header.to_bytes() {
                Ok(b) => b,
                Err(e) => return Err(DatabaseError::Header(e)),
            };
            // The page lies past the end of the empty file: grow the file to hold it.
            match backend.set_len(PAGE_SIZE as u64) {
                Ok(()) => {},
                Err(e) => return Err(DatabaseError::Storage(e)),
            }
            assert(backend.contents().len() == PAGE_SIZE);
            match backend.write(0, bytes.as_slice()) {
                Ok(()) => {},
                Err(e) => return Err(DatabaseError::Storage(e)),
            }
            match backend.sync_data() {
                Ok(()) => {},
                Err(e) => return Err(DatabaseError::Storage(e)),
            }
            assert(backend.contents() =~= header_page(header@));
            assert(backend.contents().subrange(0, PAGE_SIZE as int) =~= backend.contents());
            Ok(header)
        } else {
            let mut page = zeroed(PAGE_SIZE);
            match backend.read(0, page.as_mut_slice()) {
                Ok(()) => {},
                Err(e) => return Err(DatabaseError::Storage(e)),
            }
            match MasterHeader::from_bytes(page.as_slice()) {
                Ok(h) => Ok(h),
                Err(e) => Err(DatabaseError::Header(e)),
            }
        }
    }

    /// Opens the database whose file is `backend`: an empty file gets a new, empty
    /// master header, written and synced; otherwise the header is read from the
    /// first page, decoded and validated. The storage is accessed only through
    /// `load_header`, so a file that is not empty is only read.
    pub fn open_with_backend(backend: B) -> (r: Result<Self, DatabaseError>)
        ensures
            r matches Ok(db) ==> {
                &&& db.wf()
                &&& db.in_sync()
                &&& layout_disjoint(db.layout())
                &&& forall|i: int| 0 <= i < db.states().len() ==> #[trigger] db.states()[i].db is None
                &&& backend.contents().len() == 0 ==> db.layout() == empty_header() && db.persisted()
                &&& backend.contents().len() > 0 ==> {
                    &&& db.stored() == backend.contents()
                    &&& backend.contents().len() >= PAGE_SIZE
                    &&& spec_header_from_bytes(backend.contents().subrange(0, PAGE_SIZE as int))
                        == Ok::<HeaderView, HeaderErrorView>(db.layout())
                }
            },
            backend.contents().len() > 0 && (backend.contents().len() < PAGE_SIZE
                || spec_header_from_bytes(backend.contents().subrange(0, PAGE_SIZE as int)) is Err) ==> r is Err,
            r matches Err(DatabaseError::Header(e)) ==> {
                &&& backend.contents().len() >= PAGE_SIZE
                &&& spec_header_from_bytes(backend.contents().subrange(0, PAGE_SIZE as int))
                    == Err::<HeaderView, HeaderErrorView>(e@)
            },
            backend.contents().len() >= PAGE_SIZE
                && spec_header_from_bytes(backend.contents().subrange(0, PAGE_SIZE as int)) is Err ==> {
                ||| r matches Err(DatabaseError::Storage(_))
                ||| r matches Err(DatabaseError::Header(e)) && Err::<HeaderView, HeaderErrorView>(e@)
                    == spec_header_from_bytes(backend.contents().subrange(0, PAGE_SIZE as int))
            },
            backend.dependable() && (backend.contents().len() == 0 || (backend.contents().len() >= PAGE_SIZE
                && spec_header_from_bytes(backend.contents().subrange(0, PAGE_SIZE as int)) is Ok)) ==> r is Ok,
            r matches Ok(db) ==> db.backend().dependable() == backend.dependable(),
    {
        let mut backend = backend;
        let ghost len = backend.contents().len();
        let header = match Self::load_header(&mut backend) {
            Ok(h) => h,
            Err(e) => return Err(e),
        };
        proof {
            if len == 0 {
                assert(backend.contents().subrange(0, PAGE_SIZE as int) =~= backend.contents());
            }
        }
        proof {
            if len > 0 {
                lemma_valid_header(header@);
                lemma_valid_layout_disjoint(header@);
            }
        }
        let mut states: Vec<ColumnFamilyState<D>> = Vec::new();
        let ghost h = header@;
        let mut i: usize = 0;
        while i < header.column_families.len()
            invariant
                h == header@,
                i <= h.column_families.len(),
                states@.len() == i,
                forall|k: int|
                    0 <= k < i ==> #[trigger] states@[k].name@ == h.column_families[k].name
                        && states@[k].segments@ == h.column_families[k].segments
                        && states@[k].db is None,
            decreases h.column_families.len() - i,
        {
            let cf = &header.column_families[i];
            assert(h.column_families[i as int] == cf@);
            let state = ColumnFamilyState::new(cf.name.clone(), copy_segments(&cf.segments));
            let ghost prev = states@;
            states.push(state);
            proof {
                assert forall|k: int| 0 <= k < i + 1 implies #[trigger] states@[k].name@ == h.column_families[k].name
                    && states@[k].segments@ == h.column_families[k].segments && states@[k].db is None by {
                    if k < i {
                        assert(states@[k] == prev[k]);
                    }
                }
            }
            i = i + 1;
        }
        let db = Self { header_backend: backend, header, column_families: states };
        proof {
            assert(mirrors(db.states(), db.layout().column_families));
            let s = db.states();
            let cfs = db.layout().column_families;
            assert forall|k: int| 0 <= k < s.len() implies #[trigger] s[k].db is None by {
                assert(s[k].name@ == cfs[k].name);
            }
            assert forall|a: int, b: int|
                0 <= a < s.len() && 0 <= b < s.len() && a != b implies #[trigger] s[a].name@ != #[trigger] s[b].name@ by {
                assert(s[a].name@ == cfs[a].name && s[b].name@ == cfs[b].name);
            }
        }
        Ok(db)
    }

    /// What creating column family `name` of `size` bytes does, from `self` to
    /// `after`, returning `r`. An existing name is refused and nothing changes.
    /// Otherwise the column family is added to the header at the end of the file,
    /// and the header is written to the first page and synced; the header keeps the
    /// new column family even when this fails. On success the file is grown to
    /// cover the new column family (without touching what lies past the header
    /// page) and a state is added for it.
    pub open spec fn creates(self, after: Self, name: Seq<char>, size: u64, r: Result<ColumnFamily, ColumnFamilyError>) -> bool {
        if state_has(self.states(), name) {
            &&& r matches Err(ColumnFamilyError::AlreadyExists(n)) && n@ == name
            &&& after.layout() == self.layout()
            &&& after.states() == self.states()
            &&& after.stored() == self.stored()
        } else {
            let h = with_new_column_family(self.layout(), name, size);
            let eof = spec_end_of_file(self.layout());
            &&& after.layout() == h
            &&& header_body(h).len() > PAGE_SIZE - 4 ==> r == Err::<ColumnFamily, ColumnFamilyError>(
                ColumnFamilyError::Io(StorageError::HeaderTooLarge { size: header_body(h).len() as usize }),
            ) && after.stored() == self.stored()
            &&& r is Err ==> after.states() == self.states()
            &&& r is Err ==> (r matches Err(ColumnFamilyError::Io(_)))
            &&& r matches Ok(cf) ==> {
                &&& cf.spec_name() == name
                &&& after.states().len() == self.states().len() + 1
                &&& after.states().drop_last() == self.states()
                &&& after.states().last().name@ == name
                &&& after.states().last().segments@ == seq![Segment { offset: eof as u64, size }]
                &&& after.states().last().db is None
                &&& after.persisted()
                &&& after.stored().len() >= eof + size
                &&& forall|i: int|
                    PAGE_SIZE <= i < self.stored().len() ==> #[trigger] after.stored()[i] == self.stored()[i]
            }
        }
    }

    /// Whether creating column family `name` of `size` bytes is bound to succeed:
    /// the storage is dependable and holds the header page, the name is new, the
    /// new header fits in its page and the file can grow to the new end.
    pub open spec fn create_succeeds(self, name: Seq<char>, size: u64) -> bool {
        &&& self.backend().dependable()
        &&& self.stored().len() >= PAGE_SIZE
        &&& !state_has(self.states(), name)
        &&& header_body(with_new_column_family(self.layout(), name, size)).len() <= PAGE_SIZE - 4
        &&& spec_end_of_file(self.layout()) + size <= usize::MAX
    }

    /// Creates a new column family named `name` of `size` bytes (default 1 GiB),
    /// laid out at the end of the file.
    ///
    /// The column family is cheap to create: its database is opened on first use.
    pub fn create_column_family(&mut self, name: &str, size: Option<u64>) -> (r: Result<
        ColumnFamily,
        ColumnFamilyError,
    >)
        requires
            old(self).wf(),
            !state_has(old(self).states(), name@) ==> spec_end_of_file(old(self).layout()) + size_or_default(size) <= u64::MAX,
        ensures
            final(self).wf(),
            (*old(self)).creates(*final(self), name@, size_or_default(size), r),
            old(self).in_sync() && r is Ok ==> final(self).in_sync(),
            layout_disjoint(old(self).layout()) ==> layout_disjoint(final(self).layout()),
            final(self).backend().dependable() == old(self).backend().dependable(),
            (*old(self)).create_succeeds(name@, size_or_default(size)) ==> r is Ok,
    {
        let key = name.to_owned();
        let size = match size {
            Some(s) => s,
            None => DEFAULT_COLUMN_FAMILY_SIZE,
        };
        if self.find_state(&key).is_some() {
            return Err(ColumnFamilyError::AlreadyExists(key));
        }
        let ghost h0 = self.header@;
        let ghost states0 = self.column_families@;
        let ghost stored0 = self.header_backend.contents();
        let offset = self.header.end_of_file();
        let metadata = ColumnFamilyMetadata::new(key.clone(), offset, size);
        self.header.column_families.push(metadata);
        proof {
            let h = self.header@;
            assert(h.column_families =~= h0.column_families.push(
                MetadataView { name: name@, segments: seq![Segment { offset, size }] },
            ));
            assert(h == with_new_column_family(h0, name@, size));
            assert(layout_disjoint(h0) ==> layout_disjoint(h)) by {
                if layout_disjoint(h0) {
                    lemma_create_keeps_disjoint(h0, name@, size);
                }
            }
            assert forall|i: int, j: int|
                0 <= i < h.column_families.len() && 0 <= j < h.column_families[i].segments.len()
                    implies #[trigger] h.column_families[i].segments[j].spec_end() <= u64::MAX by {
                if i < h0.column_families.len() {
                    assert(h.column_families[i] == h0.column_families[i]);
                }
            }
        }
        let header_bytes = match self.header.to_bytes() {
            Ok(b) => b,
            Err(e) => return Err(ColumnFamilyError::Io(header_too_large(e))),
        };
        match self.header_backend.write(0, header_bytes.as_slice()) {
            Ok(()) => {},
            Err(e) => return Err(ColumnFamilyError::Io(e)),
        }
        match self.header_backend.sync_data() {
            Ok(()) => {},
            Err(e) => return Err(ColumnFamilyError::Io(e)),
        }
        let ghost stored1 = self.header_backend.contents();
        assert(stored1 == spliced(stored0, 0, header_page(self.header@)));
        let new_file_size = offset + size;
        let current_file_size = match self.header_backend.len() {
            Ok(n) => n,
            Err(e) => return Err(ColumnFamilyError::Io(e)),
        };
        if new_file_size > current_file_size {
            match self.header_backend.set_len(new_file_size) {
                Ok(()) => {},
                Err(e) => return Err(ColumnFamilyError::Io(e)),
            }
        }
        proof {
            let st = self.header_backend.contents();
            assert(st.len() >= stored1.len());
            assert forall|i: int| 0 <= i < stored1.len() implies #[trigger] st[i] == stored1[i] by {}
            assert(st.subrange(0, PAGE_SIZE as int) =~= header_page(self.header@));
        }
        let mut segments: Vec<Segment> = Vec::new();
        segments.push(Segment::new(offset, size));
        let state = ColumnFamilyState::new(key.clone(), segments);
        self.column_families.push(state);
        proof {
            let s = self.column_families@;
            assert(s.drop_last() =~= states0);
            assert(s.last().segments@ =~= seq![Segment { offset, size }]);
            assert forall|a: int, b: int|
                0 <= a < s.len() && 0 <= b < s.len() && a != b implies #[trigger] s[a].name@ != #[trigger] s[b].name@ by {
                if a < states0.len() {
                    assert(s[a] == states0[a]);
                }
                if b < states0.len() {
                    assert(s[b] == states0[b]);
                }
            }
            if mirrors(states0, h0.column_families) {
                let cfs = self.header@.column_families;
                assert(cfs.len() == h0.column_families.len() + 1);
                assert forall|i: int| 0 <= i < s.len() implies #[trigger] s[i].name@ == cfs[i].name
                    && s[i].segments@ == cfs[i].segments by {
                    if i < states0.len() {
                        assert(s[i] == states0[i]);
                        assert(cfs[i] == h0.column_families[i]);
                        assert(states0[i].name@ == h0.column_families[i].name);
                    } else {
                        assert(i == states0.len());
                        assert(cfs[i] == (MetadataView { name: name@, segments: seq![Segment { offset, size }] }));
                    }
                }
            }
        }
        Ok(ColumnFamily { name: key })
    }

    /// What deleting column family `name` does, from `self` to `after`, returning
    /// `r`. A name without a state is refused and nothing changes. Otherwise the
    /// state is dropped; then the first column family of the header with that name
    /// is removed, its segments are added to the free list, and the header is
    /// written to the first page and synced.
    pub open spec fn deletes(self, after: Self, name: Seq<char>, r: Result<(), ColumnFamilyError>) -> bool {
        if !state_has(self.states(), name) {
            &&& r matches Err(ColumnFamilyError::NotFound(n)) && n@ == name
            &&& after.layout() == self.layout()
            &&& after.states() == self.states()
            &&& after.stored() == self.stored()
        } else {
            &&& after.states() == self.states().remove(state_index(self.states(), name))
            &&& if !header_has(self.layout().column_families, name) {
                &&& r matches Err(ColumnFamilyError::NotFound(n)) && n@ == name
                &&& after.layout() == self.layout()
                &&& after.stored() == self.stored()
            } else {
                let h = without_column_family(self.layout(), first_named(self.layout().column_families, name));
                &&& after.layout() == h
                &&& header_body(h).len() > PAGE_SIZE - 4 ==> r == Err::<(), ColumnFamilyError>(
                    ColumnFamilyError::Io(StorageError::HeaderTooLarge { size: header_body(h).len() as usize }),
                ) && after.stored() == self.stored()
                &&& r is Err ==> (r matches Err(ColumnFamilyError::Io(_)))
                &&& r is Ok ==> {
                    &&& after.persisted()
                    &&& forall|i: int|
                        PAGE_SIZE <= i < self.stored().len() ==> #[trigger] after.stored()[i] == self.stored()[i]
                }
            }
        }
    }

    /// The index of the first column family of the header named `key`, if any.
    fn find_in_header(&self, key: &String) -> (r: Option<usize>)
        ensures
            match r {
                Some(j) => is_first_named(self.layout().column_families, key@, j as int),
                None => !header_has(self.layout().column_families, key@),
            },
    {
        let ghost cfs = self.header@.column_families;
        let mut j: usize = 0;
        while j < self.header.column_families.len()
            invariant
                cfs == self.layout().column_families,
                j <= cfs.len(),
                forall|k: int| 0 <= k < j ==> #[trigger] cfs[k].name != key@,
            decreases cfs.len() - j,
        {
            assert(cfs[j as int] == self.header.column_families@[j as int]@);
            if self.header.column_families[j].name == *key {
                return Some(j);
            }
            j = j + 1;
        }
        None
    }

    /// Whether deleting column family `name` is bound to succeed: the storage is
    /// dependable and holds the header page, the name has a state and is in the
    /// header, and the header without it fits in its page.
    pub open spec fn delete_succeeds(self, name: Seq<char>) -> bool {
        &&& self.backend().dependable()
        &&& self.stored().len() >= PAGE_SIZE
        &&& state_has(self.states(), name)
        &&& header_has(self.layout().column_families, name)
        &&& header_body(without_column_family(self.layout(), first_named(self.layout().column_families, name))).len()
            <= PAGE_SIZE - 4
    }

    /// Deletes a column family and adds its segments to the free list for reuse.
    pub fn delete_column_family(&mut self, name: &str) -> (r: Result<(), ColumnFamilyError>)
        requires
            old(self).wf(),
        ensures
            final(self).wf(),
            (*old(self)).deletes(*final(self), name@, r),
            old(self).in_sync() && r is Ok ==> final(self).in_sync(),
            layout_disjoint(old(self).layout()) ==> layout_disjoint(final(self).layout()),
            final(self).backend().dependable() == old(self).backend().dependable(),
            (*old(self)).delete_succeeds(name@) ==> r is Ok,
    {
        let key = name.to_owned();
        let ghost states0 = self.column_families@;
        let ghost h0 = self.header@;
        let ghost stored0 = self.header_backend.contents();
        let i = match self.find_state(&key) {
            Some(i) => i,
            None => return Err(ColumnFamilyError::NotFound(key)),
        };
        proof {
            let c = state_index(states0, name@);
            assert(states0[c].name@ == name@);
        }
        self.column_families.remove(i);
        proof {
            let s = self.column_families@;
            assert forall|a: int, b: int|
                0 <= a < s.len() && 0 <= b < s.len() && a != b implies #[trigger] s[a].name@ != #[trigger] s[b].name@ by {
                let a0 = if a < i { a } else { a + 1 };
                let b0 = if b < i { b } else { b + 1 };
                assert(s[a] == states0[a0] && s[b] == states0[b0]);
            }
        }
        let j = match self.find_in_header(&key) {
            Some(j) => j,
            None => return Err(ColumnFamilyError::NotFound(key)),
        };
        proof {
            let c = first_named(h0.column_families, name@);
            assert(is_first_named(h0.column_families, name@, j as int));
            if c < j {
                assert(h0.column_families[c].name != name@);
            } else if j < c {
                assert(h0.column_families[j as int].name != name@);
            }
        }
        let meta = self.header.column_families.remove(j);
        let ghost free0 = self.header.free_segments@;
        let ghost states1 = self.column_families@;
        let ghost backend1 = self.header_backend;
        let mut k: usize = 0;
        while k < meta.segments.len()
            invariant
                k <= meta.segments@.len(),
                self.header.free_segments@ == free0 + as_free(meta.segments@.subrange(0, k as int)),
                self.header.column_families@ == old(self).header.column_families@.remove(j as int),
                self.header.version == old(self).header.version,
                self.column_families@ == states1,
                self.header_backend == backend1,
            decreases meta.segments@.len() - k,
        {
            let seg = meta.segments[k];
            self.header.free_segments.push(FreeSegment::new(seg.offset, seg.size));
            k = k + 1;
            assert(self.header.free_segments@ =~= free0 + as_free(meta.segments@.subrange(0, k as int)));
        }
        assert(meta.segments@.subrange(0, k as int) =~= meta.segments@);
        proof {
            let h = self.header@;
            assert(h.column_families =~= h0.column_families.remove(j as int));
            assert(h == without_column_family(h0, j as int));
            assert(layout_disjoint(h0) ==> layout_disjoint(h)) by {
                if layout_disjoint(h0) {
                    lemma_delete_keeps_disjoint(h0, j as int);
                }
            }
            assert forall|a: int, b: int|
                0 <= a < h.column_families.len() && 0 <= b < h.column_families[a].segments.len()
                    implies #[trigger] h.column_families[a].segments[b].spec_end() <= u64::MAX by {
                let a0 = if a < j { a } else { a + 1 };
                assert(h.column_families[a] == h0.column_families[a0]);
            }
            assert forall|c: int| 0 <= c < h.free_segments.len() implies #[trigger] h.free_segments[c].offset
                + h.free_segments[c].size <= u64::MAX by {
                if c >= h0.free_segments.len() {
                    let b = c - h0.free_segments.len();
                    assert(h0.column_families[j as int].segments[b].spec_end() <= u64::MAX);
                }
            }
            if mirrors(states0, h0.column_families) {
                let s = self.column_families@;
                let cfs = h.column_families;
                assert(states0[i as int].name@ == h0.column_families[i as int].name);
                if i < j {
                    assert(h0.column_families[i as int].name != name@);
                }
                if j < i {
                    assert(states0[j as int].name@ == h0.column_families[j as int].name);
                }
                assert(i == j);
                assert forall|a: int| 0 <= a < s.len() implies #[trigger] s[a].name@ == cfs[a].name
                    && s[a].segments@ == cfs[a].segments by {
                    let a0 = if a < i { a } else { a + 1 };
                    assert(s[a] == states0[a0]);
                    assert(cfs[a] == h0.column_families[a0]);
                }
            }
        }
        let header_bytes = match self.header.to_bytes() {
            Ok(b) => b,
            Err(e) => return Err(ColumnFamilyError::Io(header_too_large(e))),
        };
        match self.header_backend.write(0, header_bytes.as_slice()) {
            Ok(()) => {},
            Err(e) => return Err(ColumnFamilyError::Io(e)),
        }
        match self.header_backend.sync_data() {
            Ok(()) => {},
            Err(e) => return Err(ColumnFamilyError::Io(e)),
        }
        proof {
            let st = self.header_backend.contents();
            assert(st.subrange(0, PAGE_SIZE as int) =~= header_page(self.header@));
        }
        Ok(())
    }

    /// Retrieves a handle to a column family, creating it with the default size
    /// if it does not exist.
    pub fn column_family_or_create(&mut self, name: &str) -> (r: Result<ColumnFamily, ColumnFamilyError>)
        requires
            old(self).wf(),
            !state_has(old(self).states(), name@) ==> spec_end_of_file(old(self).layout())
                + DEFAULT_COLUMN_FAMILY_SIZE <= u64::MAX,
        ensures
            final(self).wf(),
            state_has(old(self).states(), name@) ==> {
                &&& r matches Ok(cf) && cf.spec_name() == name@
                &&& final(self).layout() == old(self).layout()
                &&& final(self).states() == old(self).states()
                &&& final(self).stored() == old(self).stored()
            },
            !state_has(old(self).states(), name@) ==> (*old(self)).creates(
                *final(self),
                name@,
                DEFAULT_COLUMN_FAMILY_SIZE,
                r,
            ),
            old(self).in_sync() && r is Ok ==> final(self).in_sync(),
            layout_disjoint(old(self).layout()) ==> layout_disjoint(final(self).layout()),
            final(self).backend().dependable() == old(self).backend().dependable(),
            (*old(self)).create_succeeds(name@, DEFAULT_COLUMN_FAMILY_SIZE) ==> r is Ok,
    {
        let key = name.to_owned();
        if self.find_state(&key).is_some() {
            return Ok(ColumnFamily { name: key });
        }
        self.create_column_family(name, None)
    }

    /// Hands out a segment of `size` bytes to column family `cf_name`: the start of
    /// the smallest free segment that can take it (the first such, with the rest of
    /// it going back to the free list), or else a new segment at the end of the
    /// file, rounded up to a page. The segment is recorded in the header and in the
    /// column family's state; the header is not written (it is written with the next
    /// change that persists it). Fails, changing nothing, when a new segment at the
    /// end of the file would end past `u64::MAX`.
    pub fn allocate_segment(&mut self, cf_name: &str, size: u64) -> (r: Result<Segment, StorageError>)
        requires
            old(self).wf(),
        ensures
            final(self).wf(),
            final(self).stored() == old(self).stored(),
            match r {
                Ok(seg) => {
                    &&& seg == allocation(old(self).layout(), size)
                    &&& final(self).layout() == HeaderView {
                        column_families: cfs_with_segment(old(self).layout().column_families, cf_name@, seg),
                        free_segments: free_after_allocation(old(self).layout().free_segments, size),
                        ..old(self).layout()
                    }
                    &&& states_with_segment(old(self).states(), final(self).states(), cf_name@, seg)
                },
                Err(e) => {
                    &&& e == StorageError::ExpansionOverflow
                    &&& !has_fit(old(self).layout().free_segments, size)
                    &&& page_aligned_up(spec_end_of_file(old(self).layout())) + size > u64::MAX
                    &&& final(self).layout() == old(self).layout()
                    &&& final(self).states() == old(self).states()
                },
            },
            old(self).in_sync() && r is Ok ==> final(self).in_sync(),
            layout_disjoint(old(self).layout()) ==> layout_disjoint(final(self).layout()),
    {
        let key = cf_name.to_owned();
        let ghost h0 = self.header@;
        let ghost free0 = h0.free_segments;
        let ghost states0 = self.column_families@;
        let mut best: Option<usize> = None;
        let mut best_size: u64 = u64::MAX;
        let mut idx: usize = 0;
        while idx < self.header.free_segments.len()
            invariant
                free0 == self.header.free_segments@,
                idx <= free0.len(),
                best_fit_upto(free0, size, idx as int) < 0 ==> best is None && best_size == u64::MAX,
                best_fit_upto(free0, size, idx as int) >= 0 ==> best == Some(best_fit_upto(free0, size, idx as int) as usize)
                    && best_size == free0[best_fit_upto(free0, size, idx as int)].size,
            decreases free0.len() - idx,
        {
            let free_seg = self.header.free_segments[idx];
            if free_seg.size >= size && free_seg.size < best_size {
                best = Some(idx);
                best_size = free_seg.size;
            }
            idx = idx + 1;
        }
        proof {
            lemma_best_fit_upto(free0, size, free0.len() as int);
        }
        let segment = match best {
            Some(i) => {
                assert(has_fit(free0, size));
                assert(free0[i as int].offset + free0[i as int].size <= u64::MAX);
                let free_seg = self.header.free_segments.remove(i);
                if free_seg.size == size {
                    Segment::new(free_seg.offset, free_seg.size)
                } else {
                    let allocated = Segment::new(free_seg.offset, size);
                    let remaining = FreeSegment::new(free_seg.offset + size, free_seg.size - size);
                    self.header.free_segments.push(remaining);
                    allocated
                }
            },
            None => {
                assert(!has_fit(free0, size));
                let offset = self.header.end_of_file();
                if offset > u64::MAX - 4095 {
                    assert(page_aligned_up(offset as int) >= offset + 1) by (nonlinear_arith)
                        requires offset > u64::MAX - 4095;
                    return Err(StorageError::ExpansionOverflow);
                }
                let aligned = (offset + 4095) / 4096 * 4096;
                if aligned > u64::MAX - size {
                    return Err(StorageError::ExpansionOverflow);
                }
                Segment::new(aligned, size)
            },
        };
        assert(segment == allocation(h0, size));
        proof {
            if layout_disjoint(h0) {
                lemma_allocate_keeps_disjoint(h0, cf_name@, size);
            }
        }
        assert(segment.offset + segment.size <= u64::MAX);
        let ghost h1 = self.header@;
        proof {
            assert(h1.free_segments =~= free_after_allocation(free0, size));
            assert(h1.column_families == h0.column_families);
            assert forall|c: int| 0 <= c < h1.free_segments.len() implies #[trigger] h1.free_segments[c].offset
                + h1.free_segments[c].size <= u64::MAX by {
                if has_fit(free0, size) {
                    let i = best_fit(free0, size);
                    let rest = free0.remove(i);
                    if c < rest.len() {
                        let c0 = if c < i { c } else { c + 1 };
                        assert(rest[c] == free0[c0]);
                    }
                }
            }
        }
        match self.find_in_header(&key) {
            Some(j) => {
                proof {
                    lemma_first_named_unique(h0.column_families, cf_name@, j as int);
                }
                self.header.column_families[j].segments.push(segment);
                proof {
                    let cfs = self.header@.column_families;
                    assert(cfs =~= cfs_with_segment(h0.column_families, cf_name@, segment));
                }
            },
            None => {},
        }
        proof {
            let h2 = self.header@;
            assert(h2.column_families == cfs_with_segment(h0.column_families, cf_name@, segment));
            assert(h2.free_segments == h1.free_segments);
            assert forall|a: int, b: int|
                0 <= a < h2.column_families.len() && 0 <= b < h2.column_families[a].segments.len()
                    implies #[trigger] h2.column_families[a].segments[b].spec_end() <= u64::MAX by {
                if header_has(h0.column_families, cf_name@) && a == first_named(h0.column_families, cf_name@) {
                    if b < h0.column_families[a].segments.len() {
                        assert(h2.column_families[a].segments[b] == h0.column_families[a].segments[b]);
                    }
                } else {
                    assert(h2.column_families[a] == h0.column_families[a]);
                }
            }
        }
        match self.find_state(&key) {
            Some(i) => {
                proof {
                    let c = state_index(states0, cf_name@);
                    assert(states0[c].name@ == cf_name@);
                    assert(c == i);
                }
                self.column_families[i].segments.push(segment);
                proof {
                    let s = self.column_families@;
                    assert forall|a: int, b: int|
                        0 <= a < s.len() && 0 <= b < s.len() && a != b implies #[trigger] s[a].name@ != #[trigger] s[b].name@ by {
                        assert(s[a].name == states0[a].name && s[b].name == states0[b].name);
                    }
                }
            },
            None => {},
        }
        proof {
            if mirrors(states0, h0.column_families) {
                let s = self.column_families@;
                let cfs = self.header@.column_families;
                if state_has(states0, cf_name@) {
                    let i = state_index(states0, cf_name@);
                    assert(states0[i].name@ == h0.column_families[i].name);
                    assert forall|k: int| 0 <= k < i implies #[trigger] h0.column_families[k].name != cf_name@ by {
                        assert(states0[k].name@ == h0.column_families[k].name);
                        assert(states0[k].name@ != states0[i].name@);
                    }
                    lemma_first_named_unique(h0.column_families, cf_name@, i);
                    let j = first_named(h0.column_families, cf_name@);
                    assert(i == j);
                } else {
                    if header_has(h0.column_families, cf_name@) {
                        let j = choose|j: int| 0 <= j < h0.column_families.len() && #[trigger] h0.column_families[j].name == cf_name@;
                        assert(states0[j].name@ == h0.column_families[j].name);
                    }
                }
                assert forall|a: int| 0 <= a < s.len() implies #[trigger] s[a].name@ == cfs[a].name
                    && s[a].segments@ == cfs[a].segments by {
                    assert(states0[a].name@ == h0.column_families[a].name);
                }
            }
        }
        Ok(segment)
    }

    /// The index of the state of `key`, if it has one.
    fn find_state(&self, key: &String) -> (r: Option<usize>)
        ensures
            match r {
                Some(i) => i < self.states().len() && self.states()[i as int].name@ == key@,
                None => !state_has(self.states(), key@),
            },
    {
        let mut i: usize = 0;
        while i < self.column_families.len()
            invariant
                i <= self.states().len(),
                forall|k: int| 0 <= k < i ==> #[trigger] self.states()[k].name@ != key@,
            decreases self.states().len() - i,
        {
            if self.column_families[i].name == *key {
                return Some(i);
            }
            i = i + 1;
        }
        None
    }

    /// The state of column family `name`, if it has one: the state that the
    /// storage of the column family is laid out from.
    pub fn state(&self, name: &str) -> (r: Option<&ColumnFamilyState<D>>)
        ensures
            r is None <==> !state_has(self.states(), name@),
            r matches Some(s) ==> {
                &&& s.name@ == name@
                &&& exists|i: int| 0 <= i < self.states().len() && self.states()[i] == *s
                &&& self.wf() ==> *s == self.states()[state_index(self.states(), name@)]
            },
    {
        let key = name.to_owned();
        match self.find_state(&key) {
            Some(i) => {
                proof {
                    let c = state_index(self.states(), name@);
                    assert(self.states()[c].name@ == name@);
                }
                Some(&self.column_families[i])
            },
            None => None,
        }
    }

    /// Retrieves a handle to an existing column family.
    pub fn column_family(&self, name: &str) -> (r: Result<ColumnFamily, ColumnFamilyError>)
        ensures
            state_has(self.states(), name@) ==> (r matches Ok(cf) && cf.spec_name() == name@),
            !state_has(self.states(), name@) ==> (r matches Err(ColumnFamilyError::NotFound(n))
                && n@ == name@),
    {
        let key = name.to_owned();
        match self.find_state(&key) {
            Some(_) => Ok(ColumnFamily { name: key }),
            None => Err(ColumnFamilyError::NotFound(key)),
        }
    }

    /// Returns the names of all column families in the header, in order.
    pub fn list_column_families(&self) -> (names: Vec<String>)
        ensures
            names@.len() == self.layout().column_families.len(),
            forall|i: int|
                0 <= i < names@.len() ==> #[trigger] names@[i]@ == self.layout().column_families[i].name,
    {
        let ghost h = self.header@;
        let mut names: Vec<String> = Vec::new();
        let mut i: usize = 0;
        while i < self.header.column_families.len()
            invariant
                h == self.layout(),
                i <= h.column_families.len(),
                names@.len() == i,
                forall|k: int| 0 <= k < i ==> #[trigger] names@[k]@ == h.column_families[k].name,
            decreases h.column_families.len() - i,
        {
            assert(h.column_families[i as int] == self.header.column_families@[i as int]@);
            names.push(self.header.column_families[i].name.clone());
            i = i + 1;
        }
        names
    }

    /// The master header held in memory.
    pub fn header(&self) -> (h: &MasterHeader)
        ensures
            h@ == self.layout(),
    {
        &self.header
    }

    /// Closes the database, giving back the storage of the file.
    pub fn into_backend(self) -> (b: B)
        ensures
            b == self.backend(),
    {
        self.header_backend
    }

    /// The storage of the file.
    pub fn backend_ref(&self) -> (b: &B)
        ensures
            *b == self.backend(),
    {
        &self.header_backend
    }
}

} // verus!
