//! A bounded pool of storage handles, one per column family.
//!
//! The pool keeps at most `max_size` handles; a pool of size 0 keeps none and hands
//! every new handle straight back. When it is full and a new column family needs a
//! handle, the least recently used handle of another column family is evicted. Recency is kept by a logical clock that advances on every use,
//! so that the order of uses alone decides which handle goes.

use vstd::prelude::*;

verus! {

/// A pooled handle: what a column family uses, with the logical time of its last use.
pub type Slot<H> = (Seq<char>, H, u64);

/// One pooled handle with the logical time of its last use.
struct PoolEntry<H> {
    name: String,
    backend: H,
    last_used: u64,
}

impl<H> PoolEntry<H> {
    spec fn slot(&self) -> Slot<H> {
        (self.name@, self.backend, self.last_used)
    }

    fn new(name: String, backend: H, now: u64) -> (e: Self)
        ensures
            e.slot() == (name@, backend, now),
    {
        Self { name, backend, last_used: now }
    }

    fn touch(&mut self, now: u64)
        ensures
            final(self).slot() == (old(self).slot().0, old(self).slot().1, now),
    {
        self.last_used = now;
    }
}

/// No two slots belong to the same column family.
pub open spec fn names_unique<H>(s: Seq<Slot<H>>) -> bool {
    forall|i: int, j: int|
        #![trigger s[i], s[j]]
        0 <= i < s.len() && 0 <= j < s.len() && i != j ==> s[i].0 != s[j].0
}

/// Whether `name` has a slot.
pub open spec fn has_slot<H>(s: Seq<Slot<H>>, name: Seq<char>) -> bool {
    exists|i: int| 0 <= i < s.len() && #[trigger] s[i].0 == name
}

/// The slot of `name` (meaningful when it has one).
pub open spec fn slot_index<H>(s: Seq<Slot<H>>, name: Seq<char>) -> int {
    choose|i: int| 0 <= i < s.len() && #[trigger] s[i].0 == name
}

/// The value the logical clock takes after one use.
pub open spec fn next_tick(c: u64) -> u64 {
    if c < u64::MAX {
        (c + 1) as u64
    } else {
        c
    }
}

/// The slots and clock after marking the handle of `name` as used at time
/// `c`: its slot takes the next time and the clock advances; without a handle
/// nothing changes.
pub open spec fn touched<H>(s: Seq<Slot<H>>, c: u64, name: Seq<char>) -> (Seq<Slot<H>>, u64) {
    if has_slot(s, name) {
        let i = slot_index(s, name);
        (s.update(i, (name, s[i].1, next_tick(c))), next_tick(c))
    } else {
        (s, c)
    }
}

/// Slot `i` is the least recently used one of the slots not named `exclude`: no
/// such slot was used earlier, and none before it was used at the same time.
pub open spec fn is_lru<H>(s: Seq<Slot<H>>, exclude: Seq<char>, i: int) -> bool {
    &&& 0 <= i < s.len()
    &&& s[i].0 != exclude
    &&& forall|j: int| 0 <= j < s.len() && #[trigger] s[j].0 != exclude ==> s[i].2 <= s[j].2
    &&& forall|j: int| 0 <= j < i && #[trigger] s[j].0 != exclude ==> s[i].2 < s[j].2
}

/// Some slot other than `exclude` exists.
pub open spec fn has_candidate<H>(s: Seq<Slot<H>>, exclude: Seq<char>) -> bool {
    exists|j: int| 0 <= j < s.len() && #[trigger] s[j].0 != exclude
}

/// The slots after evicting the least recently used slot other than `exclude`
/// (unchanged when there is none).
pub open spec fn evicted<H>(s: Seq<Slot<H>>, exclude: Seq<char>) -> Seq<Slot<H>> {
    if has_candidate(s, exclude) {
        s.remove(choose|i: int| is_lru(s, exclude, i))
    } else {
        s
    }
}

/// At most one slot is the least recently used one.
pub proof fn lemma_lru_unique<H>(s: Seq<Slot<H>>, exclude: Seq<char>, a: int, b: int)
    requires
        is_lru(s, exclude, a),
        is_lru(s, exclude, b),
    ensures
        a == b,
{
    if a < b {
        assert(s[a].0 != exclude);
    } else if b < a {
        assert(s[b].0 != exclude);
    }
}

/// Evicting removes at most one slot and adds none: a name without a slot still
/// has none, a bound on last-use times still holds, and names stay unique.
pub proof fn lemma_evicted_sub<H>(s: Seq<Slot<H>>, exclude: Seq<char>, name: Seq<char>, c: u64)
    ensures
        has_candidate(s, exclude) ==> evicted(s, exclude).len() == s.len() - 1,
        !has_candidate(s, exclude) ==> evicted(s, exclude) == s,
        names_unique(s) ==> names_unique(evicted(s, exclude)),
        !has_slot(s, name) ==> !has_slot(evicted(s, exclude), name),
        (forall|i: int| 0 <= i < s.len() ==> #[trigger] s[i].2 <= c) ==> (forall|i: int|
            0 <= i < evicted(s, exclude).len() ==> #[trigger] evicted(s, exclude)[i].2 <= c),
{
    if has_candidate(s, exclude) {
        let j = choose|j: int| 0 <= j < s.len() && #[trigger] s[j].0 != exclude;
        lemma_lru_exists(s, exclude, j);
        assert(is_lru(s, exclude, lru_upto(s, exclude, s.len() as int)));
        let k = choose|i: int| is_lru(s, exclude, i);
        let t = s.remove(k);
        assert(evicted(s, exclude) == t);
        if names_unique(s) {
            assert forall|a: int, b: int|
                0 <= a < t.len() && 0 <= b < t.len() && a != b implies #[trigger] t[a].0 != #[trigger] t[b].0 by {
                let a0 = if a < k { a } else { a + 1 };
                let b0 = if b < k { b } else { b + 1 };
                assert(t[a] == s[a0] && t[b] == s[b0]);
            }
        }
        if !has_slot(s, name) {
            assert forall|a: int| 0 <= a < t.len() implies #[trigger] t[a].0 != name by {
                let a0 = if a < k { a } else { a + 1 };
                assert(t[a] == s[a0]);
            }
        }
        if forall|i: int| 0 <= i < s.len() ==> #[trigger] s[i].2 <= c {
            assert forall|a: int| 0 <= a < t.len() implies #[trigger] t[a].2 <= c by {
                let a0 = if a < k { a } else { a + 1 };
                assert(t[a] == s[a0]);
            }
        }
    }
}

/// The least recently used slot other than `exclude` among the first `n` slots,
/// found by a front-to-back scan that keeps the earliest strictly older slot
/// (`-1` if there is none).
pub open spec fn lru_upto<H>(s: Seq<Slot<H>>, exclude: Seq<char>, n: int) -> int
    decreases n,
{
    if n <= 0 {
        -1
    } else {
        let k = lru_upto(s, exclude, n - 1);
        if s[n - 1].0 == exclude {
            k
        } else if k < 0 || s[n - 1].2 < s[k].2 {
            n - 1
        } else {
            k
        }
    }
}

/// What the scan finds among the first `n` slots.
pub proof fn lemma_lru_upto<H>(s: Seq<Slot<H>>, exclude: Seq<char>, n: int)
    requires
        0 <= n <= s.len(),
    ensures
        lru_upto(s, exclude, n) < 0 ==> forall|j: int| 0 <= j < n ==> #[trigger] s[j].0 == exclude,
        lru_upto(s, exclude, n) >= 0 ==> {
            let k = lru_upto(s, exclude, n);
            &&& k < n
            &&& s[k].0 != exclude
            &&& forall|j: int| 0 <= j < n && #[trigger] s[j].0 != exclude ==> s[k].2 <= s[j].2
            &&& forall|j: int| 0 <= j < k && #[trigger] s[j].0 != exclude ==> s[k].2 < s[j].2
        },
    decreases n,
{
    if n > 0 {
        lemma_lru_upto(s, exclude, n - 1);
    }
}

/// If some slot other than `exclude` exists, a least recently used one exists.
pub proof fn lemma_lru_exists<H>(s: Seq<Slot<H>>, exclude: Seq<char>, j: int)
    requires
        0 <= j < s.len(),
        s[j].0 != exclude,
    ensures
        is_lru(s, exclude, lru_upto(s, exclude, s.len() as int)),
{
    lemma_lru_upto(s, exclude, s.len() as int);
}

/// The most recently used handle survives an eviction as long as another
/// candidate exists: eviction takes the least recently used handle, and a handle
/// used after all others is not it.
pub proof fn lemma_most_recent_survives<H>(s: Seq<Slot<H>>, exclude: Seq<char>, i: int, other: int)
    requires
        names_unique(s),
        0 <= i < s.len(),
        s[i].0 != exclude,
        0 <= other < s.len(),
        other != i,
        s[other].0 != exclude,
        forall|j: int| 0 <= j < s.len() && j != i ==> #[trigger] s[j].2 < s[i].2,
    ensures
        has_slot(evicted(s, exclude), s[i].0),
{
    lemma_lru_exists(s, exclude, other);
    let k = choose|c: int| is_lru(s, exclude, c);
    assert(is_lru(s, exclude, k));
    assert(s[k].2 <= s[other].2);
    assert(k != i);
    let t = s.remove(k);
    assert(evicted(s, exclude) == t);
    let p = if i < k { i } else { i - 1 };
    assert(t[p] == s[i]);
}

/// A pool of storage handles, at most one per column family, bounded in number.
pub struct FileHandlePool<H> {
    max_size: usize,
    clock: u64,
    entries: Vec<PoolEntry<H>>,
}

impl<H> FileHandlePool<H> {
    /// The pooled handles in insertion order.
    pub closed spec fn slots(&self) -> Seq<Slot<H>> {
        self.entries@.map_values(|e: PoolEntry<H>| e.slot())
    }

    /// The current logical time.
    pub closed spec fn clock(&self) -> u64 {
        self.clock
    }

    /// The configured bound.
    pub closed spec fn bound(&self) -> usize {
        self.max_size
    }

    /// The pool's invariant: one slot per column family, no slot used after the
    /// current time, and no more slots than the bound allows.
    pub open spec fn wf(&self) -> bool {
        &&& names_unique(self.slots())
        &&& forall|i: int| 0 <= i < self.slots().len() ==> #[trigger] self.slots()[i].2 <= self.clock()
        &&& self.slots().len() <= self.bound()
    }

    /// Creates a new, empty pool that keeps at most `max_size` handles.
    pub fn new(max_size: usize) -> (p: Self)
        ensures
            p.wf(),
            p.slots() == Seq::<Slot<H>>::empty(),
            p.bound() == max_size,
            p.clock() == 0,
    {
        let p = Self { max_size, clock: 0, entries: Vec::new() };
        assert(p.slots() =~= Seq::<Slot<H>>::empty());
        p
    }

    /// Advances the logical clock and returns the new time.
    fn tick(&mut self) -> (now: u64)
        ensures
            now == next_tick(old(self).clock()),
            final(self).clock() == now,
            final(self).slots() == old(self).slots(),
            final(self).bound() == old(self).bound(),
    {
        if self.clock < u64::MAX {
            self.clock = self.clock + 1;
        }
        self.clock
    }

    /// The index of the handle of `key`, if it has one.
    fn find(&self, key: &String) -> (r: Option<usize>)
        ensures
            match r {
                Some(i) => i < self.slots().len() && self.slots()[i as int].0 == key@,
                None => !has_slot(self.slots(), key@),
            },
    {
        let mut i: usize = 0;
        while i < self.entries.len()
            invariant
                i <= self.entries@.len(),
                forall|k: int| 0 <= k < i ==> #[trigger] self.slots()[k].0 != key@,
            decreases self.entries@.len() - i,
        {
            if self.entries[i].name == *key {
                return Some(i);
            }
            i = i + 1;
        }
        None
    }

    /// Marks the handle at index `i` as used now.
    fn touch_at(&mut self, i: usize)
        requires
            old(self).wf(),
            i < old(self).slots().len(),
        ensures
            final(self).wf(),
            final(self).clock() == next_tick(old(self).clock()),
            final(self).slots() == old(self).slots().update(
                i as int,
                (old(self).slots()[i as int].0, old(self).slots()[i as int].1, final(self).clock()),
            ),
            final(self).bound() == old(self).bound(),
    {
        let ghost s = self.slots();
        let now = self.tick();
        let mut e = self.entries.remove(i);
        e.touch(now);
        self.entries.insert(i, e);
        assert(self.slots() =~= s.update(i as int, (s[i as int].0, s[i as int].1, now)));
    }

    /// Updates the last-use time of a column family's handle (if it has one).
    ///
    /// Called when a column family's database is reused, so that its handle is not
    /// evicted early.
    pub fn touch(&mut self, cf_name: &str)
        requires
            old(self).wf(),
        ensures
            final(self).wf(),
            final(self).bound() == old(self).bound(),
            (final(self).slots(), final(self).clock()) == touched(old(self).slots(), old(self).clock(), cf_name@),
    {
        let key = cf_name.to_owned();
        match self.find(&key) {
            Some(i) => {
                proof {
                    let s = self.slots();
                    let k = slot_index(s, cf_name@);
                    assert(s[k].0 == cf_name@);
                }
                self.touch_at(i);
            },
            None => {},
        }
    }

    /// Explicitly releases a column family's handle.
    pub fn release(&mut self, cf_name: &str)
        requires
            old(self).wf(),
        ensures
            final(self).wf(),
            final(self).bound() == old(self).bound(),
            final(self).clock() == old(self).clock(),
            has_slot(old(self).slots(), cf_name@) ==> final(self).slots() == old(self).slots().remove(
                slot_index(old(self).slots(), cf_name@),
            ),
            !has_slot(old(self).slots(), cf_name@) ==> final(self).slots() == old(self).slots(),
    {
        let key = cf_name.to_owned();
        let ghost s = self.slots();
        match self.find(&key) {
            Some(i) => {
                proof {
                    let k = slot_index(s, cf_name@);
                    assert(s[k].0 == cf_name@);
                }
                self.entries.remove(i);
                assert(self.slots() =~= s.remove(i as int));
                proof {
                    let t = self.slots();
                    assert forall|a: int, b: int|
                        0 <= a < t.len() && 0 <= b < t.len() && a != b implies #[trigger] t[a].0 != #[trigger] t[b].0 by {
                        let a0 = if a < i { a } else { a + 1 };
                        let b0 = if b < i { b } else { b + 1 };
                        assert(t[a] == s[a0] && t[b] == s[b0]);
                    }
                    assert forall|a: int| 0 <= a < t.len() implies #[trigger] t[a].2 <= self.clock() by {
                        let a0 = if a < i { a } else { a + 1 };
                        assert(t[a] == s[a0]);
                    }
                }
            },
            None => {},
        }
    }

    /// Returns the current number of pooled handles.
    pub fn len(&self) -> (n: usize)
        ensures
            n == self.slots().len(),
    {
        self.entries.len()
    }

    /// Returns true if the pool has no handles.
    pub fn is_empty(&self) -> (b: bool)
        ensures
            b == (self.slots().len() == 0),
    {
        self.len() == 0
    }

    /// Returns the maximum pool size.
    pub fn max_size(&self) -> (m: usize)
        ensures
            m == self.bound(),
    {
        self.max_size
    }
}

impl<H: Clone> FileHandlePool<H> {

    /// Evicts the least recently used handle, never the one of `exclude`.
    fn evict_lru(&mut self, exclude: &String)
        requires
            old(self).wf(),
        ensures
            final(self).slots() == evicted(old(self).slots(), exclude@),
            final(self).clock() == old(self).clock(),
            final(self).bound() == old(self).bound(),
    {
        let ghost s = self.slots();
        let ghost x = exclude@;
        let mut lru: Option<usize> = None;
        let mut lru_time: u64 = 0;
        let mut i: usize = 0;
        while i < self.entries.len()
            invariant
                s == self.slots(),
                x == exclude@,
                i <= s.len(),
                match lru {
                    Some(k) => {
                        &&& k < i
                        &&& s[k as int].0 != x
                        &&& lru_time == s[k as int].2
                        &&& forall|j: int| 0 <= j < i && #[trigger] s[j].0 != x ==> s[k as int].2 <= s[j].2
                        &&& forall|j: int| 0 <= j < k && #[trigger] s[j].0 != x ==> s[k as int].2 < s[j].2
                    },
                    None => forall|j: int| 0 <= j < i ==> #[trigger] s[j].0 == x,
                },
            decreases s.len() - i,
        {
            if !(self.entries[i].name == *exclude) {
                let t = self.entries[i].last_used;
                if lru.is_none() || t < lru_time {
                    lru = Some(i);
                    lru_time = t;
                }
            }
            i = i + 1;
        }
        match lru {
            Some(k) => {
                proof {
                    assert(is_lru(s, x, k as int));
                    assert(has_candidate(s, x));
                    let c = choose|c: int| is_lru(s, x, c);
                    lemma_lru_unique(s, x, c, k as int);
                }
                self.entries.remove(k);
                assert(self.slots() =~= s.remove(k as int));
            },
            None => {
                assert(!has_candidate(s, x));
            },
        }
    }

    /// Stores a newly opened handle for `cf_name` and returns it, evicting the
    /// least recently used handle of another column family first if the pool is
    /// full. If the column family already has a handle (opened meanwhile), that one
    /// is kept, marked as used, and a copy of it is returned instead. A pool of size
    /// 0 keeps nothing: the handle is handed back unpooled.
    pub fn insert(&mut self, cf_name: &str, backend: H) -> (r: H)
        requires
            old(self).wf(),
        ensures
            final(self).wf(),
            final(self).bound() == old(self).bound(),
            old(self).bound() > 0 ==> final(self).clock() == next_tick(old(self).clock()),
            old(self).bound() == 0 ==> final(self).clock() == old(self).clock(),
            has_slot(old(self).slots(), cf_name@) ==> {
                let i = slot_index(old(self).slots(), cf_name@);
                &&& cloned(old(self).slots()[i].1, r)
                &&& final(self).slots() == old(self).slots().update(
                    i,
                    (cf_name@, old(self).slots()[i].1, final(self).clock()),
                )
            },
            !has_slot(old(self).slots(), cf_name@) && old(self).bound() == 0 ==> {
                &&& r == backend
                &&& final(self).slots() == old(self).slots()
            },
            !has_slot(old(self).slots(), cf_name@) && old(self).bound() > 0 ==> {
                let kept = if old(self).slots().len() >= old(self).bound() {
                    evicted(old(self).slots(), cf_name@)
                } else {
                    old(self).slots()
                };
                &&& r == backend
                &&& final(self).slots().len() == kept.len() + 1
                &&& final(self).slots().drop_last() == kept
                &&& final(self).slots().last().0 == cf_name@
                &&& cloned(backend, final(self).slots().last().1)
                &&& final(self).slots().last().2 == final(self).clock()
            },
    {
        let key = cf_name.to_owned();
        let ghost s = self.slots();
        let ghost s_clock = self.clock();
        match self.find(&key) {
            Some(i) => {
                let h = self.entries[i].backend.clone();
                proof {
                    let k = slot_index(s, cf_name@);
                    assert(s[k].0 == cf_name@);
                }
                self.touch_at(i);
                h
            },
            None => {
                if self.max_size == 0 {
                    return backend;
                }
                if self.entries.len() >= self.max_size {
                    self.evict_lru(&key);
                }
                let ghost kept = self.slots();
                proof {
                    lemma_evicted_sub(s, key@, key@, s_clock);
                    if s.len() >= self.bound() && s.len() > 0 {
                        assert(s[0].0 != key@);
                        assert(has_candidate(s, key@));
                    }
                }
                let now = self.tick();
                let stored = backend.clone();
                self.entries.push(PoolEntry::new(key, stored, now));
                proof {
                    let t = self.slots();
                    assert(t.drop_last() =~= kept);
                    assert(!has_slot(kept, key@));
                    assert forall|a: int, b: int|
                        0 <= a < t.len() && 0 <= b < t.len() && a != b implies #[trigger] t[a].0 != #[trigger] t[b].0 by {
                        if a < kept.len() {
                            assert(t[a] == kept[a]);
                        }
                        if b < kept.len() {
                            assert(t[b] == kept[b]);
                        }
                    }
                    assert forall|a: int| 0 <= a < t.len() implies #[trigger] t[a].2 <= self.clock() by {
                        if a < kept.len() {
                            assert(t[a] == kept[a]);
                        }
                    }
                }
                backend
            },
        }
    }
    /// Returns a copy of the handle of `cf_name` and marks it as used, or `None` if
    /// the column family has no handle in the pool.
    pub fn lookup(&mut self, cf_name: &str) -> (r: Option<H>)
        requires
            old(self).wf(),
        ensures
            final(self).wf(),
            final(self).bound() == old(self).bound(),
            has_slot(old(self).slots(), cf_name@) ==> {
                let i = slot_index(old(self).slots(), cf_name@);
                &&& r matches Some(h) && cloned(old(self).slots()[i].1, h)
                &&& final(self).clock() == next_tick(old(self).clock())
                &&& final(self).slots() == old(self).slots().update(
                    i,
                    (cf_name@, old(self).slots()[i].1, final(self).clock()),
                )
            },
            !has_slot(old(self).slots(), cf_name@) ==> r is None && final(self).slots() == old(
                self,
            ).slots() && final(self).clock() == old(self).clock(),
    {
        let key = cf_name.to_owned();
        match self.find(&key) {
            Some(i) => {
                let h = self.entries[i].backend.clone();
                proof {
                    let s = self.slots();
                    assert(s[i as int].0 == cf_name@);
                    let k = slot_index(s, cf_name@);
                    assert(s[k].0 == cf_name@);
                }
                self.touch_at(i);
                Some(h)
            },
            None => None,
        }
    }
}

} // verus!
