//! Planning the replay of the log when a database opens: which logged
//! transactions go to which column family, in log order, and where the log is cut
//! once they are applied.

use crate::wal::entry::{EntryView, WALEntry};
use vstd::prelude::*;

verus! {

/// The column family names of the first `n` entries, each once, in the order in
/// which they first appear.
pub open spec fn first_appearances(entries: Seq<EntryView>, n: int) -> Seq<Seq<char>>
    decreases n,
{
    if n <= 0 {
        Seq::empty()
    } else {
        let r = first_appearances(entries, n - 1);
        if r.contains(entries[n - 1].cf_name) {
            r
        } else {
            r.push(entries[n - 1].cf_name)
        }
    }
}

/// The positions among the first `n` entries of the entries of column family `name`,
/// in log order.
pub open spec fn positions_of(entries: Seq<EntryView>, name: Seq<char>, n: int) -> Seq<usize>
    decreases n,
{
    if n <= 0 {
        Seq::empty()
    } else {
        let r = positions_of(entries, name, n - 1);
        if entries[n - 1].cf_name == name {
            r.push((n - 1) as usize)
        } else {
            r
        }
    }
}

/// The logged transactions of one column family, as positions in the log.
pub struct ReplayGroup {
    /// The column family.
    pub cf_name: String,
    /// Positions of its entries in the log, in log order.
    pub indices: Vec<usize>,
}

/// What to replay: the entries grouped by column family, and the sequence number the
/// log starts from once they are applied.
pub struct RecoveryPlan {
    /// One group per column family, in order of first appearance in the log.
    pub groups: Vec<ReplayGroup>,
    /// The log is truncated to start at this sequence number (one past the last
    /// entry's).
    pub truncate_to: u64,
}

/// The groups describe the first `n` entries: one group per column family in order
/// of first appearance, each with the positions of its entries.
pub open spec fn groups_describe(groups: Seq<ReplayGroup>, entries: Seq<EntryView>, n: int) -> bool {
    &&& groups.len() == first_appearances(entries, n).len()
    &&& forall|g: int|
        0 <= g < groups.len() ==> #[trigger] groups[g].cf_name@ == first_appearances(entries, n)[g]
            && groups[g].indices@ == positions_of(entries, groups[g].cf_name@, n)
}

/// A column family that does not appear among the first `n` entries has no
/// positions there.
proof fn lemma_absent_has_no_positions(entries: Seq<EntryView>, name: Seq<char>, n: int)
    requires
        0 <= n <= entries.len(),
        !first_appearances(entries, n).contains(name),
    ensures
        positions_of(entries, name, n) == Seq::<usize>::empty(),
    decreases n,
{
    if n > 0 {
        let r = first_appearances(entries, n - 1);
        if r.contains(name) {
            let k = choose|k: int| 0 <= k < r.len() && r[k] == name;
            assert(first_appearances(entries, n)[k] == name);
        }
        lemma_absent_has_no_positions(entries, name, n - 1);
        if entries[n - 1].cf_name == name {
            if r.contains(entries[n - 1].cf_name) {
            } else {
                assert(first_appearances(entries, n)[r.len() as int] == name);
            }
        }
    }
}

/// Names appear once each.
proof fn lemma_first_appearances_unique(entries: Seq<EntryView>, n: int)
    requires
        0 <= n <= entries.len(),
    ensures
        forall|a: int, b: int|
            0 <= a < b < first_appearances(entries, n).len() ==> #[trigger] first_appearances(entries, n)[a]
                != #[trigger] first_appearances(entries, n)[b],
    decreases n,
{
    if n > 0 {
        lemma_first_appearances_unique(entries, n - 1);
        let r = first_appearances(entries, n - 1);
        if !r.contains(entries[n - 1].cf_name) {
            let t = first_appearances(entries, n);
            assert forall|a: int, b: int| 0 <= a < b < t.len() implies #[trigger] t[a] != #[trigger] t[b] by {
                if b == r.len() {
                    assert(t[a] == r[a]);
                    if r[a] == entries[n - 1].cf_name {
                        assert(r.contains(entries[n - 1].cf_name));
                    }
                } else {
                    assert(t[a] == r[a] && t[b] == r[b]);
                }
            }
        }
    }
}

/// The group of column family `name`, if there is one.
fn find_group(groups: &Vec<ReplayGroup>, name: &String) -> (r: Option<usize>)
    ensures
        match r {
            Some(g) => g < groups@.len() && groups@[g as int].cf_name@ == name@,
            None => forall|k: int| 0 <= k < groups@.len() ==> #[trigger] groups@[k].cf_name@ != name@,
        },
{
    let mut g: usize = 0;
    while g < groups.len()
        invariant
            g <= groups@.len(),
            forall|k: int| 0 <= k < g ==> #[trigger] groups@[k].cf_name@ != name@,
        decreases groups@.len() - g,
    {
        if groups[g].cf_name == *name {
            return Some(g);
        }
        g = g + 1;
    }
    None
}

/// Whether `name` is one of `known`.
pub open spec fn among(known: Seq<String>, name: Seq<char>) -> bool {
    exists|k: int| 0 <= k < known.len() && #[trigger] known[k]@ == name
}

/// Whether `name` is among `known`.
fn is_known(known: &Vec<String>, name: &String) -> (b: bool)
    ensures
        b == among(known@, name@),
{
    let mut k: usize = 0;
    while k < known.len()
        invariant
            k <= known@.len(),
            forall|j: int| 0 <= j < k ==> #[trigger] known@[j]@ != name@,
        decreases known@.len() - k,
    {
        if known[k] == *name {
            return true;
        }
        k = k + 1;
    }
    false
}

/// Groups the log entries by column family, keeping log order within each group
/// and ordering the groups by the first appearance of their column family.
pub fn group_by_column_family(entries: &Vec<WALEntry>) -> (groups: Vec<ReplayGroup>)
    ensures
        groups_describe(groups@, entries@.map_values(|e: WALEntry| e@), entries@.len() as int),
{
    let ghost views = entries@.map_values(|e: WALEntry| e@);
    let mut groups: Vec<ReplayGroup> = Vec::new();
    let mut i: usize = 0;
    while i < entries.len()
        invariant
            views == entries@.map_values(|e: WALEntry| e@),
            i <= entries@.len(),
            groups_describe(groups@, views, i as int),
        decreases entries@.len() - i,
    {
        let name = &entries[i].cf_name;
        assert(views[i as int].cf_name == name@);
        let ghost fa = first_appearances(views, i as int);
        proof {
            lemma_first_appearances_unique(views, i as int);
        }
        let found = find_group(&groups, name);
        let ghost before = groups@;
        match found {
            Some(k) => {
                assert(before[k as int].cf_name@ == name@);
                assert(fa.contains(name@)) by {
                    assert(fa[k as int] == name@);
                }
                let mut group = groups.remove(k);
                group.indices.push(i);
                groups.insert(k, group);
                proof {
                    assert(first_appearances(views, i + 1) == fa);
                    assert forall|h: int| 0 <= h < groups@.len() implies #[trigger] groups@[h].cf_name@
                        == first_appearances(views, i + 1)[h] && groups@[h].indices@ == positions_of(
                        views,
                        groups@[h].cf_name@,
                        i + 1,
                    ) by {
                        if h != k {
                            assert(groups@[h] == before[h]);
                            assert(fa[h] != fa[k as int]);
                        }
                    }
                }
            },
            None => {
                proof {
                    if fa.contains(name@) {
                        let k = choose|k: int| 0 <= k < fa.len() && fa[k] == name@;
                        assert(groups@[k].cf_name@ == fa[k]);
                    }
                    assert(!fa.contains(name@));
                    assert(!first_appearances(views, i as int).contains(views[i as int].cf_name));
                    lemma_absent_has_no_positions(views, name@, i as int);
                }
                let mut indices: Vec<usize> = Vec::new();
                indices.push(i);
                groups.push(ReplayGroup { cf_name: name.clone(), indices });
                proof {
                    let fa2 = first_appearances(views, i + 1);
                    assert(fa2 == fa.push(name@));
                    assert forall|h: int| 0 <= h < groups@.len() implies #[trigger] groups@[h].cf_name@
                        == fa2[h] && groups@[h].indices@ == positions_of(views, groups@[h].cf_name@, i + 1) by {
                        if h < before.len() {
                            assert(groups@[h] == before[h]);
                            assert(fa[h] != name@) by {
                                assert(before[h].cf_name@ == fa[h]);
                            }
                        } else {
                            assert(groups@[h].indices@ =~= seq![i]);
                        }
                    }
                }
            },
        }
        i = i + 1;
    }
    groups
}

/// Plans the replay of the log entries read on opening: `None` if there are none;
/// otherwise the entries grouped by column family, and the log truncated to start
/// one past the last entry's sequence number.
pub fn plan_recovery(entries: &Vec<WALEntry>) -> (r: Option<RecoveryPlan>)
    requires
        entries@.len() > 0 ==> entries@.last().sequence < u64::MAX,
    ensures
        entries@.len() == 0 <==> r is None,
        r matches Some(p) ==> {
            &&& p.truncate_to == entries@.last().sequence + 1
            &&& groups_describe(p.groups@, entries@.map_values(|e: WALEntry| e@), entries@.len() as int)
        },
{
    if entries.len() == 0 {
        return None;
    }
    let last = entries.len() - 1;
    let truncate_to = entries[last].sequence + 1;
    let groups = group_by_column_family(entries);
    Some(RecoveryPlan { groups, truncate_to })
}

impl RecoveryPlan {
    /// The first group whose column family is not among `known` (the log holds
    /// transactions of a column family the database does not have).
    pub fn first_unknown(&self, known: &Vec<String>) -> (r: Option<usize>)
        ensures
            match r {
                Some(g) => {
                    &&& g < self.groups@.len()
                    &&& !among(known@, self.groups@[g as int].cf_name@)
                    &&& forall|h: int| 0 <= h < g ==> among(known@, #[trigger] self.groups@[h].cf_name@)
                },
                None => forall|h: int|
                    0 <= h < self.groups@.len() ==> among(known@, #[trigger] self.groups@[h].cf_name@),
            },
    {
        let mut g: usize = 0;
        while g < self.groups.len()
            invariant
                g <= self.groups@.len(),
                forall|h: int| 0 <= h < g ==> among(known@, #[trigger] self.groups@[h].cf_name@),
            decreases self.groups@.len() - g,
        {
            if !is_known(known, &self.groups[g].cf_name) {
                return Some(g);
            }
            g = g + 1;
        }
        None
    }
}

} // verus!
