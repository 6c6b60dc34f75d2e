//! The bookkeeping of checkpointing: which logged transactions wait to be applied
//! to the main file, and when to apply them.

use std::collections::BTreeSet;
use vstd::prelude::*;
use vstd::std_specs::iter::IteratorSpec;

verus! {

/// Sequence numbers of logged transactions not yet applied to the main file, kept
/// in a sorted set.
pub struct PendingSequences {
    seqs: BTreeSet<u64>,
}

impl PendingSequences {
    /// The pending sequence numbers.
    pub closed spec fn set(&self) -> Set<u64> {
        self.seqs@
    }

    /// The set is finite.
    pub closed spec fn wf(&self) -> bool {
        self.seqs@.finite()
    }

    /// No pending transactions.
    pub fn new() -> (p: Self)
        ensures
            p.wf(),
            p.set() == Set::<u64>::empty(),
    {
        Self { seqs: BTreeSet::new() }
    }

    /// Registers a transaction sequence number as pending checkpoint.
    pub fn register_pending(&mut self, sequence: u64)
        requires
            old(self).wf(),
        ensures
            final(self).wf(),
            final(self).set() == old(self).set().insert(sequence),
    {
        self.seqs.insert(sequence);
    }

    /// The oldest and the latest pending sequence numbers, or `None` if nothing is
    /// pending: what a checkpoint reads from and truncates after.
    pub fn range(&self) -> (r: Option<(u64, u64)>)
        ensures
            r is None <==> self.set() == Set::<u64>::empty(),
            r matches Some((lo, hi)) ==> {
                &&& self.set().contains(lo)
                &&& self.set().contains(hi)
                &&& forall|s: u64| self.set().contains(s) ==> lo <= s <= hi
            },
    {
        if self.seqs.is_empty() {
            assert(self.seqs@ =~= Set::<u64>::empty());
            return None;
        }
        let mut lo: u64 = 0;
        let mut hi: u64 = 0;
        let mut seen: bool = false;
        let ghost keys = vstd::std_specs::btree::spec_btree_keys_iter(&self.seqs).remaining();
        let ghost mut count: int = 0;
        for x in it: self.seqs.iter()
            invariant
                it.seq() == keys,
                count == it.index(),
                seen <==> count > 0,
                seen ==> lo == *keys[0] && hi == *keys[count - 1],
        {
            if !seen {
                lo = *x;
                seen = true;
            }
            hi = *x;
            proof {
                count = count + 1;
            }
        }
        proof {
            assert(count == keys.len());
            assert(keys.unref().to_set() == self.seqs@);
            assert(keys.len() > 0) by {
                let w = self.seqs@.choose();
                assert(self.seqs@.contains(w));
                assert(keys.unref().to_set().contains(w));
            }
            assert(self.seqs@.contains(lo)) by {
                assert(keys.unref()[0] == lo);
            }
            assert(self.seqs@.contains(hi)) by {
                assert(keys.unref()[keys.len() - 1] == hi);
            }
            assert(vstd::std_specs::btree::increasing_seq(keys));
            assert(vstd::laws_cmp::obeys_cmp::<&u64>());
            assert forall|s: u64| self.seqs@.contains(s) implies lo <= s <= hi by {
                assert(keys.unref().to_set().contains(s));
                let k = choose|k: int| 0 <= k < keys.unref().len() && keys.unref()[k] == s;
                assert(keys.unref()[k] == *keys[k]);
                if 0 < k {
                    assert(vstd::std_specs::cmp::OrdSpec::cmp_spec(&keys[0], &keys[k]) is Less);
                }
                if k < keys.len() - 1 {
                    assert(vstd::std_specs::cmp::OrdSpec::cmp_spec(&keys[k], &keys[keys.len() - 1]) is Less);
                }
            }
        }
        Some((lo, hi))
    }

    /// Forgets all pending sequence numbers (after a checkpoint).
    pub fn clear(&mut self)
        ensures
            final(self).wf(),
            final(self).set() == Set::<u64>::empty(),
    {
        self.seqs.clear();
    }
}

/// Whether the checkpoint loop runs a checkpoint now: when the interval has passed
/// since the last one, or the log file has reached its size limit (a size that
/// could not be read counts as zero).
pub fn should_checkpoint(interval_elapsed: bool, wal_size: Option<u64>, max_wal_size: u64) -> (b: bool)
    ensures
        b == (interval_elapsed || match wal_size {
            Some(n) => n >= max_wal_size,
            None => 0 >= max_wal_size,
        }),
{
    let size = match wal_size {
        Some(n) => n,
        None => 0,
    };
    interval_elapsed || size >= max_wal_size
}


/// Where a checkpoint stands. A checkpoint reads the pending transactions from the
/// oldest pending sequence number on, applies them one by one to the main file,
/// truncates the log after the latest pending one and forgets them; the caller
/// performs each step and reports back (any failure ends the checkpoint with that
/// error, leaving everything pending).
#[derive(Clone, Copy, Debug, PartialEq, Eq)]
pub enum CheckpointPhase {
    /// Not started.
    Idle,
    /// The pending transactions are being read.
    Reading { latest: u64 },
    /// Entry `next - 1` of `count` is being applied.
    Applying { latest: u64, next: usize, count: usize },
    /// The log is being truncated.
    Truncating,
    /// The pending sequence numbers are being forgotten.
    Clearing,
    /// The checkpoint is over.
    Done,
}

/// What the caller reports back to a checkpoint.
#[derive(Clone, Copy, Debug, PartialEq, Eq)]
pub enum CheckpointEvent {
    /// The checkpoint starts; the oldest and latest pending sequence numbers, if any.
    Begin { pending: Option<(u64, u64)> },
    /// The read gave this many entries.
    EntriesRead { count: usize },
    /// The entry asked for was applied.
    EntryApplied,
    /// The log was truncated.
    Truncated,
    /// The pending sequence numbers were forgotten.
    Cleared,
}

/// What a checkpoint asks the caller to do next.
#[derive(Clone, Copy, Debug, PartialEq, Eq)]
pub enum CheckpointAction {
    /// Read the log's entries from this sequence number on.
    ReadFrom(u64),
    /// Apply the entry at this index of what was read.
    Apply(usize),
    /// Truncate the log so that it restarts at this sequence number.
    TruncateTo(u64),
    /// Forget the pending sequence numbers.
    ClearPending,
    /// The latest sequence number is the largest one: the log cannot restart after it.
    SequencesExhausted,
    /// Nothing more to do.
    Finish,
}

/// Whether `event` is what a checkpoint in `phase` waits for.
pub open spec fn checkpoint_expects(phase: CheckpointPhase, event: CheckpointEvent) -> bool {
    match (phase, event) {
        (CheckpointPhase::Idle, CheckpointEvent::Begin { .. }) => true,
        (CheckpointPhase::Reading { .. }, CheckpointEvent::EntriesRead { .. }) => true,
        (CheckpointPhase::Applying { next, count, .. }, CheckpointEvent::EntryApplied) => 1 <= next <= count,
        (CheckpointPhase::Truncating, CheckpointEvent::Truncated) => true,
        (CheckpointPhase::Clearing, CheckpointEvent::Cleared) => true,
        _ => false,
    }
}

/// The action that ends the applying of `count` entries: truncate after `latest`
/// when a sequence number follows it.
pub open spec fn after_applying(latest: u64) -> (CheckpointPhase, CheckpointAction) {
    if latest < u64::MAX {
        (CheckpointPhase::Truncating, CheckpointAction::TruncateTo((latest + 1) as u64))
    } else {
        (CheckpointPhase::Done, CheckpointAction::SequencesExhausted)
    }
}

/// One step of a checkpoint: the next phase and what to do.
pub open spec fn checkpoint_transition(phase: CheckpointPhase, event: CheckpointEvent) -> (CheckpointPhase, CheckpointAction) {
    match (phase, event) {
        (CheckpointPhase::Idle, CheckpointEvent::Begin { pending }) => match pending {
            None => (CheckpointPhase::Done, CheckpointAction::Finish),
            Some((oldest, latest)) => (CheckpointPhase::Reading { latest }, CheckpointAction::ReadFrom(oldest)),
        },
        (CheckpointPhase::Reading { latest }, CheckpointEvent::EntriesRead { count }) => if count == 0 {
            (CheckpointPhase::Clearing, CheckpointAction::ClearPending)
        } else {
            (CheckpointPhase::Applying { latest, next: 1, count }, CheckpointAction::Apply(0))
        },
        (CheckpointPhase::Applying { latest, next, count }, CheckpointEvent::EntryApplied) => if next < count {
            (CheckpointPhase::Applying { latest, next: (next + 1) as usize, count }, CheckpointAction::Apply(next))
        } else {
            after_applying(latest)
        },
        (CheckpointPhase::Truncating, CheckpointEvent::Truncated) => (CheckpointPhase::Clearing, CheckpointAction::ClearPending),
        _ => (CheckpointPhase::Done, CheckpointAction::Finish),
    }
}

/// Whether `event` is what a checkpoint in `phase` waits for.
pub fn checkpoint_accepts(phase: CheckpointPhase, event: CheckpointEvent) -> (b: bool)
    ensures
        b == checkpoint_expects(phase, event),
{
    match (phase, event) {
        (CheckpointPhase::Idle, CheckpointEvent::Begin { .. }) => true,
        (CheckpointPhase::Reading { .. }, CheckpointEvent::EntriesRead { .. }) => true,
        (CheckpointPhase::Applying { next, count, .. }, CheckpointEvent::EntryApplied) => 1 <= next && next <= count,
        (CheckpointPhase::Truncating, CheckpointEvent::Truncated) => true,
        (CheckpointPhase::Clearing, CheckpointEvent::Cleared) => true,
        _ => false,
    }
}

/// One step of a checkpoint: given where it stands and what was reported, the next
/// phase and what to do.
pub fn checkpoint_step(phase: CheckpointPhase, event: CheckpointEvent) -> (r: (CheckpointPhase, CheckpointAction))
    requires
        checkpoint_expects(phase, event),
    ensures
        r == checkpoint_transition(phase, event),
{
    match (phase, event) {
        (CheckpointPhase::Idle, CheckpointEvent::Begin { pending }) => match pending {
            None => (CheckpointPhase::Done, CheckpointAction::Finish),
            Some((oldest, latest)) => (CheckpointPhase::Reading { latest }, CheckpointAction::ReadFrom(oldest)),
        },
        (CheckpointPhase::Reading { latest }, CheckpointEvent::EntriesRead { count }) => if count == 0 {
            (CheckpointPhase::Clearing, CheckpointAction::ClearPending)
        } else {
            (CheckpointPhase::Applying { latest, next: 1, count }, CheckpointAction::Apply(0))
        },
        (CheckpointPhase::Applying { latest, next, count }, CheckpointEvent::EntryApplied) => if next < count {
            (CheckpointPhase::Applying { latest, next: next + 1, count }, CheckpointAction::Apply(next))
        } else if latest < u64::MAX {
            (CheckpointPhase::Truncating, CheckpointAction::TruncateTo(latest + 1))
        } else {
            (CheckpointPhase::Done, CheckpointAction::SequencesExhausted)
        },
        (CheckpointPhase::Truncating, CheckpointEvent::Truncated) => (CheckpointPhase::Clearing, CheckpointAction::ClearPending),
        _ => (CheckpointPhase::Done, CheckpointAction::Finish),
    }
}


/// The phase reached and the actions asked for when `events` are reported in turn
/// to a checkpoint in `phase`.
pub open spec fn checkpoint_run(phase: CheckpointPhase, events: Seq<CheckpointEvent>) -> (CheckpointPhase, Seq<CheckpointAction>)
    decreases events.len(),
{
    if events.len() == 0 {
        (phase, Seq::empty())
    } else {
        let (next, action) = checkpoint_transition(phase, events[0]);
        let (last, actions) = checkpoint_run(next, events.drop_first());
        (last, seq![action] + actions)
    }
}

/// What a checkpoint that reads `count` entries is told, in order, when every step
/// succeeds.
pub open spec fn successful_checkpoint_events(oldest: u64, latest: u64, count: usize) -> Seq<CheckpointEvent> {
    seq![CheckpointEvent::Begin { pending: Some((oldest, latest)) }, CheckpointEvent::EntriesRead { count }]
        + Seq::new(count as nat, |i: int| CheckpointEvent::EntryApplied)
        + seq![CheckpointEvent::Truncated, CheckpointEvent::Cleared]
}

/// Applying entries `next - 1 .. count` and finishing.
proof fn lemma_applying_run(latest: u64, next: usize, count: usize)
    requires
        1 <= next <= count,
        latest < u64::MAX,
    ensures
        checkpoint_run(
            CheckpointPhase::Applying { latest, next, count },
            Seq::new((count - next + 1) as nat, |i: int| CheckpointEvent::EntryApplied)
                + seq![CheckpointEvent::Truncated, CheckpointEvent::Cleared],
        ) == (
            CheckpointPhase::Done,
            Seq::new((count - next) as nat, |i: int| CheckpointAction::Apply((next + i) as usize))
                + seq![CheckpointAction::TruncateTo((latest + 1) as u64), CheckpointAction::ClearPending, CheckpointAction::Finish],
        ),
    decreases count - next,
{
    let evs = Seq::new((count - next + 1) as nat, |i: int| CheckpointEvent::EntryApplied)
        + seq![CheckpointEvent::Truncated, CheckpointEvent::Cleared];
    let tail = seq![CheckpointEvent::Truncated, CheckpointEvent::Cleared];
    assert(evs[0] == CheckpointEvent::EntryApplied);
    if next < count {
        let rest = Seq::new((count - (next + 1) + 1) as nat, |i: int| CheckpointEvent::EntryApplied) + tail;
        assert(evs.drop_first() =~= rest);
        lemma_applying_run(latest, (next + 1) as usize, count);
        let acts = Seq::new((count - next) as nat, |i: int| CheckpointAction::Apply((next + i) as usize))
            + seq![CheckpointAction::TruncateTo((latest + 1) as u64), CheckpointAction::ClearPending, CheckpointAction::Finish];
        let later = Seq::new((count - (next + 1)) as nat, |i: int| CheckpointAction::Apply(((next + 1) as usize + i) as usize))
            + seq![CheckpointAction::TruncateTo((latest + 1) as u64), CheckpointAction::ClearPending, CheckpointAction::Finish];
        assert(acts =~= seq![CheckpointAction::Apply(next)] + later);
    } else {
        assert(evs.drop_first() =~= tail);
        assert(tail[0] == CheckpointEvent::Truncated);
        assert(tail.drop_first() =~= seq![CheckpointEvent::Cleared]);
        assert(seq![CheckpointEvent::Cleared].drop_first() =~= Seq::<CheckpointEvent>::empty());
        let acts = Seq::new((count - next) as nat, |i: int| CheckpointAction::Apply((next + i) as usize))
            + seq![CheckpointAction::TruncateTo((latest + 1) as u64), CheckpointAction::ClearPending, CheckpointAction::Finish];
        assert(acts =~= seq![CheckpointAction::TruncateTo((latest + 1) as u64), CheckpointAction::ClearPending, CheckpointAction::Finish]);
        assert(checkpoint_run(CheckpointPhase::Done, Seq::empty()) == (CheckpointPhase::Done, Seq::<CheckpointAction>::empty()));
        assert(checkpoint_run(CheckpointPhase::Clearing, seq![CheckpointEvent::Cleared]).1
            =~= seq![CheckpointAction::Finish]);
        assert(checkpoint_run(CheckpointPhase::Truncating, tail).1
            =~= seq![CheckpointAction::ClearPending, CheckpointAction::Finish]);
    }
}

/// A checkpoint whose steps all succeed asks, in order, to read from the oldest
/// pending sequence number, to apply each entry read once and in the order read,
/// to truncate the log so that it restarts after the latest pending sequence
/// number, and to forget the pending ones; then it is over. One that reads no
/// entry only forgets them, and one with nothing pending does nothing.
pub proof fn lemma_checkpoint_applies_everything_once(oldest: u64, latest: u64, count: usize)
    requires
        latest < u64::MAX,
    ensures
        count > 0 ==> checkpoint_run(CheckpointPhase::Idle, successful_checkpoint_events(oldest, latest, count)) == (
            CheckpointPhase::Done,
            seq![CheckpointAction::ReadFrom(oldest)]
                + Seq::new(count as nat, |i: int| CheckpointAction::Apply(i as usize))
                + seq![CheckpointAction::TruncateTo((latest + 1) as u64), CheckpointAction::ClearPending, CheckpointAction::Finish],
        ),
        checkpoint_run(
            CheckpointPhase::Idle,
            seq![CheckpointEvent::Begin { pending: Some((oldest, latest)) }, CheckpointEvent::EntriesRead { count: 0 }, CheckpointEvent::Cleared],
        ) == (CheckpointPhase::Done, seq![CheckpointAction::ReadFrom(oldest), CheckpointAction::ClearPending, CheckpointAction::Finish]),
        checkpoint_run(CheckpointPhase::Idle, seq![CheckpointEvent::Begin { pending: None }])
            == (CheckpointPhase::Done, seq![CheckpointAction::Finish]),
{
    let e0 = seq![CheckpointEvent::Begin { pending: None }];
    assert(e0.drop_first() =~= Seq::<CheckpointEvent>::empty());
    assert(checkpoint_run(CheckpointPhase::Done, e0.drop_first()) == (CheckpointPhase::Done, Seq::<CheckpointAction>::empty()));
    assert(checkpoint_run(CheckpointPhase::Idle, e0).1 =~= seq![CheckpointAction::Finish]);

    let e1 = seq![CheckpointEvent::Begin { pending: Some((oldest, latest)) }, CheckpointEvent::EntriesRead { count: 0 }, CheckpointEvent::Cleared];
    assert(e1.drop_first() =~= seq![CheckpointEvent::EntriesRead { count: 0 }, CheckpointEvent::Cleared]);
    assert(e1.drop_first().drop_first() =~= seq![CheckpointEvent::Cleared]);
    assert(e1.drop_first().drop_first().drop_first() =~= Seq::<CheckpointEvent>::empty());
    assert(checkpoint_run(CheckpointPhase::Clearing, seq![CheckpointEvent::Cleared]).1 =~= seq![CheckpointAction::Finish]);
    assert(checkpoint_run(CheckpointPhase::Reading { latest }, e1.drop_first()).1
        =~= seq![CheckpointAction::ClearPending, CheckpointAction::Finish]);
    assert(checkpoint_run(CheckpointPhase::Idle, e1).1
        =~= seq![CheckpointAction::ReadFrom(oldest), CheckpointAction::ClearPending, CheckpointAction::Finish]);

    if count > 0 {
        let evs = successful_checkpoint_events(oldest, latest, count);
        let tail = seq![CheckpointEvent::Truncated, CheckpointEvent::Cleared];
        let applied = Seq::new((count - 1 + 1) as nat, |i: int| CheckpointEvent::EntryApplied) + tail;
        assert(evs[0] == CheckpointEvent::Begin { pending: Some((oldest, latest)) });
        assert(evs.drop_first()[0] == CheckpointEvent::EntriesRead { count });
        assert(evs.drop_first().drop_first() =~= applied);
        lemma_applying_run(latest, 1, count);
        let run_applying = checkpoint_run(CheckpointPhase::Applying { latest, next: 1, count }, applied);
        assert(checkpoint_run(CheckpointPhase::Reading { latest }, evs.drop_first()) == (
            run_applying.0,
            seq![CheckpointAction::Apply(0)] + run_applying.1,
        ));
        assert(checkpoint_run(CheckpointPhase::Idle, evs) == (
            run_applying.0,
            seq![CheckpointAction::ReadFrom(oldest)] + (seq![CheckpointAction::Apply(0)] + run_applying.1),
        ));
        let rest = Seq::new((count - 1) as nat, |i: int| CheckpointAction::Apply((1 + i) as usize))
            + seq![CheckpointAction::TruncateTo((latest + 1) as u64), CheckpointAction::ClearPending, CheckpointAction::Finish];
        let whole = seq![CheckpointAction::ReadFrom(oldest)]
            + Seq::new(count as nat, |i: int| CheckpointAction::Apply(i as usize))
            + seq![CheckpointAction::TruncateTo((latest + 1) as u64), CheckpointAction::ClearPending, CheckpointAction::Finish];
        assert(whole =~= seq![CheckpointAction::ReadFrom(oldest)] + (seq![CheckpointAction::Apply(0)] + rest));
    }
}

} // verus!
