use manifold::wal::checkpoint::{should_checkpoint, PendingSequences};
use manifold::wal::entry::{Durability, WALEntry, WALTransactionPayload};
use manifold::wal::replay::{group_by_column_family, plan_recovery};

fn entry(seq: u64, cf: &str, txn: u64) -> WALEntry {
    let mut e = WALEntry::new(
        cf.to_string(),
        txn,
        WALTransactionPayload::new(None, None, vec![], vec![], Durability::Immediate),
    );
    e.sequence = seq;
    e
}

#[test]
fn test_entries_grouped_by_column_family() {
    let entries = vec![entry(1, "a", 10), entry(2, "b", 20), entry(3, "a", 11), entry(4, "c", 30), entry(5, "b", 21)];
    let groups = group_by_column_family(&entries);
    let names: Vec<&str> = groups.iter().map(|g| g.cf_name.as_str()).collect();
    assert_eq!(names, vec!["a", "b", "c"]);
    assert_eq!(groups[0].indices, vec![0, 2]);
    assert_eq!(groups[1].indices, vec![1, 4]);
    assert_eq!(groups[2].indices, vec![3]);
}

#[test]
fn test_recovery_plan() {
    assert!(plan_recovery(&vec![]).is_none());
    let entries = vec![entry(7, "x", 1), entry(8, "y", 2), entry(9, "x", 3)];
    let plan = plan_recovery(&entries).unwrap();
    assert_eq!(plan.truncate_to, 10);
    assert_eq!(plan.groups.len(), 2);
    assert_eq!(plan.first_unknown(&vec!["x".to_string(), "y".to_string()]), None);
    assert_eq!(plan.first_unknown(&vec!["x".to_string()]), Some(1));
}

#[test]
fn test_pending_sequences_range() {
    let mut pending = PendingSequences::new();
    assert_eq!(pending.range(), None);
    pending.register_pending(5);
    pending.register_pending(3);
    pending.register_pending(9);
    pending.register_pending(3);
    assert_eq!(pending.range(), Some((3, 9)));
    pending.clear();
    assert_eq!(pending.range(), None);
}

#[test]
fn test_should_checkpoint() {
    assert!(should_checkpoint(true, Some(0), 100));
    assert!(should_checkpoint(false, Some(100), 100));
    assert!(!should_checkpoint(false, Some(99), 100));
    assert!(!should_checkpoint(false, None, 100));
    assert!(should_checkpoint(false, None, 0));
}
