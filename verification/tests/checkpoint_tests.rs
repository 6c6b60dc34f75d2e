use manifold::wal::checkpoint::{checkpoint_accepts, checkpoint_step, CheckpointAction, CheckpointEvent, CheckpointPhase};

fn run(events: &[CheckpointEvent]) -> (CheckpointPhase, Vec<CheckpointAction>) {
    let mut phase = CheckpointPhase::Idle;
    let mut actions = Vec::new();
    for &event in events {
        assert!(checkpoint_accepts(phase, event));
        let (next, action) = checkpoint_step(phase, event);
        phase = next;
        actions.push(action);
    }
    (phase, actions)
}

#[test]
fn test_checkpoint_applies_each_entry_once_then_truncates() {
    let (phase, actions) = run(&[
        CheckpointEvent::Begin { pending: Some((4, 6)) },
        CheckpointEvent::EntriesRead { count: 3 },
        CheckpointEvent::EntryApplied,
        CheckpointEvent::EntryApplied,
        CheckpointEvent::EntryApplied,
        CheckpointEvent::Truncated,
        CheckpointEvent::Cleared,
    ]);
    assert_eq!(phase, CheckpointPhase::Done);
    assert_eq!(
        actions,
        vec![
            CheckpointAction::ReadFrom(4),
            CheckpointAction::Apply(0),
            CheckpointAction::Apply(1),
            CheckpointAction::Apply(2),
            CheckpointAction::TruncateTo(7),
            CheckpointAction::ClearPending,
            CheckpointAction::Finish,
        ]
    );
}

#[test]
fn test_checkpoint_with_nothing_read_only_clears() {
    let (phase, actions) = run(&[
        CheckpointEvent::Begin { pending: Some((2, 2)) },
        CheckpointEvent::EntriesRead { count: 0 },
        CheckpointEvent::Cleared,
    ]);
    assert_eq!(phase, CheckpointPhase::Done);
    assert_eq!(actions, vec![CheckpointAction::ReadFrom(2), CheckpointAction::ClearPending, CheckpointAction::Finish]);
}

#[test]
fn test_checkpoint_with_nothing_pending_does_nothing() {
    let (phase, actions) = run(&[CheckpointEvent::Begin { pending: None }]);
    assert_eq!(phase, CheckpointPhase::Done);
    assert_eq!(actions, vec![CheckpointAction::Finish]);
}

#[test]
fn test_checkpoint_at_the_last_sequence_number_cannot_truncate() {
    let (phase, actions) = run(&[
        CheckpointEvent::Begin { pending: Some((1, u64::MAX)) },
        CheckpointEvent::EntriesRead { count: 1 },
        CheckpointEvent::EntryApplied,
    ]);
    assert_eq!(phase, CheckpointPhase::Done);
    assert_eq!(
        actions,
        vec![CheckpointAction::ReadFrom(1), CheckpointAction::Apply(0), CheckpointAction::SequencesExhausted]
    );
}

#[test]
fn test_checkpoint_refuses_steps_out_of_order() {
    assert!(!checkpoint_accepts(CheckpointPhase::Idle, CheckpointEvent::EntryApplied));
    assert!(!checkpoint_accepts(CheckpointPhase::Done, CheckpointEvent::Begin { pending: None }));
    assert!(!checkpoint_accepts(
        CheckpointPhase::Applying { latest: 3, next: 0, count: 2 },
        CheckpointEvent::EntryApplied
    ));
}
