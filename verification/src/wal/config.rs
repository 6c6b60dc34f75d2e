//! Configuration of the write-ahead log and of checkpointing.

use core::time::Duration;
use vstd::prelude::*;

verus! {

/// The duration of `secs` whole seconds, as `Duration::from_secs` makes it.
pub uninterp spec fn duration_from_secs(secs: u64) -> Duration;

/// Makes a duration of `secs` seconds with `Duration::from_secs`.
///
/// Trusted: `Duration::from_secs` is a pure constructor that never panics; its
/// result is named `duration_from_secs` of the argument.
#[verifier::external_body]
fn seconds(secs: u64) -> (d: Duration)
    ensures
        d == duration_from_secs(secs),
{
    Duration::from_secs(secs)
}

/// Default interval between checkpoints, in seconds.
pub const DEFAULT_CHECKPOINT_INTERVAL_SECS: u64 = 60;

/// Default size of the log that triggers a checkpoint (64 MiB).
pub const DEFAULT_MAX_WAL_SIZE: u64 = 67108864;

/// Configuration for the write-ahead log.
#[derive(Debug, Clone, Copy)]
pub struct WALConfig {
    /// How often to checkpoint the log into the main database.
    pub checkpoint_interval: Duration,
    /// Size of the log file that triggers a checkpoint.
    pub max_wal_size: u64,
}

impl Default for WALConfig {
    fn default() -> (c: Self)
        ensures
            c.checkpoint_interval == duration_from_secs(DEFAULT_CHECKPOINT_INTERVAL_SECS),
            c.max_wal_size == DEFAULT_MAX_WAL_SIZE,
    {
        Self {
            checkpoint_interval: seconds(DEFAULT_CHECKPOINT_INTERVAL_SECS),
            max_wal_size: DEFAULT_MAX_WAL_SIZE,
        }
    }
}

/// Configuration for the checkpoint manager.
#[derive(Debug, Clone, Copy)]
pub struct CheckpointConfig {
    /// Time-based checkpoint trigger.
    pub interval: Duration,
    /// Size-based checkpoint trigger.
    pub max_wal_size: u64,
}

impl From<WALConfig> for CheckpointConfig {
    fn from(config: WALConfig) -> (c: Self) {
        Self { interval: config.checkpoint_interval, max_wal_size: config.max_wal_size }
    }
}

impl vstd::std_specs::convert::FromSpecImpl<WALConfig> for CheckpointConfig {
    open spec fn obeys_from_spec() -> bool {
        true
    }

    open spec fn from_spec(config: WALConfig) -> Self {
        CheckpointConfig { interval: config.checkpoint_interval, max_wal_size: config.max_wal_size }
    }
}

} // verus!
