use manifold::wal::config::{CheckpointConfig, WALConfig};
use std::time::Duration;

#[test]
fn test_wal_config_defaults() {
    let config = WALConfig::default();
    assert_eq!(config.checkpoint_interval, Duration::from_secs(60));
    assert_eq!(config.max_wal_size, 64 * 1024 * 1024);
}

#[test]
fn test_checkpoint_config_from_wal_config() {
    let wal = WALConfig { checkpoint_interval: Duration::from_secs(15), max_wal_size: 1000 };
    let cp = CheckpointConfig::from(wal);
    assert_eq!(cp.interval, Duration::from_secs(15));
    assert_eq!(cp.max_wal_size, 1000);
}
