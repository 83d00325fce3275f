use thunder::checkpoint::{CheckpointConfig, CheckpointInfo, CheckpointManager};
use thunder::wal::{SyncPolicy, Wal, WalConfig};
use thunder::wal_record::WalRecord;

#[test]
fn test_checkpoint_info_roundtrip() {
    let info = CheckpointInfo {
        lsn: 0x1234_5678_9ABC_DEF0,
        timestamp: 1704067200, // 2024-01-01 00:00:00 UTC
        entry_count: 1_000_000,
    };

    let bytes = info.to_bytes();
    let restored = CheckpointInfo::from_bytes(&bytes).expect("should parse");

    assert_eq!(info.lsn, restored.lsn);
    assert_eq!(info.timestamp, restored.timestamp);
    assert_eq!(info.entry_count, restored.entry_count);
}

#[test]
fn test_checkpoint_info_is_valid() {
    let empty = CheckpointInfo::default();
    assert!(!empty.is_valid());

    let with_lsn = CheckpointInfo {
        lsn: 100,
        timestamp: 0,
        entry_count: 0,
    };
    assert!(with_lsn.is_valid());

    let with_timestamp = CheckpointInfo {
        lsn: 0,
        timestamp: 12345,
        entry_count: 0,
    };
    assert!(with_timestamp.is_valid());
}

#[test]
fn test_checkpoint_manager_should_checkpoint_fresh() {
    let config = CheckpointConfig {
        interval_ms: 300_000,
        wal_threshold: 1024,
        min_records: 10,
    };

    let manager = CheckpointManager::new(config);

    // A fresh manager without any writes has nothing to checkpoint.
    assert_eq!(manager.records_since_checkpoint, 0);
}

#[test]
fn test_checkpoint_manager_record_count_trigger() {
    let config = CheckpointConfig {
        interval_ms: 3_600_000,              // Long interval
        wal_threshold: 1024 * 1024 * 1024,   // Very large
        min_records: 10,
    };

    let mut manager = CheckpointManager::new(config);

    // Record writes
    manager.record_writes(5);
    assert_eq!(manager.records_since_checkpoint, 5);

    manager.record_writes(10);
    assert_eq!(manager.records_since_checkpoint, 15);

    // After checkpoint, count resets
    manager.record_checkpoint(1000, 0);
    assert_eq!(manager.records_since_checkpoint, 0);
}

#[test]
fn test_checkpoint_manager_restore() {
    let config = CheckpointConfig::default();

    let info = CheckpointInfo {
        lsn: 5000,
        timestamp: 12345,
        entry_count: 100,
    };

    let manager = CheckpointManager::restore(config, info, 0);
    assert_eq!(manager.last_checkpoint_lsn(), 5000);
}

#[test]
fn test_create_checkpoint_info() {
    let config = CheckpointConfig::default();
    let manager = CheckpointManager::new(config);

    let info = manager.create_checkpoint_info(1000, 500, 1704067200);
    assert_eq!(info.lsn, 1000);
    assert_eq!(info.entry_count, 500);
    assert!(info.timestamp > 0);
}

#[test]
fn test_should_checkpoint_wal_growth_before_first_checkpoint() {
    // any one trigger suffices: WAL growth past the threshold fires even
    // before the first checkpoint, with no records accumulated
    let config = CheckpointConfig {
        interval_ms: 3_600_000,
        wal_threshold: 100,
        min_records: 1_000_000,
    };
    let manager = CheckpointManager::new(config);

    let mut wal = Wal::new(WalConfig {
        segment_size: 1 << 20,
        sync_policy: SyncPolicy::Never,
    });
    assert!(!manager.should_checkpoint(&wal, 0));

    // grow the WAL past the 100-byte threshold
    for i in 0..8u8 {
        wal.append(&WalRecord::Put {
            key: vec![i; 8],
            value: vec![i; 16],
        })
        .unwrap();
    }
    assert!(wal.approximate_size() >= 100);
    assert!(manager.should_checkpoint(&wal, 0));
}

#[test]
fn test_should_checkpoint_record_trigger() {
    let config = CheckpointConfig {
        interval_ms: 3_600_000,
        wal_threshold: 1 << 30,
        min_records: 10,
    };
    let mut manager = CheckpointManager::new(config);
    let wal = Wal::new(WalConfig {
        segment_size: 1 << 20,
        sync_policy: SyncPolicy::Never,
    });
    manager.record_writes(9);
    assert!(!manager.should_checkpoint(&wal, 0));
    manager.record_writes(1);
    assert!(manager.should_checkpoint(&wal, 0));
}
