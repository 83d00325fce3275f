use thunder::error::Error;
use thunder::wal::{SyncPolicy, Wal, WalConfig, WalSegment};
use thunder::wal_record::WalRecord;

fn config(segment_size: usize) -> WalConfig {
    WalConfig {
        segment_size,
        sync_policy: SyncPolicy::Never,
    }
}

fn put(n: u8) -> WalRecord {
    WalRecord::Put {
        key: vec![n; 4],
        value: vec![n; 8],
    }
}

#[test]
fn test_wal_lsn_monotonic() {
    let mut wal = Wal::new(config(1024));
    let mut last: Option<u64> = None;
    for i in 0..10u8 {
        let lsn = wal.append(&put(i)).unwrap();
        if let Some(prev) = last {
            assert!(lsn > prev, "lsn {lsn} must exceed {prev}");
        }
        last = Some(lsn);
    }
    assert_eq!(wal.segments.len(), 1);
}

#[test]
fn test_wal_first_lsn_is_zero() {
    let mut wal = Wal::new(config(1024));
    let lsn = wal.append(&put(1)).unwrap();
    assert_eq!(lsn, 0);
}

#[test]
fn test_wal_segment_roll() {
    // each record is 9 + 4 + 4 + 4 + 8 = 29 bytes; 4 fit in 128
    let mut wal = Wal::new(config(128));
    for i in 0..5u8 {
        wal.append(&put(i)).unwrap();
    }
    assert_eq!(wal.segments.len(), 2);
    // the record that did not fit starts at the new segment's base
    let base = wal.segments[1].id * 128;
    assert_eq!(wal.segments[1].id, 1);
    assert!(wal.end_lsn() > base);
}

#[test]
fn test_wal_iter_from_replays_records() {
    let mut wal = Wal::new(config(1024));
    let records = vec![
        WalRecord::TxBegin { txid: 1 },
        put(7),
        WalRecord::Delete { key: vec![9; 3] },
        WalRecord::TxCommit { txid: 1 },
    ];
    let mut lsns = Vec::new();
    for r in &records {
        lsns.push(wal.append(r).unwrap());
    }
    let replayed = wal.iter_from(0);
    assert_eq!(replayed.len(), records.len());
    for (i, (lsn, rec)) in replayed.iter().enumerate() {
        assert_eq!(*lsn, lsns[i]);
        assert_eq!(*rec, records[i]);
    }
}

#[test]
fn test_wal_iter_from_skips_earlier_records() {
    let mut wal = Wal::new(config(1024));
    let _l0 = wal.append(&put(0)).unwrap();
    let l1 = wal.append(&put(1)).unwrap();
    let l2 = wal.append(&put(2)).unwrap();
    let replayed = wal.iter_from(l1);
    assert_eq!(replayed.len(), 2);
    assert_eq!(replayed[0].0, l1);
    assert_eq!(replayed[1].0, l2);
}

#[test]
fn test_wal_tail_tolerance() {
    // appending a malformed record does not disturb earlier records
    let mut wal = Wal::new(config(1024));
    for i in 0..3u8 {
        wal.append(&put(i)).unwrap();
    }
    let before = wal.iter_from(0);
    let last = wal.segments.len() - 1;
    wal.segments[last].data.extend_from_slice(&[0xFF, 0xFF, 0xFF, 0xFF, 0x00]);
    let after = wal.iter_from(0);
    assert_eq!(before.len(), 3);
    assert_eq!(after.len(), 3);
    for i in 0..3 {
        assert_eq!(before[i].0, after[i].0);
        assert_eq!(before[i].1, after[i].1);
    }
}

#[test]
fn test_wal_sync_watermark() {
    let mut wal = Wal::new(config(1024));
    wal.append(&put(1)).unwrap();
    assert_eq!(wal.synced, 0);
    wal.sync().unwrap();
    assert_eq!(wal.synced, wal.end_lsn());
}

#[test]
fn test_wal_truncate_before() {
    let mut wal = Wal::new(config(128));
    for i in 0..10u8 {
        wal.append(&put(i)).unwrap();
    }
    assert!(wal.segments.len() >= 3);
    let cut = wal.segments[2].id * 128;
    let survivors = wal.iter_from(cut);
    wal.truncate_before(cut).unwrap();
    assert_eq!(wal.segments[0].id, 2);
    let replayed = wal.iter_from(cut);
    assert_eq!(replayed.len(), survivors.len());
    for i in 0..replayed.len() {
        assert_eq!(replayed[i].0, survivors[i].0);
        assert_eq!(replayed[i].1, survivors[i].1);
    }
}

#[test]
fn test_wal_approximate_size() {
    let mut wal = Wal::new(config(1024));
    assert_eq!(wal.approximate_size(), 0);
    wal.append(&put(1)).unwrap();
    wal.append(&put(2)).unwrap();
    let total: usize = wal.segments.iter().map(|s| s.data.len()).sum();
    assert_eq!(wal.approximate_size(), total as u64);
}

#[test]
fn test_wal_from_segments_rejects_oversized() {
    let seg = WalSegment {
        id: 0,
        data: vec![0u8; 256],
    };
    let r = Wal::from_segments(config(128), vec![seg]);
    assert!(matches!(r.err().unwrap(), Error::Corrupted(_)));
}

#[test]
fn test_wal_from_segments_rejects_gap() {
    let s0 = WalSegment { id: 0, data: vec![] };
    let s2 = WalSegment { id: 2, data: vec![] };
    let r = Wal::from_segments(config(128), vec![s0, s2]);
    assert!(matches!(r.err().unwrap(), Error::Corrupted(_)));
}
