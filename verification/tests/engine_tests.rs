use thunder::bucket::bucket_data_key;
use thunder::db::{Database, DbImage, DbOptions};
use thunder::error::Error;
use thunder::meta::Meta;
use thunder::overflow::PageStore;

fn empty_image() -> DbImage {
    DbImage {
        data: Vec::new(),
        pages: PageStore { entries: Vec::new() },
        wal_segments: Vec::new(),
    }
}

fn fresh_db() -> Database {
    Database::open(empty_image()).expect("open empty image")
}

#[test]
fn test_db_put_commit_get() {
    // put, commit, read back; overwrite; delete
    let mut db = fresh_db();

    let mut tx = db.write_tx();
    tx.put(b"k", b"v1");
    tx.commit(&mut db).expect("commit");
    assert_eq!(db.get(b"k").unwrap(), Some(b"v1".to_vec()));

    let mut tx = db.write_tx();
    tx.put(b"k", b"v2");
    tx.commit(&mut db).expect("commit");
    assert_eq!(db.get(b"k").unwrap(), Some(b"v2".to_vec()));

    let mut tx = db.write_tx();
    tx.delete(b"k");
    tx.commit(&mut db).expect("commit");
    assert_eq!(db.get(b"k").unwrap(), None);
}

#[test]
fn test_db_read_tx_snapshot() {
    let mut db = fresh_db();
    let mut tx = db.write_tx();
    tx.put(b"a", b"1");
    tx.put(b"b", b"2");
    tx.commit(&mut db).expect("commit");

    let rtx = db.read_tx();
    assert_eq!(rtx.get(b"a").unwrap(), Some(b"1".to_vec()));
    assert_eq!(rtx.get(b"b").unwrap(), Some(b"2".to_vec()));
    assert_eq!(rtx.get(b"c").unwrap(), None);
}

#[test]
fn test_db_last_write_wins_in_one_tx() {
    let mut db = fresh_db();
    let mut tx = db.write_tx();
    tx.put(b"k", b"first");
    tx.put(b"k", b"second");
    tx.put(b"gone", b"x");
    tx.delete(b"gone");
    tx.delete(b"back");
    tx.put(b"back", b"y");
    tx.commit(&mut db).expect("commit");

    assert_eq!(db.get(b"k").unwrap(), Some(b"second".to_vec()));
    assert_eq!(db.get(b"gone").unwrap(), None);
    assert_eq!(db.get(b"back").unwrap(), Some(b"y".to_vec()));
}

#[test]
fn test_db_rollback_on_drop() {
    let mut db = fresh_db();
    {
        let mut tx = db.write_tx();
        tx.put(b"uncommitted", b"data");
        // dropped without commit
    }
    assert_eq!(db.get(b"uncommitted").unwrap(), None);
}

#[test]
fn test_db_reopen_returns_same_data() {
    // durability: commit then simulated crash + reopen
    let mut db = fresh_db();
    for round in 0..3u32 {
        let mut tx = db.write_tx();
        for i in 0..20u32 {
            let key = format!("key_{round}_{i:03}");
            let value = format!("value_{round}_{i}");
            tx.put(key.as_bytes(), value.as_bytes());
        }
        tx.commit(&mut db).expect("commit");
    }

    let image = db.image();
    let db2 = Database::open(image).expect("reopen");
    assert_eq!(db2.current_txid(), db.current_txid());
    for round in 0..3u32 {
        for i in 0..20u32 {
            let key = format!("key_{round}_{i:03}");
            let value = format!("value_{round}_{i}");
            assert_eq!(db2.get(key.as_bytes()).unwrap(), Some(value.into_bytes()));
        }
    }
}

#[test]
fn test_db_many_keys_ascending_iteration() {
    let mut db = fresh_db();
    let mut tx = db.write_tx();
    for i in 0..1000u32 {
        let key = format!("key_{i:05}");
        let value = format!("value_{i}");
        tx.put(key.as_bytes(), value.as_bytes());
    }
    tx.commit(&mut db).expect("commit");

    let image = db.image();
    let db2 = Database::open(image).expect("reopen");
    assert_eq!(db2.entry_count(), 1000);
    for i in 0..1000u32 {
        let key = format!("key_{i:05}");
        assert!(db2.get(key.as_bytes()).unwrap().is_some(), "missing {key}");
    }
    // the working set iterates keys in ascending byte order
    let n = db2.tree.num_entries();
    let mut prev: Option<Vec<u8>> = None;
    for i in 0..n {
        let k = db2.tree.key_at_idx(i).clone();
        if let Some(p) = &prev {
            assert!(p < &k, "keys must ascend");
        }
        prev = Some(k);
    }
}

#[test]
fn test_db_large_value_overflow_roundtrip() {
    // a value above the overflow threshold goes out of line and survives
    // a reopen byte-exact
    let mut db = fresh_db();
    let big: Vec<u8> = (0..100_000u32).map(|i| (i % 251) as u8).collect();
    let mut tx = db.write_tx();
    tx.put(b"big", &big);
    tx.commit(&mut db).expect("commit");

    assert!(!db.pages.entries.is_empty(), "value must use overflow pages");
    let got = db.get(b"big").unwrap().expect("value present");
    assert_eq!(got.len(), big.len());
    assert_eq!(got, big);

    let image = db.image();
    let db2 = Database::open(image).expect("reopen");
    let got2 = db2.get(b"big").unwrap().expect("value present after reopen");
    assert_eq!(got2, big);
}

#[test]
fn test_db_overflow_corruption_detected() {
    // flipping a byte in the data region of an overflow page makes the
    // read fail with Corrupted
    let mut db = fresh_db();
    let big = vec![0x5Au8; 100_000];
    let mut tx = db.write_tx();
    tx.put(b"big", &big);
    tx.commit(&mut db).expect("commit");

    assert!(!db.pages.entries.is_empty());
    // corrupt one byte past the 24-byte page header
    db.pages.entries[0].1[100] ^= 0xFF;

    match db.get(b"big") {
        Err(Error::Corrupted(_)) => {}
        other => panic!("expected Corrupted, got {other:?}"),
    }
}

#[test]
fn test_db_meta_alternation() {
    // after N commits starting from txid 0, the newer slot's txid is N
    // and its parity selects the slot written last
    let mut db = fresh_db();
    assert_eq!(db.current_txid(), 0);
    for i in 0..3u32 {
        let mut tx = db.write_tx();
        tx.put(format!("k{i}").as_bytes(), b"v");
        tx.commit(&mut db).expect("commit");
    }
    assert_eq!(db.current_txid(), 3);

    let ps = 4096usize;
    let slot1 = Meta::from_bytes(&db.data[ps..ps + 64]).unwrap();
    assert!(slot1.validate());
    assert_eq!(slot1.txid, 3); // 3 % 2 == 1: slot 1 written last
    let slot0 = Meta::from_bytes(&db.data[0..64]).unwrap();
    assert!(slot0.validate());
    assert_eq!(slot0.txid, 2);
}

#[test]
fn test_db_commit_syncs_wal() {
    let mut db = fresh_db();
    let mut tx = db.write_tx();
    tx.put(b"k", b"v");
    tx.commit(&mut db).expect("commit");
    assert_eq!(db.wal.synced, db.wal.end_lsn());
    // TxBegin, Put, TxCommit
    assert_eq!(db.wal.iter_from(0).len(), 3);
}

#[test]
fn test_db_torn_wal_tail_reopen() {
    // garbage at the end of the live segment does not disturb recovery
    let mut db = fresh_db();
    let mut tx = db.write_tx();
    tx.put(b"alpha", b"1");
    tx.commit(&mut db).expect("commit");
    let mut tx = db.write_tx();
    tx.put(b"beta", b"2");
    tx.commit(&mut db).expect("commit");

    let mut image = db.image();
    let last = image.wal_segments.len() - 1;
    image.wal_segments[last]
        .data
        .extend_from_slice(&[0xDE, 0xAD, 0xBE, 0xEF, 0x00, 0x01, 0x02]);

    let db2 = Database::open(image).expect("reopen with torn tail");
    assert_eq!(db2.get(b"alpha").unwrap(), Some(b"1".to_vec()));
    assert_eq!(db2.get(b"beta").unwrap(), Some(b"2".to_vec()));
}

#[test]
fn test_db_checkpoint_truncates_and_reopens() {
    let mut db = fresh_db();
    for i in 0..5u32 {
        let mut tx = db.write_tx();
        tx.put(format!("k{i}").as_bytes(), format!("v{i}").as_bytes());
        tx.commit(&mut db).expect("commit");
    }
    let res = db.checkpoint(1000).expect("checkpoint");
    assert_eq!(res.lsn, db.checkpoint_lsn);
    assert_eq!(db.checkpoint_lsn, db.wal.end_lsn());

    let image = db.image();
    let db2 = Database::open(image).expect("reopen after checkpoint");
    for i in 0..5u32 {
        assert_eq!(
            db2.get(format!("k{i}").as_bytes()).unwrap(),
            Some(format!("v{i}").into_bytes())
        );
    }
    assert_eq!(db2.checkpoint_lsn, db.checkpoint_lsn);
}

#[test]
fn test_db_bucket_isolation_through_commits() {
    // same user key in two buckets stays isolated through commit and reopen
    let mut db = fresh_db();
    let mut tx = db.write_tx();
    tx.put(&bucket_data_key(b"A", b"k"), b"1");
    tx.put(&bucket_data_key(b"B", b"k"), b"2");
    tx.commit(&mut db).expect("commit");

    assert_eq!(db.get(&bucket_data_key(b"A", b"k")).unwrap(), Some(b"1".to_vec()));
    assert_eq!(db.get(&bucket_data_key(b"B", b"k")).unwrap(), Some(b"2".to_vec()));

    let db2 = Database::open(db.image()).expect("reopen");
    assert_eq!(db2.get(&bucket_data_key(b"A", b"k")).unwrap(), Some(b"1".to_vec()));
    assert_eq!(db2.get(&bucket_data_key(b"B", b"k")).unwrap(), Some(b"2".to_vec()));
}

#[test]
fn test_db_open_rejects_garbage_metas() {
    let image = DbImage {
        data: vec![0u8; 3 * 4096],
        pages: PageStore { entries: Vec::new() },
        wal_segments: Vec::new(),
    };
    match Database::open(image) {
        Err(Error::BothMetaPagesInvalid) => {}
        Err(other) => panic!("expected BothMetaPagesInvalid, got {other:?}"),
        Ok(_) => panic!("expected BothMetaPagesInvalid, got Ok"),
    }
}

#[test]
fn test_db_open_rejects_short_file() {
    let image = DbImage {
        data: vec![0u8; 100],
        pages: PageStore { entries: Vec::new() },
        wal_segments: Vec::new(),
    };
    match Database::open(image) {
        Err(Error::Corrupted(_)) => {}
        Err(other) => panic!("expected Corrupted, got {other:?}"),
        Ok(_) => panic!("expected Corrupted, got Ok"),
    }
}

#[test]
fn test_db_large_value_optimized_options() {
    let options = DbOptions::large_value_optimized();
    let mut db = Database::open_with_options(empty_image(), options).expect("open");
    let mut tx = db.write_tx();
    tx.put(b"k", b"v");
    tx.commit(&mut db).expect("commit");
    assert_eq!(db.get(b"k").unwrap(), Some(b"v".to_vec()));
}
