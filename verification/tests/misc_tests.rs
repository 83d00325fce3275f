use thunder::bucket::{create_bucket, BucketBound, BucketRef};
use thunder::crc::{compute_checksums, crc32_checksum};
use thunder::error::Error;
use thunder::group_commit::{GroupCommitConfig, GroupCommitManager};
use thunder::meta::{select_meta, Meta};
use thunder::overflow::{OverflowManager, PageStore};
use thunder::tree::Tree;
use thunder::wal_record::WalRecord;

#[test]
fn test_compute_checksums_known_vectors() {
    let buffers = vec![b"123456789".to_vec(), Vec::new(), b"Hello, World!".to_vec()];
    let sums = compute_checksums(&buffers);
    assert_eq!(sums.len(), 3);
    assert_eq!(sums[0], 0xCBF4_3926);
    assert_eq!(sums[1], 0);
    assert_eq!(sums[2], crc32_checksum(b"Hello, World!"));
}

#[test]
fn test_tree_insert_get_remove() {
    let mut tree = Tree::new();
    assert!(tree.is_empty());
    assert_eq!(tree.insert(b"b".to_vec(), b"2".to_vec()), None);
    assert_eq!(tree.insert(b"a".to_vec(), b"1".to_vec()), None);
    assert_eq!(tree.len(), 2);
    assert_eq!(tree.get(b"a"), Some(b"1".to_vec()));
    assert_eq!(tree.get(b"b"), Some(b"2".to_vec()));
    assert_eq!(tree.get(b"c"), None);

    // overwrite returns the old value
    assert_eq!(tree.insert(b"a".to_vec(), b"11".to_vec()), Some(b"1".to_vec()));
    assert_eq!(tree.get(b"a"), Some(b"11".to_vec()));

    assert_eq!(tree.remove(b"a"), Some(b"11".to_vec()));
    assert_eq!(tree.remove(b"a"), None);
    assert_eq!(tree.len(), 1);
}

#[test]
fn test_tree_keys_sorted() {
    let mut tree = Tree::new();
    for k in [b"pear".to_vec(), b"apple".to_vec(), b"plum".to_vec(), b"fig".to_vec()] {
        tree.insert(k, b"x".to_vec());
    }
    let mut keys = Vec::new();
    for i in 0..tree.num_entries() {
        keys.push(tree.key_at_idx(i).clone());
    }
    let mut sorted = keys.clone();
    sorted.sort();
    assert_eq!(keys, sorted);
}

#[test]
fn test_bucket_range_bounds() {
    // range [lo, hi) returns exactly the user keys k with lo <= k < hi
    let mut tree = Tree::new();
    create_bucket(&mut tree, b"b").unwrap();
    for k in [b"a", b"b", b"c", b"d"] {
        tree.insert(
            thunder::bucket::bucket_data_key(b"b", k),
            k.to_vec(),
        );
    }
    let bucket = BucketRef::new(&tree, b"b").unwrap();

    let mut got = Vec::new();
    let mut it = bucket.range(BucketBound::Included(b"b"), BucketBound::Excluded(b"d"));
    while let Some((k, _)) = it.next() {
        got.push(k);
    }
    assert_eq!(got, vec![b"b".to_vec(), b"c".to_vec()]);

    let mut all = Vec::new();
    let mut it = bucket.range(BucketBound::Unbounded, BucketBound::Unbounded);
    while let Some((k, _)) = it.next() {
        all.push(k);
    }
    assert_eq!(all, vec![b"a".to_vec(), b"b".to_vec(), b"c".to_vec(), b"d".to_vec()]);

    let mut tail = Vec::new();
    let mut it = bucket.range(BucketBound::Excluded(b"b"), BucketBound::Included(b"d"));
    while let Some((k, _)) = it.next() {
        tail.push(k);
    }
    assert_eq!(tail, vec![b"c".to_vec(), b"d".to_vec()]);
}

#[test]
fn test_meta_roundtrip_and_validate() {
    let m = Meta::new(4096, 7, 0, 123, 45, 0, 0);
    assert!(m.validate());
    let bytes = m.to_bytes();
    assert_eq!(bytes.len(), 64);
    let back = Meta::from_bytes(&bytes).unwrap();
    assert_eq!(back, m);
    assert!(back.validate());
}

#[test]
fn test_meta_validate_rejects_corruption() {
    let m = Meta::new(4096, 7, 0, 123, 45, 0, 0);
    let mut bytes = m.to_bytes();
    bytes[13] ^= 0xFF; // flip a txid byte
    let back = Meta::from_bytes(&bytes).unwrap();
    assert!(!back.validate());
}

#[test]
fn test_meta_select_newest_valid() {
    let older = Meta::new(4096, 4, 0, 0, 0, 0, 0);
    let newer = Meta::new(4096, 5, 0, 0, 0, 0, 0);
    assert_eq!(select_meta(&older, &newer).unwrap().txid, 5);
    assert_eq!(select_meta(&newer, &older).unwrap().txid, 5);

    // a corrupted newer slot loses to the valid older one
    let mut broken = newer;
    broken.crc ^= 1;
    assert_eq!(select_meta(&older, &broken).unwrap().txid, 4);

    let mut broken2 = older;
    broken2.crc ^= 1;
    assert!(select_meta(&broken2, &broken).is_none());
}

#[test]
fn test_group_commit_config_default() {
    let c = GroupCommitConfig::default();
    assert_eq!(c.max_wait_ms, 10);
    assert_eq!(c.max_batch_size, 100);
}

#[test]
fn test_group_commit_batches_commits() {
    // four committers, one sync: fewer syncs than commits
    let mut gc = GroupCommitManager::new(GroupCommitConfig::default());
    assert!(gc.enqueue(10, 0)); // first becomes leader
    assert!(!gc.enqueue(20, 1));
    assert!(!gc.enqueue(30, 2));
    assert!(!gc.enqueue(40, 3));
    assert!(gc.should_flush(11)); // max_wait elapsed
    let batch = gc.take_batch();
    assert_eq!(batch, vec![10, 20, 30, 40]);
    gc.finish_batch(batch.len());
    assert_eq!(gc.batch_count(), 1);
    assert_eq!(gc.commit_count(), 4);
    assert!(gc.batch_count() < gc.commit_count());
    assert!(!gc.leader_active);
}

#[test]
fn test_group_commit_flush_on_full_batch() {
    let mut gc = GroupCommitManager::new(GroupCommitConfig {
        max_wait_ms: 1_000_000,
        max_batch_size: 2,
    });
    gc.enqueue(1, 0);
    assert!(!gc.should_flush(0));
    gc.enqueue(2, 0);
    assert!(gc.should_flush(0));
}

#[test]
fn test_overflow_chain_read_roundtrip() {
    // allocate a chain, store its pages, read the value back
    let mut mgr = OverflowManager::new(4096, 1);
    let value: Vec<u8> = (0..10_000u32).map(|i| (i % 256) as u8).collect();
    let (oref, chain_pages) = mgr.allocate_overflow(&value);

    let mut store = PageStore::new();
    for (id, data) in chain_pages {
        store.put_page(id, data);
    }
    let back = mgr.read_overflow(oref, &store).expect("chain reads back");
    assert_eq!(back, value);
}

#[test]
fn test_overflow_chain_corruption_detected() {
    let mut mgr = OverflowManager::new(4096, 1);
    let value = vec![0xA5u8; 10_000];
    let (oref, chain_pages) = mgr.allocate_overflow(&value);

    let mut store = PageStore::new();
    let mut first = true;
    for (id, mut data) in chain_pages {
        if first {
            data[200] ^= 0x01; // flip one data bit
            first = false;
        }
        store.put_page(id, data);
    }
    assert!(mgr.read_overflow(oref, &store).is_none());
}

#[test]
fn test_wal_record_invalid_error_variant() {
    let garbage = vec![9u8, 0, 0, 0, 77, 1, 2, 3, 4];
    match WalRecord::decode(&garbage) {
        Err(Error::WalRecordInvalid { .. }) => {}
        other => panic!("expected WalRecordInvalid, got {other:?}"),
    }
}

#[test]
fn test_invalid_bucket_name_error_variant() {
    let mut tree = Tree::new();
    match create_bucket(&mut tree, b"") {
        Err(Error::InvalidBucketName { .. }) => {}
        other => panic!("expected InvalidBucketName, got {other:?}"),
    }
}

#[test]
fn test_create_bucket_if_not_exists() {
    let mut tree = Tree::new();
    assert_eq!(
        thunder::bucket::create_bucket_if_not_exists(&mut tree, b"b").unwrap(),
        true
    );
    assert_eq!(
        thunder::bucket::create_bucket_if_not_exists(&mut tree, b"b").unwrap(),
        false
    );
    assert!(thunder::bucket::bucket_exists(&tree, b"b"));
}

#[test]
fn test_create_nested_bucket_if_not_exists() {
    let mut tree = Tree::new();
    create_bucket(&mut tree, b"parent").unwrap();
    let path = vec![b"parent".to_vec(), b"child".to_vec()];
    assert_eq!(
        thunder::bucket::create_nested_bucket_if_not_exists(&mut tree, &path).unwrap(),
        true
    );
    assert_eq!(
        thunder::bucket::create_nested_bucket_if_not_exists(&mut tree, &path).unwrap(),
        false
    );
}

#[test]
fn test_bucket_mut_put_get_delete() {
    let mut tree = Tree::new();
    create_bucket(&mut tree, b"b").unwrap();
    let bucket = thunder::bucket::BucketMut::new(&tree, b"b").unwrap();
    assert_eq!(bucket.name(), &b"b".to_vec());

    assert_eq!(bucket.put(&mut tree, b"k", b"v1"), None);
    assert_eq!(bucket.get(&tree, b"k"), Some(b"v1".to_vec()));
    assert_eq!(bucket.put(&mut tree, b"k", b"v2"), Some(b"v1".to_vec()));
    assert_eq!(bucket.delete(&mut tree, b"k"), Some(b"v2".to_vec()));
    assert_eq!(bucket.get(&tree, b"k"), None);
}

#[test]
fn test_extract_user_key() {
    let internal = thunder::bucket::bucket_data_key(b"b", b"user");
    assert_eq!(
        thunder::bucket::extract_user_key(b"b", &internal),
        Some(&b"user"[..])
    );
    assert_eq!(thunder::bucket::extract_user_key(b"other", &internal), None);
}

#[test]
fn test_list_buckets() {
    let mut tree = Tree::new();
    create_bucket(&mut tree, b"alpha").unwrap();
    create_bucket(&mut tree, b"beta").unwrap();
    let names = thunder::bucket::list_buckets(&tree);
    assert_eq!(names.len(), 2);
    assert!(names.contains(&b"alpha".to_vec()));
    assert!(names.contains(&b"beta".to_vec()));
}

#[test]
fn test_overflow_empty_value_makes_no_chain() {
    let mut mgr = OverflowManager::new(4096, 1);
    let (oref, pages) = mgr.allocate_overflow(&[]);
    assert_eq!(oref.start_page, 0);
    assert_eq!(oref.total_len, 0);
    assert!(pages.is_empty());
    let store = PageStore::new();
    assert_eq!(mgr.read_overflow(oref, &store), Some(Vec::new()));
}

#[test]
fn test_free_overflow_reclaims_pages() {
    let mut mgr = OverflowManager::new(4096, 1);
    let value = vec![1u8; 10_000];
    let (oref, chain_pages) = mgr.allocate_overflow(&value);
    let n = chain_pages.len();
    let mut store = PageStore::new();
    for (id, data) in chain_pages {
        store.put_page(id, data);
    }
    mgr.free_overflow(oref, &store);
    assert_eq!(mgr.free_pages.len(), n);
}

#[test]
fn test_prepare_entry_shapes() {
    // inline value: length-prefixed key and value
    let (kd, vd, ovf) = thunder::db::prepare_entry(b"key", b"value", 2048);
    assert!(!ovf);
    assert_eq!(&kd[0..4], &3u32.to_le_bytes());
    assert_eq!(&kd[4..], b"key");
    assert_eq!(&vd[0..4], &5u32.to_le_bytes());
    assert_eq!(&vd[4..], b"value");

    // overflow value: sentinel plus a 12-byte placeholder reference
    let big = vec![0u8; 4096];
    let (kd2, vd2, ovf2) = thunder::db::prepare_entry(b"key", &big, 2048);
    assert!(ovf2);
    assert_eq!(kd2.len(), 4 + 3);
    assert_eq!(vd2.len(), 16);
    assert_eq!(&vd2[0..4], &0xFFFF_FFFFu32.to_le_bytes());
    assert_eq!(&vd2[4..], &[0u8; 12]);
}

#[test]
fn test_wal_append_owed_success() {
    // with LSN headroom, appends never fail
    let mut wal = thunder::wal::Wal::new(thunder::wal::WalConfig {
        segment_size: 1 << 20,
        sync_policy: thunder::wal::SyncPolicy::Never,
    });
    for i in 0..100u8 {
        assert!(wal
            .append(&WalRecord::Put {
                key: vec![i],
                value: vec![i; 32],
            })
            .is_ok());
    }
}
