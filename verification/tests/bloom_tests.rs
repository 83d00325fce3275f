use thunder::bloom::BloomFilter;

#[test]
fn test_bloom_filter_basic() {
    // Sized for 1000 items at the default 1% false-positive rate.
    let mut filter = BloomFilter::with_capacity(1000);

    // Insert keys
    filter.insert(b"hello");
    filter.insert(b"world");
    filter.insert(b"test");

    // Should definitely contain inserted keys
    assert!(filter.may_contain(b"hello"));
    assert!(filter.may_contain(b"world"));
    assert!(filter.may_contain(b"test"));

    // Likely doesn't contain (might have false positives)
    // But with only 3 items in a 1000-item filter, false positives are rare
    assert!(!filter.may_contain(b"not_inserted"));
    assert!(!filter.may_contain(b"another_key"));
}

#[test]
fn test_bloom_filter_no_false_negatives() {
    let mut filter = BloomFilter::with_capacity(10000);

    // Insert 10000 unique keys
    for i in 0..10000u32 {
        let key = format!("key_{i:06}");
        filter.insert(key.as_bytes());
    }

    // ALL inserted keys must be found (no false negatives)
    for i in 0..10000u32 {
        let key = format!("key_{i:06}");
        assert!(
            filter.may_contain(key.as_bytes()),
            "key {key} must be found"
        );
    }
}

#[test]
fn test_bloom_filter_false_positive_rate() {
    let num_items = 10000;
    let target_fp_rate = 0.01;
    let mut filter = BloomFilter::with_capacity(num_items);

    // Insert items
    for i in 0..num_items {
        let key = format!("existing_{i:06}");
        filter.insert(key.as_bytes());
    }

    // Test false positive rate with non-existent keys
    let test_count = 100000;
    let mut false_positives = 0;

    for i in 0..test_count {
        let key = format!("nonexistent_{i:08}");
        if filter.may_contain(key.as_bytes()) {
            false_positives += 1;
        }
    }

    let actual_fp_rate = false_positives as f64 / test_count as f64;

    // Allow 3x target rate (bloom filters can vary)
    assert!(
        actual_fp_rate < target_fp_rate * 3.0,
        "false positive rate {actual_fp_rate:.4} is too high (target: {target_fp_rate})"
    );
}

#[test]
fn test_bloom_filter_serialization() {
    let mut filter = BloomFilter::with_capacity(1000);

    for i in 0..100 {
        filter.insert(format!("key_{i}").as_bytes());
    }

    // Serialize
    let bytes = filter.to_bytes();

    // Deserialize
    let restored = BloomFilter::from_bytes(&bytes).expect("deserialization should succeed");

    // Verify restored filter works the same
    for i in 0..100 {
        assert!(restored.may_contain(format!("key_{i}").as_bytes()));
    }

    assert_eq!(filter.num_bits, restored.num_bits);
    assert_eq!(filter.num_hashes, restored.num_hashes);
    assert_eq!(filter.item_count, restored.item_count);
}

#[test]
fn test_bloom_filter_clear() {
    let mut filter = BloomFilter::with_capacity(100);

    filter.insert(b"key1");
    filter.insert(b"key2");
    assert!(filter.may_contain(b"key1"));

    filter.clear();

    assert!(!filter.may_contain(b"key1"));
    assert!(!filter.may_contain(b"key2"));
    assert_eq!(filter.item_count(), 0);
}

#[test]
fn test_bloom_filter_deserialization_invalid() {
    // Too short
    assert!(BloomFilter::from_bytes(&[0, 0, 0]).is_none());

    // Invalid num_bits (0)
    assert!(BloomFilter::from_bytes(&[0, 0, 0, 0, 1, 0, 0, 0, 0, 0, 0, 0, 0]).is_none());

    // Invalid num_hashes (0)
    assert!(BloomFilter::from_bytes(&[64, 0, 0, 0, 0, 0, 0, 0, 0, 0, 0, 0, 0]).is_none());
}
