use thunder::bucket::{
    bucket_data_key, bucket_exists, bucket_meta_key, create_bucket, create_nested_bucket,
    delete_bucket, delete_nested_bucket, list_nested_buckets, nested_bucket_data_key,
    nested_bucket_exists, nested_bucket_meta_key, validate_bucket_name,
    validate_nested_bucket_path, BucketRef, NestedBucketRef, MAX_BUCKET_NAME_LEN,
};
use thunder::error::Error;
use thunder::tree::Tree;

#[test]
fn test_validate_bucket_name() {
    assert!(validate_bucket_name(b"").is_err());
    assert!(validate_bucket_name(&vec![b'x'; MAX_BUCKET_NAME_LEN + 1]).is_err());
    assert!(validate_bucket_name(&vec![b'x'; MAX_BUCKET_NAME_LEN]).is_ok());
    assert!(validate_bucket_name(b"test").is_ok());
}

#[test]
fn test_bucket_key_format() {
    let meta_key = bucket_meta_key(b"test");
    assert_eq!(meta_key[0], 0x00); // BUCKET_META_PREFIX
    assert_eq!(meta_key[1], 4); // "test" length
    assert_eq!(&meta_key[2..], b"test");

    let data_key = bucket_data_key(b"mybucket", b"mykey");
    assert_eq!(data_key[0], 0x01); // BUCKET_DATA_PREFIX
    assert_eq!(data_key[1], 8); // "mybucket" length
    assert_eq!(&data_key[2..10], b"mybucket");
    assert_eq!(&data_key[10..], b"mykey");
}

#[test]
fn test_create_delete_bucket() {
    let mut tree = Tree::new();

    assert!(create_bucket(&mut tree, b"test").is_ok());
    assert!(bucket_exists(&tree, b"test"));
    assert!(matches!(
        create_bucket(&mut tree, b"test").unwrap_err(),
        Error::BucketAlreadyExists { .. }
    ));

    assert!(delete_bucket(&mut tree, b"test").is_ok());
    assert!(!bucket_exists(&tree, b"test"));
    assert!(matches!(
        delete_bucket(&mut tree, b"test").unwrap_err(),
        Error::BucketNotFound { .. }
    ));
}

#[test]
fn test_bucket_ref_operations() {
    let mut tree = Tree::new();
    create_bucket(&mut tree, b"test").unwrap();

    let key = bucket_data_key(b"test", b"key");
    tree.insert(key, b"value".to_vec());

    let bucket = BucketRef::new(&tree, b"test").unwrap();
    assert_eq!(bucket.get(b"key"), Some(b"value".to_vec()));
    assert_eq!(bucket.get(b"missing"), None);

    let mut items = Vec::new();
    let mut it = bucket.iter();
    while let Some(pair) = it.next() {
        items.push(pair);
    }
    assert_eq!(items.len(), 1);
    assert_eq!(items[0], (b"key".to_vec(), b"value".to_vec()));
}

#[test]
fn test_bucket_isolation() {
    let mut tree = Tree::new();
    create_bucket(&mut tree, b"bucket1").unwrap();
    create_bucket(&mut tree, b"bucket2").unwrap();

    tree.insert(bucket_data_key(b"bucket1", b"key"), b"value1".to_vec());
    tree.insert(bucket_data_key(b"bucket2", b"key"), b"value2".to_vec());

    let b1 = BucketRef::new(&tree, b"bucket1").unwrap();
    let b2 = BucketRef::new(&tree, b"bucket2").unwrap();

    assert_eq!(b1.get(b"key"), Some(b"value1".to_vec()));
    assert_eq!(b2.get(b"key"), Some(b"value2".to_vec()));

    let mut count1 = 0;
    let mut it1 = b1.iter();
    while it1.next().is_some() {
        count1 += 1;
    }
    let mut count2 = 0;
    let mut it2 = b2.iter();
    while it2.next().is_some() {
        count2 += 1;
    }
    assert_eq!(count1, 1);
    assert_eq!(count2, 1);
}

// ==================== Nested Bucket Tests ====================

#[test]
fn test_nested_bucket_key_format() {
    let path = vec![b"parent".to_vec(), b"child".to_vec()];
    let meta_key = nested_bucket_meta_key(&path);

    assert_eq!(meta_key[0], 0x02); // NESTED_BUCKET_META_PREFIX
    assert_eq!(meta_key[1], 2); // 2 path components
    assert_eq!(meta_key[2], 6); // "parent" length
    assert_eq!(&meta_key[3..9], b"parent");
    assert_eq!(meta_key[9], 5); // "child" length
    assert_eq!(&meta_key[10..], b"child");

    let data_key = nested_bucket_data_key(&path, b"mykey");
    assert_eq!(data_key[0], 0x03); // NESTED_BUCKET_DATA_PREFIX
    assert_eq!(data_key[1], 2); // 2 path components
    assert_eq!(&data_key[data_key.len() - 5..], b"mykey");
}

#[test]
fn test_nested_bucket_create_delete() {
    let mut tree = Tree::new();
    create_bucket(&mut tree, b"parent").unwrap();

    let path = vec![b"parent".to_vec(), b"child".to_vec()];

    // Create nested bucket.
    assert!(create_nested_bucket(&mut tree, &path).is_ok());
    assert!(nested_bucket_exists(&tree, &path));

    // Duplicate should fail.
    assert!(matches!(
        create_nested_bucket(&mut tree, &path).unwrap_err(),
        Error::BucketAlreadyExists { .. }
    ));

    // Delete nested bucket.
    assert!(delete_nested_bucket(&mut tree, &path).is_ok());
    assert!(!nested_bucket_exists(&tree, &path));

    // Delete non-existent should fail.
    assert!(matches!(
        delete_nested_bucket(&mut tree, &path).unwrap_err(),
        Error::BucketNotFound { .. }
    ));
}

#[test]
fn test_nested_bucket_requires_parent() {
    let mut tree = Tree::new();

    let path = vec![b"nonexistent".to_vec(), b"child".to_vec()];
    assert!(matches!(
        create_nested_bucket(&mut tree, &path).unwrap_err(),
        Error::BucketNotFound { .. }
    ));
}

#[test]
fn test_nested_bucket_ref_operations() {
    let mut tree = Tree::new();
    create_bucket(&mut tree, b"parent").unwrap();

    let path = vec![b"parent".to_vec(), b"child".to_vec()];
    create_nested_bucket(&mut tree, &path).unwrap();

    let key = nested_bucket_data_key(&path, b"key");
    tree.insert(key, b"value".to_vec());

    let bucket = NestedBucketRef::new(&tree, &path).unwrap();
    assert_eq!(bucket.get(b"key"), Some(b"value".to_vec()));
    assert_eq!(bucket.get(b"missing"), None);

    let mut items = Vec::new();
    let mut it = bucket.iter();
    while let Some(pair) = it.next() {
        items.push(pair);
    }
    assert_eq!(items.len(), 1);
    assert_eq!(items[0], (b"key".to_vec(), b"value".to_vec()));
}

#[test]
fn test_nested_bucket_isolation() {
    let mut tree = Tree::new();
    create_bucket(&mut tree, b"parent").unwrap();

    let path1 = vec![b"parent".to_vec(), b"child1".to_vec()];
    let path2 = vec![b"parent".to_vec(), b"child2".to_vec()];

    create_nested_bucket(&mut tree, &path1).unwrap();
    create_nested_bucket(&mut tree, &path2).unwrap();

    tree.insert(nested_bucket_data_key(&path1, b"key"), b"value1".to_vec());
    tree.insert(nested_bucket_data_key(&path2, b"key"), b"value2".to_vec());

    let b1 = NestedBucketRef::new(&tree, &path1).unwrap();
    let b2 = NestedBucketRef::new(&tree, &path2).unwrap();

    assert_eq!(b1.get(b"key"), Some(b"value1".to_vec()));
    assert_eq!(b2.get(b"key"), Some(b"value2".to_vec()));

    let mut count1 = 0;
    let mut it1 = b1.iter();
    while it1.next().is_some() {
        count1 += 1;
    }
    let mut count2 = 0;
    let mut it2 = b2.iter();
    while it2.next().is_some() {
        count2 += 1;
    }
    assert_eq!(count1, 1);
    assert_eq!(count2, 1);
}

#[test]
fn test_list_nested_buckets() {
    let mut tree = Tree::new();
    create_bucket(&mut tree, b"parent").unwrap();

    let path1 = vec![b"parent".to_vec(), b"alpha".to_vec()];
    let path2 = vec![b"parent".to_vec(), b"beta".to_vec()];
    let path3 = vec![b"parent".to_vec(), b"gamma".to_vec()];

    create_nested_bucket(&mut tree, &path1).unwrap();
    create_nested_bucket(&mut tree, &path2).unwrap();
    create_nested_bucket(&mut tree, &path3).unwrap();

    let children = list_nested_buckets(&tree, &[b"parent".to_vec()]);
    assert_eq!(children.len(), 3);
    assert!(children.contains(&b"alpha".to_vec()));
    assert!(children.contains(&b"beta".to_vec()));
    assert!(children.contains(&b"gamma".to_vec()));
}

#[test]
fn test_deep_nested_bucket() {
    let mut tree = Tree::new();
    create_bucket(&mut tree, b"root").unwrap();

    // Create root -> level1
    let path1 = vec![b"root".to_vec(), b"level1".to_vec()];
    create_nested_bucket(&mut tree, &path1).unwrap();

    // Create root -> level1 -> level2
    let path2 = vec![b"root".to_vec(), b"level1".to_vec(), b"level2".to_vec()];
    create_nested_bucket(&mut tree, &path2).unwrap();

    assert!(nested_bucket_exists(&tree, &path1));
    assert!(nested_bucket_exists(&tree, &path2));

    // Add data at level2.
    let key = nested_bucket_data_key(&path2, b"deep_key");
    tree.insert(key, b"deep_value".to_vec());

    let bucket = NestedBucketRef::new(&tree, &path2).unwrap();
    assert_eq!(bucket.get(b"deep_key"), Some(b"deep_value".to_vec()));
}

#[test]
fn test_validate_nested_bucket_path() {
    // Empty path.
    assert!(validate_nested_bucket_path(&[]).is_err());

    // Single component (must have at least parent + child).
    let single = vec![b"only".to_vec()];
    assert!(validate_nested_bucket_path(&single).is_ok());

    // Empty component.
    let empty = vec![b"parent".to_vec(), b"".to_vec()];
    assert!(validate_nested_bucket_path(&empty).is_err());

    // Valid path.
    let valid = vec![b"a".to_vec(), b"b".to_vec(), b"c".to_vec()];
    assert!(validate_nested_bucket_path(&valid).is_ok());
}
