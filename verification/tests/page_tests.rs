use thunder::page::{PageId, PageType, MAGIC, PAGE_SIZE, VERSION};

#[test]
fn test_page_size_is_4kb() {
    assert_eq!(PAGE_SIZE, 4096);
}

#[test]
fn test_page_size_is_power_of_two() {
    assert!(PAGE_SIZE.is_power_of_two());
}

#[test]
fn test_magic_number_value() {
    // "THND" in little-endian.
    assert_eq!(MAGIC, 0x54_48_4E_44);
}

#[test]
fn test_magic_number_as_bytes() {
    let bytes = MAGIC.to_be_bytes();
    assert_eq!(&bytes, b"THND");
}

#[test]
fn test_version_is_one() {
    assert_eq!(VERSION, 1);
}

#[test]
fn test_page_type_values() {
    assert_eq!(PageType::Meta.code(), 1);
    assert_eq!(PageType::Freelist.code(), 2);
    assert_eq!(PageType::Branch.code(), 3);
    assert_eq!(PageType::Leaf.code(), 4);
}

#[test]
fn test_page_type_debug() {
    let meta = PageType::Meta;
    assert_eq!(format!("{meta:?}"), "Meta");
}

#[test]
fn test_page_type_equality() {
    assert_eq!(PageType::Meta, PageType::Meta);
    assert_ne!(PageType::Meta, PageType::Leaf);
}

#[test]
fn test_page_type_clone() {
    let original = PageType::Branch;
    let cloned = original;
    assert_eq!(original, cloned);
}

#[test]
fn test_page_id_type() {
    let page_id: PageId = 12345;
    assert_eq!(page_id, 12345u64);
}

#[test]
fn test_page_id_max() {
    let max_page_id: PageId = u64::MAX;
    assert_eq!(max_page_id, u64::MAX);
}
