use thunder::crc::crc32_checksum;
use thunder::overflow::{OverflowHeader, OverflowManager, OverflowRef};

#[test]
fn test_overflow_header_roundtrip() {
    let header = OverflowHeader::new(42, 1024, 0xDEADBEEF);
    let bytes = header.to_bytes();
    let recovered = OverflowHeader::from_bytes(&bytes).expect("should parse");

    assert_eq!(recovered.page_type, 5);
    assert_eq!(recovered.next_page, 42);
    assert_eq!(recovered.data_len, 1024);
    assert_eq!(recovered.checksum, 0xDEADBEEF);
}

#[test]
fn test_overflow_ref_roundtrip() {
    let oref = OverflowRef::new(100, 50000);
    let bytes = oref.to_bytes();
    let recovered = OverflowRef::from_bytes(&bytes).expect("should parse");

    assert_eq!(recovered.start_page, 100);
    assert_eq!(recovered.total_len, 50000);
}

#[test]
fn test_overflow_manager_allocation() {
    let mut mgr = OverflowManager::new(4096, 10);

    // Allocate space for a 10KB value (3 pages needed)
    let value = vec![0xABu8; 10 * 1024];
    let (oref, pages) = mgr.allocate_overflow(&value);

    assert_eq!(oref.total_len, 10 * 1024);
    assert_eq!(oref.start_page, 10);
    assert_eq!(pages.len(), 3); // 10KB needs 3 pages with 4KB page size

    // Verify chain linkage
    let header0 = OverflowHeader::from_bytes(&pages[0].1).unwrap();
    let header1 = OverflowHeader::from_bytes(&pages[1].1).unwrap();
    let header2 = OverflowHeader::from_bytes(&pages[2].1).unwrap();

    assert_eq!(header0.next_page, pages[1].0);
    assert_eq!(header1.next_page, pages[2].0);
    assert_eq!(header2.next_page, 0); // End of chain
}

#[test]
fn test_checksum_computation() {
    let data = b"Hello, World!";
    let checksum1 = crc32_checksum(data);
    let checksum2 = crc32_checksum(data);

    assert_eq!(checksum1, checksum2);

    // Different data should have different checksum
    let other_data = b"Hello, World?";
    let checksum3 = crc32_checksum(other_data);
    assert_ne!(checksum1, checksum3);
}

#[test]
fn test_should_overflow() {
    assert!(!OverflowManager::should_overflow(1024, 2048));
    assert!(!OverflowManager::should_overflow(2048, 2048));
    assert!(OverflowManager::should_overflow(2049, 2048));
    assert!(OverflowManager::should_overflow(10000, 2048));
}
