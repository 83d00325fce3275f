use thunder::crc::crc32_checksum;
use thunder::wal_record::{RecordType, WalRecord, RECORD_HEADER_SIZE};

#[test]
fn test_record_type_roundtrip() {
    for t in [
        RecordType::Put,
        RecordType::Delete,
        RecordType::TxBegin,
        RecordType::TxCommit,
        RecordType::TxAbort,
        RecordType::Checkpoint,
    ] {
        let byte = t.code();
        let restored = RecordType::from_u8(byte).expect("should restore");
        assert_eq!(t, restored);
    }
}

#[test]
fn test_invalid_record_type() {
    assert!(RecordType::from_u8(0).is_none());
    assert!(RecordType::from_u8(7).is_none());
    assert!(RecordType::from_u8(255).is_none());
}

#[test]
fn test_put_record_roundtrip() {
    let record = WalRecord::Put {
        key: b"test_key".to_vec(),
        value: b"test_value".to_vec(),
    };

    let encoded = record.encode();
    let (decoded, consumed) = WalRecord::decode(&encoded).expect("decode");

    assert_eq!(consumed, encoded.len());
    assert_eq!(record, decoded);
}

#[test]
fn test_delete_record_roundtrip() {
    let record = WalRecord::Delete {
        key: b"deleted_key".to_vec(),
    };

    let encoded = record.encode();
    let (decoded, _) = WalRecord::decode(&encoded).expect("decode");
    assert_eq!(record, decoded);
}

#[test]
fn test_tx_records_roundtrip() {
    for record in [
        WalRecord::TxBegin { txid: 12345 },
        WalRecord::TxCommit { txid: 67890 },
        WalRecord::TxAbort { txid: 11111 },
    ] {
        let encoded = record.encode();
        let (decoded, _) = WalRecord::decode(&encoded).expect("decode");
        assert_eq!(record, decoded);
    }
}

#[test]
fn test_checkpoint_record_roundtrip() {
    let record = WalRecord::Checkpoint {
        lsn: 0x1234_5678_9ABC_DEF0,
    };

    let encoded = record.encode();
    let (decoded, _) = WalRecord::decode(&encoded).expect("decode");
    assert_eq!(record, decoded);
}

#[test]
fn test_crc_corruption_detected() {
    let record = WalRecord::Put {
        key: b"key".to_vec(),
        value: b"value".to_vec(),
    };

    let mut encoded = record.encode();

    // Corrupt a byte in the payload
    let corrupt_idx = RECORD_HEADER_SIZE + 2;
    if corrupt_idx < encoded.len() {
        encoded[corrupt_idx] ^= 0xFF;
    }

    let result = WalRecord::decode(&encoded);
    assert!(result.is_err(), "corrupted record should fail");
}

#[test]
fn test_truncated_buffer_rejected() {
    let record = WalRecord::Put {
        key: b"key".to_vec(),
        value: b"value".to_vec(),
    };

    let encoded = record.encode();

    // Test various truncation points
    for len in 0..RECORD_HEADER_SIZE {
        let result = WalRecord::decode(&encoded[..len]);
        assert!(result.is_err(), "truncated at {len} should fail");
    }
}

#[test]
fn test_large_record() {
    let record = WalRecord::Put {
        key: vec![0xAA; 1024],
        value: vec![0xBB; 65536],
    };

    let encoded = record.encode();
    let (decoded, _) = WalRecord::decode(&encoded).expect("decode large record");

    if let (WalRecord::Put { key: k1, value: v1 }, WalRecord::Put { key: k2, value: v2 }) =
        (&record, &decoded)
    {
        assert_eq!(k1, k2);
        assert_eq!(v1, v2);
    } else {
        panic!("type mismatch");
    }
}

#[test]
fn test_empty_key_value() {
    let record = WalRecord::Put {
        key: vec![],
        value: vec![],
    };

    let encoded = record.encode();
    let (decoded, _) = WalRecord::decode(&encoded).expect("decode empty");
    assert_eq!(record, decoded);
}

#[test]
fn test_crc32_consistency() {
    // Known test vector
    let data = b"123456789";
    let crc = crc32_checksum(data);
    // Standard CRC32 (IEEE) of "123456789" is 0xCBF43926
    assert_eq!(crc, 0xCBF4_3926);
}
