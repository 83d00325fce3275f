//! WAL record types and serialization with CRC32 checksums.
//!
//! Record layout: `[total_len: u32][type: u8][crc32: u32][payload...]`,
//! all integers little-endian; the CRC covers the type byte and payload.

use vstd::prelude::*;

use crate::crc::crc32_of;
use crate::crc::crc32_checksum;
use crate::error::Error;
use vstd::bytes::spec_u32_from_le_bytes;
use vstd::bytes::spec_u32_to_le_bytes;
use vstd::bytes::spec_u64_from_le_bytes;
use vstd::bytes::spec_u64_to_le_bytes;

verus! {

/// Size of the record header: length (4), type (1), crc32 (4).
pub const RECORD_HEADER_SIZE: usize = 9;

/// Maximum allowed record payload size (64MB); guards against
/// corruption-induced oversized reads.
pub const MAX_RECORD_PAYLOAD: usize = 64 * 1024 * 1024;

/// Maximum key size (64KB).
pub const MAX_KEY_SIZE: usize = 64 * 1024;

/// WAL record types.
#[derive(Debug, Clone, Copy, PartialEq, Eq, Structural)]
pub enum RecordType {
    Put,
    Delete,
    TxBegin,
    TxCommit,
    TxAbort,
    Checkpoint,
}

impl RecordType {
    /// The on-disk code of this record type.
    pub open spec fn code_spec(self) -> u8 {
        match self {
            RecordType::Put => 1,
            RecordType::Delete => 2,
            RecordType::TxBegin => 3,
            RecordType::TxCommit => 4,
            RecordType::TxAbort => 5,
            RecordType::Checkpoint => 6,
        }
    }

    /// The on-disk code of this record type.
    pub fn code(self) -> (r: u8)
        ensures
            r == self.code_spec(),
    {
        match self {
            RecordType::Put => 1,
            RecordType::Delete => 2,
            RecordType::TxBegin => 3,
            RecordType::TxCommit => 4,
            RecordType::TxAbort => 5,
            RecordType::Checkpoint => 6,
        }
    }

    /// The record type denoted by a code, if any.
    pub open spec fn from_u8_spec(v: u8) -> Option<RecordType> {
        if v == 1 {
            Some(RecordType::Put)
        } else if v == 2 {
            Some(RecordType::Delete)
        } else if v == 3 {
            Some(RecordType::TxBegin)
        } else if v == 4 {
            Some(RecordType::TxCommit)
        } else if v == 5 {
            Some(RecordType::TxAbort)
        } else if v == 6 {
            Some(RecordType::Checkpoint)
        } else {
            None
        }
    }

    /// Converts a byte to a record type.
    pub fn from_u8(v: u8) -> (r: Option<RecordType>)
        ensures
            r == Self::from_u8_spec(v),
    {
        match v {
            1 => Some(RecordType::Put),
            2 => Some(RecordType::Delete),
            3 => Some(RecordType::TxBegin),
            4 => Some(RecordType::TxCommit),
            5 => Some(RecordType::TxAbort),
            6 => Some(RecordType::Checkpoint),
            _ => None,
        }
    }
}

/// WAL record representing a single database operation.
#[derive(Debug, Clone, PartialEq, Eq)]
pub enum WalRecord {
    /// Insert or update a key-value pair.
    Put { key: Vec<u8>, value: Vec<u8> },
    /// Delete a key.
    Delete { key: Vec<u8> },
    /// Begin a transaction.
    TxBegin { txid: u64 },
    /// Commit a transaction (makes its changes durable).
    TxCommit { txid: u64 },
    /// Abort a transaction (discard its changes).
    TxAbort { txid: u64 },
    /// Checkpoint marker with LSN.
    Checkpoint { lsn: u64 },
}

/// The mathematical view of a WAL record.
pub enum RecordView {
    Put { key: Seq<u8>, value: Seq<u8> },
    Delete { key: Seq<u8> },
    TxBegin { txid: u64 },
    TxCommit { txid: u64 },
    TxAbort { txid: u64 },
    Checkpoint { lsn: u64 },
}

impl View for WalRecord {
    type V = RecordView;

    open spec fn view(&self) -> RecordView {
        match self {
            WalRecord::Put { key, value } => RecordView::Put { key: key@, value: value@ },
            WalRecord::Delete { key } => RecordView::Delete { key: key@ },
            WalRecord::TxBegin { txid } => RecordView::TxBegin { txid: *txid },
            WalRecord::TxCommit { txid } => RecordView::TxCommit { txid: *txid },
            WalRecord::TxAbort { txid } => RecordView::TxAbort { txid: *txid },
            WalRecord::Checkpoint { lsn } => RecordView::Checkpoint { lsn: *lsn },
        }
    }
}

/// The type code of a record.
pub open spec fn record_type_spec(rec: RecordView) -> u8 {
    match rec {
        RecordView::Put { .. } => 1,
        RecordView::Delete { .. } => 2,
        RecordView::TxBegin { .. } => 3,
        RecordView::TxCommit { .. } => 4,
        RecordView::TxAbort { .. } => 5,
        RecordView::Checkpoint { .. } => 6,
    }
}

/// The payload bytes of a record (everything after the header).
pub open spec fn payload_spec(rec: RecordView) -> Seq<u8> {
    match rec {
        RecordView::Put { key, value } => spec_u32_to_le_bytes(key.len() as u32) + key
            + spec_u32_to_le_bytes(value.len() as u32) + value,
        RecordView::Delete { key } => spec_u32_to_le_bytes(key.len() as u32) + key,
        RecordView::TxBegin { txid } => spec_u64_to_le_bytes(txid),
        RecordView::TxCommit { txid } => spec_u64_to_le_bytes(txid),
        RecordView::TxAbort { txid } => spec_u64_to_le_bytes(txid),
        RecordView::Checkpoint { lsn } => spec_u64_to_le_bytes(lsn),
    }
}

/// Size limits under which a record can be encoded faithfully.
pub open spec fn record_valid(rec: RecordView) -> bool {
    match rec {
        RecordView::Put { key, value } => key.len() <= MAX_KEY_SIZE
            && value.len() <= 512 * 1024 * 1024,
        RecordView::Delete { key } => key.len() <= MAX_KEY_SIZE,
        _ => true,
    }
}

/// Size limits under which an encoded record also decodes: the decoder
/// additionally rejects payloads over `MAX_RECORD_PAYLOAD`.
pub open spec fn record_replayable(rec: RecordView) -> bool {
    record_valid(rec) && payload_spec(rec).len() <= MAX_RECORD_PAYLOAD
}

/// The full encoding of a record: header plus payload.
pub open spec fn encode_spec(rec: RecordView) -> Seq<u8> {
    let payload = payload_spec(rec);
    let t = record_type_spec(rec);
    spec_u32_to_le_bytes((RECORD_HEADER_SIZE + payload.len()) as u32) + seq![t]
        + spec_u32_to_le_bytes(crc32_of(seq![t] + payload)) + payload
}

/// What a well-formed record prefix of `data` decodes to, and how many
/// bytes it occupies; `None` when `data` does not start with a well-formed
/// record.
pub open spec fn decode_spec(data: Seq<u8>) -> Option<(RecordView, int)> {
    if data.len() < RECORD_HEADER_SIZE {
        None
    } else {
        let total = spec_u32_from_le_bytes(data.subrange(0, 4)) as int;
        let t = data[4];
        let stored_crc = spec_u32_from_le_bytes(data.subrange(5, 9));
        if total < RECORD_HEADER_SIZE {
            None
        } else if total > data.len() {
            None
        } else if total - RECORD_HEADER_SIZE > MAX_RECORD_PAYLOAD {
            None
        } else if RecordType::from_u8_spec(t) is None {
            None
        } else {
            let payload = data.subrange(RECORD_HEADER_SIZE as int, total);
            if crc32_of(seq![t] + payload) != stored_crc {
                None
            } else {
                match decode_payload_spec(t, payload) {
                    Some(rec) => Some((rec, total)),
                    None => None,
                }
            }
        }
    }
}

/// What a payload of the given type decodes to, if well-formed.
pub open spec fn decode_payload_spec(t: u8, payload: Seq<u8>) -> Option<RecordView> {
    if t == 1 {
        if payload.len() < 8 {
            None
        } else {
            let key_len = spec_u32_from_le_bytes(payload.subrange(0, 4)) as int;
            if key_len > MAX_KEY_SIZE {
                None
            } else if payload.len() < 4 + key_len + 4 {
                None
            } else {
                let key = payload.subrange(4, 4 + key_len);
                let value_len = spec_u32_from_le_bytes(
                    payload.subrange(4 + key_len, 8 + key_len),
                ) as int;
                if payload.len() < 8 + key_len + value_len {
                    None
                } else {
                    let value = payload.subrange(8 + key_len, 8 + key_len + value_len);
                    Some(RecordView::Put { key, value })
                }
            }
        }
    } else if t == 2 {
        if payload.len() < 4 {
            None
        } else {
            let key_len = spec_u32_from_le_bytes(payload.subrange(0, 4)) as int;
            if key_len > MAX_KEY_SIZE {
                None
            } else if payload.len() < 4 + key_len {
                None
            } else {
                Some(RecordView::Delete { key: payload.subrange(4, 4 + key_len) })
            }
        }
    } else if t == 3 || t == 4 || t == 5 || t == 6 {
        if payload.len() < 8 {
            None
        } else {
            let n = spec_u64_from_le_bytes(payload.subrange(0, 8));
            if t == 3 {
                Some(RecordView::TxBegin { txid: n })
            } else if t == 4 {
                Some(RecordView::TxCommit { txid: n })
            } else if t == 5 {
                Some(RecordView::TxAbort { txid: n })
            } else {
                Some(RecordView::Checkpoint { lsn: n })
            }
        }
    } else {
        None
    }
}

impl WalRecord {
    /// Returns the record type byte for this record.
    pub fn record_type(&self) -> (r: u8)
        ensures
            r == record_type_spec(self@),
    {
        match self {
            WalRecord::Put { .. } => 1,
            WalRecord::Delete { .. } => 2,
            WalRecord::TxBegin { .. } => 3,
            WalRecord::TxCommit { .. } => 4,
            WalRecord::TxAbort { .. } => 5,
            WalRecord::Checkpoint { .. } => 6,
        }
    }

    /// Encodes the payload (everything after the header).
    fn encode_payload(&self) -> (r: Vec<u8>)
        requires
            record_valid(self@),
        ensures
            r@ =~= payload_spec(self@),
    {
        match self {
            WalRecord::Put { key, value } => {
                let mut buf = vstd::bytes::u32_to_le_bytes(key.len() as u32);
                let mut key_copy = crate::bytes::clone_bytes(key);
                buf.append(&mut key_copy);
                let mut vlen = vstd::bytes::u32_to_le_bytes(value.len() as u32);
                buf.append(&mut vlen);
                let mut value_copy = crate::bytes::clone_bytes(value);
                buf.append(&mut value_copy);
                buf
            }
            WalRecord::Delete { key } => {
                let mut buf = vstd::bytes::u32_to_le_bytes(key.len() as u32);
                let mut key_copy = crate::bytes::clone_bytes(key);
                buf.append(&mut key_copy);
                buf
            }
            WalRecord::TxBegin { txid } => vstd::bytes::u64_to_le_bytes(*txid),
            WalRecord::TxCommit { txid } => vstd::bytes::u64_to_le_bytes(*txid),
            WalRecord::TxAbort { txid } => vstd::bytes::u64_to_le_bytes(*txid),
            WalRecord::Checkpoint { lsn } => vstd::bytes::u64_to_le_bytes(*lsn),
        }
    }

    /// Encodes the record to bytes with a CRC32 checksum over type and
    /// payload.
    pub fn encode(&self) -> (r: Vec<u8>)
        requires
            record_valid(self@),
        ensures
            r@ =~= encode_spec(self@),
            r@.len() == RECORD_HEADER_SIZE + payload_spec(self@).len(),
    {
        let payload = self.encode_payload();
        let record_type = self.record_type();
        proof {
            vstd::bytes::lemma_auto_spec_u32_to_from_le_bytes();
            vstd::bytes::lemma_auto_spec_u64_to_from_le_bytes();
            assert(payload@.len() <= 8 + MAX_KEY_SIZE + 512 * 1024 * 1024);
        }

        let total_len = RECORD_HEADER_SIZE + payload.len();

        let mut checksum_data: Vec<u8> = Vec::new();
        checksum_data.push(record_type);
        let mut payload_copy = crate::bytes::clone_bytes(&payload);
        checksum_data.append(&mut payload_copy);
        proof {
            assert(checksum_data@ =~= seq![record_type_spec(self@)] + payload_spec(self@));
        }
        let crc = crc32_checksum(checksum_data.as_slice());

        let mut result = vstd::bytes::u32_to_le_bytes(total_len as u32);
        result.push(record_type);
        let mut crc_bytes = vstd::bytes::u32_to_le_bytes(crc);
        result.append(&mut crc_bytes);
        let mut payload_owned = payload;
        result.append(&mut payload_owned);
        proof {
            assert(result@ =~= encode_spec(self@));
        }
        result
    }

    /// Decodes a record from the front of `data`, validating its CRC32;
    /// returns the record and the number of bytes it occupies.
    pub fn decode(data: &[u8]) -> (r: Result<(WalRecord, usize), Error>)
        ensures
            match r {
                Ok((rec, n)) => decode_spec(data@) == Some((rec@, n as int)),
                Err(e) => decode_spec(data@) is None && e is WalRecordInvalid,
            },
    {
        if data.len() < RECORD_HEADER_SIZE {
            return Err(Error::WalRecordInvalid {
                lsn: 0,
                reason: "buffer too small for record header".to_owned(),
            });
        }

        let total_len = vstd::bytes::u32_from_le_bytes(
            vstd::slice::slice_subrange(data, 0, 4),
        ) as usize;
        let record_type = *vstd::slice::slice_index_get(data, 4);
        let stored_crc = vstd::bytes::u32_from_le_bytes(vstd::slice::slice_subrange(data, 5, 9));

        if total_len < RECORD_HEADER_SIZE {
            return Err(Error::WalRecordInvalid {
                lsn: 0,
                reason: "invalid record length".to_owned(),
            });
        }
        if total_len > data.len() {
            return Err(Error::WalRecordInvalid {
                lsn: 0,
                reason: "record length exceeds buffer size".to_owned(),
            });
        }
        let payload_len = total_len - RECORD_HEADER_SIZE;
        if payload_len > MAX_RECORD_PAYLOAD {
            return Err(Error::WalRecordInvalid {
                lsn: 0,
                reason: "payload size exceeds maximum".to_owned(),
            });
        }
        if RecordType::from_u8(record_type).is_none() {
            return Err(Error::WalRecordInvalid {
                lsn: 0,
                reason: "invalid record type".to_owned(),
            });
        }

        let payload = vstd::slice::slice_subrange(data, RECORD_HEADER_SIZE, total_len);

        let mut checksum_data: Vec<u8> = Vec::new();
        checksum_data.push(record_type);
        let mut payload_copy = vstd::slice::slice_to_vec(payload);
        checksum_data.append(&mut payload_copy);
        proof {
            assert(checksum_data@ =~= seq![data@[4]]
                + data@.subrange(RECORD_HEADER_SIZE as int, total_len as int));
        }
        let computed_crc = crc32_checksum(checksum_data.as_slice());

        if computed_crc != stored_crc {
            return Err(Error::WalRecordInvalid {
                lsn: 0,
                reason: "CRC mismatch".to_owned(),
            });
        }

        match Self::decode_payload(record_type, payload) {
            Ok(record) => Ok((record, total_len)),
            Err(e) => Err(e),
        }
    }

    /// Decodes a payload of a known type.
    fn decode_payload(record_type: u8, payload: &[u8]) -> (r: Result<WalRecord, Error>)
        requires
            RecordType::from_u8_spec(record_type) is Some,
        ensures
            match r {
                Ok(rec) => decode_payload_spec(record_type, payload@) == Some(rec@),
                Err(e) => decode_payload_spec(record_type, payload@) is None
                    && e is WalRecordInvalid,
            },
    {
        if record_type == 1 {
            if payload.len() < 8 {
                return Err(Error::WalRecordInvalid {
                    lsn: 0,
                    reason: "Put payload too small".to_owned(),
                });
            }
            let key_len = vstd::bytes::u32_from_le_bytes(
                vstd::slice::slice_subrange(payload, 0, 4),
            ) as usize;
            if key_len > MAX_KEY_SIZE {
                return Err(Error::WalRecordInvalid {
                    lsn: 0,
                    reason: "key size exceeds maximum".to_owned(),
                });
            }
            if payload.len() < 4 + key_len + 4 {
                return Err(Error::WalRecordInvalid {
                    lsn: 0,
                    reason: "Put payload truncated".to_owned(),
                });
            }
            let key = vstd::slice::slice_to_vec(
                vstd::slice::slice_subrange(payload, 4, 4 + key_len),
            );
            let value_offset = 4 + key_len;
            let value_len = vstd::bytes::u32_from_le_bytes(
                vstd::slice::slice_subrange(payload, value_offset, value_offset + 4),
            ) as usize;
            if value_len > payload.len() - (value_offset + 4) {
                return Err(Error::WalRecordInvalid {
                    lsn: 0,
                    reason: "Put value truncated".to_owned(),
                });
            }
            let value = vstd::slice::slice_to_vec(
                vstd::slice::slice_subrange(
                    payload,
                    value_offset + 4,
                    value_offset + 4 + value_len,
                ),
            );
            Ok(WalRecord::Put { key, value })
        } else if record_type == 2 {
            if payload.len() < 4 {
                return Err(Error::WalRecordInvalid {
                    lsn: 0,
                    reason: "Delete payload too small".to_owned(),
                });
            }
            let key_len = vstd::bytes::u32_from_le_bytes(
                vstd::slice::slice_subrange(payload, 0, 4),
            ) as usize;
            if key_len > MAX_KEY_SIZE {
                return Err(Error::WalRecordInvalid {
                    lsn: 0,
                    reason: "key size exceeds maximum".to_owned(),
                });
            }
            if payload.len() < 4 + key_len {
                return Err(Error::WalRecordInvalid {
                    lsn: 0,
                    reason: "Delete key truncated".to_owned(),
                });
            }
            let key = vstd::slice::slice_to_vec(
                vstd::slice::slice_subrange(payload, 4, 4 + key_len),
            );
            Ok(WalRecord::Delete { key })
        } else {
            if payload.len() < 8 {
                return Err(Error::WalRecordInvalid {
                    lsn: 0,
                    reason: "payload too small".to_owned(),
                });
            }
            let n = vstd::bytes::u64_from_le_bytes(vstd::slice::slice_subrange(payload, 0, 8));
            if record_type == 3 {
                Ok(WalRecord::TxBegin { txid: n })
            } else if record_type == 4 {
                Ok(WalRecord::TxCommit { txid: n })
            } else if record_type == 5 {
                Ok(WalRecord::TxAbort { txid: n })
            } else {
                Ok(WalRecord::Checkpoint { lsn: n })
            }
        }
    }
}

/// Size bounds every decoded record satisfies: keys fit the key cap and
/// values fit a record payload.
pub open spec fn record_size_ok(r: RecordView) -> bool {
    match r {
        RecordView::Put { key, value } => key.len() <= MAX_KEY_SIZE && value.len()
            <= MAX_RECORD_PAYLOAD,
        RecordView::Delete { key } => key.len() <= MAX_KEY_SIZE,
        _ => true,
    }
}

/// Whatever decodes is size-bounded.
pub proof fn lemma_decode_size_ok(data: Seq<u8>)
    ensures
        decode_spec(data) matches Some((r, n)) ==> record_size_ok(r),
{
}

/// Decoding inverts encoding: a buffer that starts with the encoding of a
/// replayable record decodes to that record, whatever follows it.
pub proof fn lemma_decode_encode(rec: RecordView, rest: Seq<u8>)
    requires
        record_replayable(rec),
    ensures
        decode_spec(encode_spec(rec) + rest) == Some((rec, encode_spec(rec).len() as int)),
{
    vstd::bytes::lemma_auto_spec_u32_to_from_le_bytes();
    vstd::bytes::lemma_auto_spec_u64_to_from_le_bytes();
    let enc = encode_spec(rec);
    let data = enc + rest;
    let payload = payload_spec(rec);
    let t = record_type_spec(rec);
    let total = RECORD_HEADER_SIZE + payload.len();
    assert(enc.len() == total);
    assert(data.subrange(0, 4) =~= spec_u32_to_le_bytes(total as u32));
    assert(data[4] == t);
    assert(data.subrange(5, 9) =~= spec_u32_to_le_bytes(crc32_of(seq![t] + payload)));
    assert(data.subrange(RECORD_HEADER_SIZE as int, total as int) =~= payload);
    assert(spec_u32_from_le_bytes(data.subrange(0, 4)) == total as u32);
    lemma_decode_payload_encode(rec);
}

/// The payload decoder inverts the payload encoder on replayable records.
proof fn lemma_decode_payload_encode(rec: RecordView)
    requires
        record_valid(rec),
    ensures
        decode_payload_spec(record_type_spec(rec), payload_spec(rec)) == Some(rec),
{
    vstd::bytes::lemma_auto_spec_u32_to_from_le_bytes();
    vstd::bytes::lemma_auto_spec_u64_to_from_le_bytes();
    let payload = payload_spec(rec);
    match rec {
        RecordView::Put { key, value } => {
            let klen = key.len() as int;
            let vlen = value.len() as int;
            assert(payload.subrange(0, 4) =~= spec_u32_to_le_bytes(key.len() as u32));
            assert(payload.subrange(4, 4 + klen) =~= key);
            assert(payload.subrange(4 + klen, 8 + klen)
                =~= spec_u32_to_le_bytes(value.len() as u32));
            assert(payload.subrange(8 + klen, 8 + klen + vlen) =~= value);
        }
        RecordView::Delete { key } => {
            let klen = key.len() as int;
            assert(payload.subrange(0, 4) =~= spec_u32_to_le_bytes(key.len() as u32));
            assert(payload.subrange(4, 4 + klen) =~= key);
        }
        RecordView::TxBegin { txid } => {
            assert(payload.subrange(0, 8) =~= spec_u64_to_le_bytes(txid));
        }
        RecordView::TxCommit { txid } => {
            assert(payload.subrange(0, 8) =~= spec_u64_to_le_bytes(txid));
        }
        RecordView::TxAbort { txid } => {
            assert(payload.subrange(0, 8) =~= spec_u64_to_le_bytes(txid));
        }
        RecordView::Checkpoint { lsn } => {
            assert(payload.subrange(0, 8) =~= spec_u64_to_le_bytes(lsn));
        }
    }
}

} // verus!
