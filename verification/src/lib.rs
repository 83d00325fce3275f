//! Thunder: an embedded, single-file, transactional ordered key-value
//! storage engine with a write-ahead log, checkpointing, overflow page
//! chains, bucket namespaces and a bloom filter.

pub mod bloom;
pub mod bucket;
pub mod bytes;
pub mod crc;
pub mod checkpoint;
pub mod db;
pub mod error;
pub mod freelist;
pub mod group_commit;
pub mod meta;
pub mod overflow;
pub mod page;
pub mod tree;
pub mod tx;
pub mod wal;
pub mod wal_record;
