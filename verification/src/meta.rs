//! The two-slot meta page codec.
//!
//! A meta records the file geometry and the commit state: magic, format
//! version, page size, transaction id, root marker, checkpoint LSN, entry
//! count, a bloom filter reference, and a CRC32 over all of it. Two slots
//! alternate by the parity of the txid; on open the valid slot with the
//! larger txid wins.

use vstd::prelude::*;

use crate::crc::crc32_of;
use crate::crc::crc32_checksum;
use crate::page::MAGIC;
use crate::page::VERSION;
use vstd::bytes::spec_u32_from_le_bytes;
use vstd::bytes::spec_u32_to_le_bytes;
use vstd::bytes::spec_u64_from_le_bytes;
use vstd::bytes::spec_u64_to_le_bytes;

verus! {

/// Serialized size of a meta record at the head of its page.
pub const META_SIZE: usize = 64;

/// Database metadata, one slot's worth.
#[derive(Debug, Clone, Copy, PartialEq, Eq, Structural)]
pub struct Meta {
    /// File magic.
    pub magic: u32,
    /// Format version.
    pub version: u32,
    /// Page size chosen at creation.
    pub page_size: u32,
    /// Transaction id of the commit that wrote this slot.
    pub txid: u64,
    /// Root marker.
    pub root: u64,
    /// All WAL records at or below this LSN are reflected in the data
    /// file.
    pub checkpoint_lsn: u64,
    /// Number of entries in the data file.
    pub entry_count: u64,
    /// Page of the persisted bloom filter, 0 when none.
    pub bloom_page: u64,
    /// Length of the persisted bloom filter.
    pub bloom_len: u64,
    /// CRC32 over the fields above, as serialized.
    pub crc: u32,
}

/// The first 60 bytes of a serialized meta: everything but the CRC.
pub open spec fn meta_body_bytes(m: Meta) -> Seq<u8> {
    spec_u32_to_le_bytes(m.magic) + spec_u32_to_le_bytes(m.version) + spec_u32_to_le_bytes(
        m.page_size,
    ) + spec_u64_to_le_bytes(m.txid) + spec_u64_to_le_bytes(m.root) + spec_u64_to_le_bytes(
        m.checkpoint_lsn,
    ) + spec_u64_to_le_bytes(m.entry_count) + spec_u64_to_le_bytes(m.bloom_page)
        + spec_u64_to_le_bytes(m.bloom_len)
}

/// The full 64 serialized bytes of a meta.
pub open spec fn meta_bytes(m: Meta) -> Seq<u8> {
    meta_body_bytes(m) + spec_u32_to_le_bytes(m.crc)
}

/// Whether a meta slot is acceptable: magic, version and checksum all
/// check out and the page size is one of the supported sizes.
pub open spec fn meta_valid(m: Meta) -> bool {
    &&& m.magic == MAGIC
    &&& m.version == VERSION
    &&& (m.page_size == 4096 || m.page_size == 8192 || m.page_size == 16384 || m.page_size
        == 65536)
    &&& m.crc == crc32_of(meta_body_bytes(m))
}

impl Meta {
    /// Builds a meta for the given state, with a correct checksum.
    pub fn new(
        page_size: u32,
        txid: u64,
        root: u64,
        checkpoint_lsn: u64,
        entry_count: u64,
        bloom_page: u64,
        bloom_len: u64,
    ) -> (r: Meta)
        ensures
            r.magic == MAGIC,
            r.version == VERSION,
            r.page_size == page_size,
            r.txid == txid,
            r.root == root,
            r.checkpoint_lsn == checkpoint_lsn,
            r.entry_count == entry_count,
            r.bloom_page == bloom_page,
            r.bloom_len == bloom_len,
            r.crc == crc32_of(meta_body_bytes(r)),
            (page_size == 4096 || page_size == 8192 || page_size == 16384 || page_size == 65536)
                ==> meta_valid(r),
    {
        let mut m = Meta {
            magic: MAGIC,
            version: VERSION,
            page_size,
            txid,
            root,
            checkpoint_lsn,
            entry_count,
            bloom_page,
            bloom_len,
            crc: 0,
        };
        let body = Self::body_to_bytes(&m);
        let crc = crc32_checksum(body.as_slice());
        m.crc = crc;
        proof {
            assert(meta_body_bytes(m) =~= body@);
        }
        m
    }

    /// Serializes the checksummed fields.
    fn body_to_bytes(m: &Meta) -> (r: Vec<u8>)
        ensures
            r@ =~= meta_body_bytes(*m),
            r@.len() == 60,
    {
        proof {
            vstd::bytes::lemma_auto_spec_u32_to_from_le_bytes();
            vstd::bytes::lemma_auto_spec_u64_to_from_le_bytes();
        }
        let mut buf = vstd::bytes::u32_to_le_bytes(m.magic);
        let mut b1 = vstd::bytes::u32_to_le_bytes(m.version);
        buf.append(&mut b1);
        let mut b2 = vstd::bytes::u32_to_le_bytes(m.page_size);
        buf.append(&mut b2);
        let mut b3 = vstd::bytes::u64_to_le_bytes(m.txid);
        buf.append(&mut b3);
        let mut b4 = vstd::bytes::u64_to_le_bytes(m.root);
        buf.append(&mut b4);
        let mut b5 = vstd::bytes::u64_to_le_bytes(m.checkpoint_lsn);
        buf.append(&mut b5);
        let mut b6 = vstd::bytes::u64_to_le_bytes(m.entry_count);
        buf.append(&mut b6);
        let mut b7 = vstd::bytes::u64_to_le_bytes(m.bloom_page);
        buf.append(&mut b7);
        let mut b8 = vstd::bytes::u64_to_le_bytes(m.bloom_len);
        buf.append(&mut b8);
        buf
    }

    /// Serializes the meta to its 64 bytes.
    pub fn to_bytes(&self) -> (r: Vec<u8>)
        ensures
            r@ =~= meta_bytes(*self),
            r@.len() == META_SIZE,
    {
        proof {
            vstd::bytes::lemma_auto_spec_u32_to_from_le_bytes();
        }
        let mut buf = Self::body_to_bytes(self);
        let mut crc_bytes = vstd::bytes::u32_to_le_bytes(self.crc);
        buf.append(&mut crc_bytes);
        buf
    }

    /// Deserializes a meta from the head of a slot; `None` when the
    /// buffer is too small.
    pub fn from_bytes(buf: &[u8]) -> (r: Option<Meta>)
        ensures
            match r {
                Some(m) => buf@.len() >= META_SIZE && meta_bytes(m) =~= buf@.subrange(
                    0,
                    META_SIZE as int,
                ) && m == parse_meta(buf@),
                None => buf@.len() < META_SIZE,
            },
    {
        proof {
            vstd::bytes::lemma_auto_spec_u32_to_from_le_bytes();
            vstd::bytes::lemma_auto_spec_u64_to_from_le_bytes();
        }
        if buf.len() < META_SIZE {
            return None;
        }
        let m = Meta {
            magic: vstd::bytes::u32_from_le_bytes(vstd::slice::slice_subrange(buf, 0, 4)),
            version: vstd::bytes::u32_from_le_bytes(vstd::slice::slice_subrange(buf, 4, 8)),
            page_size: vstd::bytes::u32_from_le_bytes(vstd::slice::slice_subrange(buf, 8, 12)),
            txid: vstd::bytes::u64_from_le_bytes(vstd::slice::slice_subrange(buf, 12, 20)),
            root: vstd::bytes::u64_from_le_bytes(vstd::slice::slice_subrange(buf, 20, 28)),
            checkpoint_lsn: vstd::bytes::u64_from_le_bytes(
                vstd::slice::slice_subrange(buf, 28, 36),
            ),
            entry_count: vstd::bytes::u64_from_le_bytes(vstd::slice::slice_subrange(buf, 36, 44)),
            bloom_page: vstd::bytes::u64_from_le_bytes(vstd::slice::slice_subrange(buf, 44, 52)),
            bloom_len: vstd::bytes::u64_from_le_bytes(vstd::slice::slice_subrange(buf, 52, 60)),
            crc: vstd::bytes::u32_from_le_bytes(vstd::slice::slice_subrange(buf, 60, 64)),
        };
        proof {
            assert(meta_bytes(m) =~= buf@.subrange(0, META_SIZE as int));
        }
        Some(m)
    }

    /// Recomputes the checksum and checks magic, version and page size.
    pub fn validate(&self) -> (r: bool)
        ensures
            r == meta_valid(*self),
    {
        if self.magic != MAGIC {
            return false;
        }
        if self.version != VERSION {
            return false;
        }
        if !(self.page_size == 4096 || self.page_size == 8192 || self.page_size == 16384
            || self.page_size == 65536) {
            return false;
        }
        let body = Self::body_to_bytes(self);
        let crc = crc32_checksum(body.as_slice());
        crc == self.crc
    }
}

/// The meta stored at the head of a slot's bytes.
pub open spec fn parse_meta(b: Seq<u8>) -> Meta {
    Meta {
        magic: spec_u32_from_le_bytes(b.subrange(0, 4)),
        version: spec_u32_from_le_bytes(b.subrange(4, 8)),
        page_size: spec_u32_from_le_bytes(b.subrange(8, 12)),
        txid: spec_u64_from_le_bytes(b.subrange(12, 20)),
        root: spec_u64_from_le_bytes(b.subrange(20, 28)),
        checkpoint_lsn: spec_u64_from_le_bytes(b.subrange(28, 36)),
        entry_count: spec_u64_from_le_bytes(b.subrange(36, 44)),
        bloom_page: spec_u64_from_le_bytes(b.subrange(44, 52)),
        bloom_len: spec_u64_from_le_bytes(b.subrange(52, 60)),
        crc: spec_u32_from_le_bytes(b.subrange(60, 64)),
    }
}

/// Among the slots that validate, the one with the largest txid is
/// current; `None` when neither validates.
pub open spec fn select_meta_spec(m0: Meta, m1: Meta) -> Option<Meta> {
    if meta_valid(m0) && meta_valid(m1) {
        if m1.txid > m0.txid {
            Some(m1)
        } else {
            Some(m0)
        }
    } else if meta_valid(m0) {
        Some(m0)
    } else if meta_valid(m1) {
        Some(m1)
    } else {
        None
    }
}

/// Picks the current meta among the two slots.
pub fn select_meta(m0: &Meta, m1: &Meta) -> (r: Option<Meta>)
    ensures
        r == select_meta_spec(*m0, *m1),
{
    let v0 = m0.validate();
    let v1 = m1.validate();
    if v0 && v1 {
        if m1.txid > m0.txid {
            Some(*m1)
        } else {
            Some(*m0)
        }
    } else if v0 {
        Some(*m0)
    } else if v1 {
        Some(*m1)
    } else {
        None
    }
}

} // verus!
