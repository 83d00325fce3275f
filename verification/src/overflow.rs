//! Overflow page management for large values.
//!
//! Values above the overflow threshold are stored out of line, as linked
//! chains of full pages. Each page carries a 24-byte header: a page-type
//! byte, the id of the next page in the chain (0 ends the chain), the
//! chunk length, and a CRC32 of the chunk. A reader walks the chain,
//! verifies every checksum, and checks that the lengths add up.

use vstd::prelude::*;

use crate::crc::crc32_of;
use crate::crc::crc32_checksum;
use crate::page::PageId;
use vstd::bytes::spec_u32_from_le_bytes;
use vstd::bytes::spec_u32_to_le_bytes;
use vstd::bytes::spec_u64_from_le_bytes;
use vstd::bytes::spec_u64_to_le_bytes;

verus! {

/// Default threshold above which values move to overflow pages.
pub const DEFAULT_OVERFLOW_THRESHOLD: usize = 2048;

/// Overflow page header size in bytes.
pub const OVERFLOW_HEADER_SIZE: usize = 24;

/// Hard cap on chain length, against corruption-induced loops.
pub const MAX_CHAIN_LENGTH: usize = 1_000_000;

/// A sequence of `n` zero bytes.
pub open spec fn zeros(n: nat) -> Seq<u8> {
    Seq::new(n, |i: int| 0u8)
}

/// The 24 header bytes: type byte 5, 7 reserved zero bytes, next page id,
/// chunk length, chunk CRC32; integers little-endian.
pub open spec fn header_bytes(next_page: u64, data_len: u32, checksum: u32) -> Seq<u8> {
    seq![5u8] + zeros(7) + spec_u64_to_le_bytes(next_page) + spec_u32_to_le_bytes(data_len)
        + spec_u32_to_le_bytes(checksum)
}

/// Overflow page header.
#[derive(Debug, Clone, Copy, PartialEq, Eq, Structural)]
pub struct OverflowHeader {
    /// Page type marker (5 denotes an overflow page).
    pub page_type: u8,
    /// Next overflow page id (0 ends the chain).
    pub next_page: PageId,
    /// Length of the chunk stored in this page.
    pub data_len: u32,
    /// CRC32 of the chunk.
    pub checksum: u32,
}

impl OverflowHeader {
    /// Creates a new overflow header.
    pub fn new(next_page: PageId, data_len: u32, checksum: u32) -> (r: OverflowHeader)
        ensures
            r.page_type == 5,
            r.next_page == next_page,
            r.data_len == data_len,
            r.checksum == checksum,
    {
        OverflowHeader { page_type: 5, next_page, data_len, checksum }
    }

    /// Serializes the header to its 24 bytes.
    pub fn to_bytes(&self) -> (r: Vec<u8>)
        requires
            self.page_type == 5,
        ensures
            r@ =~= header_bytes(self.next_page, self.data_len, self.checksum),
            r@.len() == OVERFLOW_HEADER_SIZE,
    {
        proof {
            vstd::bytes::lemma_auto_spec_u32_to_from_le_bytes();
            vstd::bytes::lemma_auto_spec_u64_to_from_le_bytes();
        }
        let mut buf: Vec<u8> = Vec::new();
        buf.push(5u8);
        let mut i: usize = 0;
        while i < 7
            invariant
                0 <= i <= 7,
                buf@ =~= seq![5u8] + zeros(i as nat),
            decreases 7 - i,
        {
            buf.push(0u8);
            proof {
                assert(zeros((i + 1) as nat) =~= zeros(i as nat).push(0u8));
            }
            i += 1;
        }
        let mut next_bytes = vstd::bytes::u64_to_le_bytes(self.next_page);
        buf.append(&mut next_bytes);
        let mut len_bytes = vstd::bytes::u32_to_le_bytes(self.data_len);
        buf.append(&mut len_bytes);
        let mut crc_bytes = vstd::bytes::u32_to_le_bytes(self.checksum);
        buf.append(&mut crc_bytes);
        buf
    }

    /// Deserializes a header; `None` when the buffer is too small or the
    /// page-type byte is not that of an overflow page.
    pub fn from_bytes(buf: &[u8]) -> (r: Option<OverflowHeader>)
        ensures
            match r {
                Some(h) => {
                    &&& buf@.len() >= OVERFLOW_HEADER_SIZE
                    &&& buf@[0] == 5
                    &&& h.page_type == 5
                    &&& h.next_page == spec_u64_from_le_bytes(buf@.subrange(8, 16))
                    &&& h.data_len == spec_u32_from_le_bytes(buf@.subrange(16, 20))
                    &&& h.checksum == spec_u32_from_le_bytes(buf@.subrange(20, 24))
                },
                None => buf@.len() < OVERFLOW_HEADER_SIZE || buf@[0] != 5,
            },
    {
        if buf.len() < OVERFLOW_HEADER_SIZE {
            return None;
        }
        let page_type = *vstd::slice::slice_index_get(buf, 0);
        if page_type != 5 {
            return None;
        }
        Some(OverflowHeader {
            page_type,
            next_page: vstd::bytes::u64_from_le_bytes(vstd::slice::slice_subrange(buf, 8, 16)),
            data_len: vstd::bytes::u32_from_le_bytes(vstd::slice::slice_subrange(buf, 16, 20)),
            checksum: vstd::bytes::u32_from_le_bytes(vstd::slice::slice_subrange(buf, 20, 24)),
        })
    }
}

/// Reference to a value stored in overflow pages: the head of the chain
/// and the total length of the value.
#[derive(Debug, Clone, Copy, PartialEq, Eq, Structural)]
pub struct OverflowRef {
    /// First page of the overflow chain.
    pub start_page: PageId,
    /// Total length of the value in bytes.
    pub total_len: u32,
}

impl OverflowRef {
    /// Creates a new overflow reference.
    pub fn new(start_page: PageId, total_len: u32) -> (r: OverflowRef)
        ensures
            r.start_page == start_page,
            r.total_len == total_len,
    {
        OverflowRef { start_page, total_len }
    }

    /// The sentinel written in place of a value length to mark an
    /// overflow reference.
    pub fn marker() -> (r: u32)
        ensures
            r == 0xFFFF_FFFFu32,
    {
        0xFFFF_FFFF
    }

    /// Serializes the reference: start page then total length,
    /// little-endian (the marker is written separately).
    pub fn to_bytes(&self) -> (r: Vec<u8>)
        ensures
            r@ =~= spec_u64_to_le_bytes(self.start_page) + spec_u32_to_le_bytes(self.total_len),
            r@.len() == 12,
    {
        proof {
            vstd::bytes::lemma_auto_spec_u32_to_from_le_bytes();
            vstd::bytes::lemma_auto_spec_u64_to_from_le_bytes();
        }
        let mut buf = vstd::bytes::u64_to_le_bytes(self.start_page);
        let mut len_bytes = vstd::bytes::u32_to_le_bytes(self.total_len);
        buf.append(&mut len_bytes);
        buf
    }

    /// Deserializes a reference; `None` when the buffer is too small.
    pub fn from_bytes(buf: &[u8]) -> (r: Option<OverflowRef>)
        ensures
            match r {
                Some(oref) => {
                    &&& buf@.len() >= 12
                    &&& oref.start_page == spec_u64_from_le_bytes(buf@.subrange(0, 8))
                    &&& oref.total_len == spec_u32_from_le_bytes(buf@.subrange(8, 12))
                },
                None => buf@.len() < 12,
            },
    {
        if buf.len() < 12 {
            return None;
        }
        Some(OverflowRef {
            start_page: vstd::bytes::u64_from_le_bytes(vstd::slice::slice_subrange(buf, 0, 8)),
            total_len: vstd::bytes::u32_from_le_bytes(vstd::slice::slice_subrange(buf, 8, 12)),
        })
    }
}

/// The value recovered by walking an overflow chain in `pages`, starting
/// at page `start`, with at most `fuel` links; `None` on any missing or
/// short page, bad header, bad checksum, or exhausted fuel.
pub open spec fn chain_read(
    pages: Map<u64, Seq<u8>>,
    page_size: nat,
    start: u64,
    fuel: nat,
) -> Option<Seq<u8>>
    decreases fuel,
{
    if start == 0 {
        Some(Seq::empty())
    } else if fuel == 0 {
        None
    } else if !pages.contains_key(start) {
        None
    } else {
        let pd = pages[start];
        if pd.len() != page_size || page_size < OVERFLOW_HEADER_SIZE {
            None
        } else if pd[0] != 5 {
            None
        } else {
            let next = spec_u64_from_le_bytes(pd.subrange(8, 16));
            let dlen = spec_u32_from_le_bytes(pd.subrange(16, 20)) as int;
            let crc = spec_u32_from_le_bytes(pd.subrange(20, 24));
            if OVERFLOW_HEADER_SIZE + dlen > page_size {
                None
            } else {
                let chunk = pd.subrange(
                    OVERFLOW_HEADER_SIZE as int,
                    OVERFLOW_HEADER_SIZE + dlen,
                );
                if crc32_of(chunk) != crc {
                    None
                } else {
                    match chain_read(pages, page_size, next, (fuel - 1) as nat) {
                        Some(rest) => Some(chunk + rest),
                        None => None,
                    }
                }
            }
        }
    }
}

/// The page ids a chain walk reclaims: follow the next pointers from
/// `start` while the page exists and carries an overflow header, for at
/// most `fuel` links.
pub open spec fn freeable_ids(pages: Map<u64, Seq<u8>>, start: u64, fuel: nat) -> Seq<u64>
    decreases fuel,
{
    if start == 0 || fuel == 0 {
        Seq::empty()
    } else if !pages.contains_key(start) {
        Seq::empty()
    } else {
        let pd = pages[start];
        if pd.len() < OVERFLOW_HEADER_SIZE || pd[0] != 5 {
            Seq::empty()
        } else {
            seq![start] + freeable_ids(
                pages,
                spec_u64_from_le_bytes(pd.subrange(8, 16)),
                (fuel - 1) as nat,
            )
        }
    }
}

/// One link of a well-formed chain: page `i` of `pages` holds chunk `i`
/// of `value`, linked to page `i + 1` (or 0 at the end), checksummed.
pub open spec fn chain_entry_ok(
    pages: Seq<(u64, Seq<u8>)>,
    i: int,
    value: Seq<u8>,
    page_size: nat,
) -> bool {
    let chunk_cap = page_size - OVERFLOW_HEADER_SIZE;
    let off = i * chunk_cap;
    let clen = if value.len() - off < chunk_cap {
        value.len() - off
    } else {
        chunk_cap as int
    };
    let next: u64 = if i == pages.len() - 1 {
        0u64
    } else {
        pages[i + 1].0
    };
    let chunk = value.subrange(off, off + clen);
    &&& pages[i].0 != 0
    &&& pages[i].1 =~= header_bytes(next, clen as u32, crc32_of(chunk)) + chunk
        + zeros((page_size - OVERFLOW_HEADER_SIZE - clen) as nat)
}

/// A well-formed chain: `pages` holds `value` split into capacity-sized
/// chunks, one page per chunk, each linked to the next.
pub open spec fn chain_ok(
    pages: Seq<(u64, Seq<u8>)>,
    start: u64,
    value: Seq<u8>,
    page_size: nat,
) -> bool {
    let chunk_cap = page_size - OVERFLOW_HEADER_SIZE;
    &&& page_size > OVERFLOW_HEADER_SIZE
    &&& value.len() > 0
    &&& pages.len() == (value.len() as int) / (chunk_cap as int)
        + if (value.len() as int) % (chunk_cap as int) != 0 { 1int } else { 0int }
    &&& start == pages[0].0
    &&& forall|i: int| 0 <= i < pages.len() ==> chain_entry_ok(pages, i, value, page_size)
}

/// The view of an id-page pair list.
pub open spec fn pages_view(r: Seq<(u64, Vec<u8>)>) -> Seq<(u64, Seq<u8>)> {
    r.map(|i: int, p: (u64, Vec<u8>)| (p.0, p.1@))
}

/// Manages overflow page allocation and retrieval.
pub struct OverflowManager {
    /// Next page id handed out when the free list is empty.
    pub next_page_id: PageId,
    /// Freed overflow pages available for reuse.
    pub free_pages: Vec<PageId>,
    /// Page size for this database.
    pub page_size: usize,
    /// Usable data bytes per overflow page.
    pub overflow_data_size: usize,
}

impl OverflowManager {
    /// Well-formed: pages can hold data beyond the header, chunk lengths
    /// fit their 32-bit field, and page id 0 (the chain terminator) is
    /// never handed out.
    pub open spec fn wf(self) -> bool {
        &&& self.page_size > OVERFLOW_HEADER_SIZE
        &&& self.page_size <= 0xFFFF_FFFF
        &&& self.overflow_data_size == self.page_size - OVERFLOW_HEADER_SIZE
        &&& self.next_page_id >= 1
        &&& forall|i: int| 0 <= i < self.free_pages@.len() ==> #[trigger] self.free_pages@[i] != 0
    }

    /// Creates a new overflow manager.
    pub fn new(page_size: usize, next_page_id: PageId) -> (r: OverflowManager)
        requires
            page_size > OVERFLOW_HEADER_SIZE,
            page_size <= 0xFFFF_FFFF,
        ensures
            r.wf(),
            r.page_size == page_size,
            r.next_page_id == if next_page_id >= 1 { next_page_id } else { 1u64 },
            r.free_pages@.len() == 0,
            r.overflow_data_size == page_size - OVERFLOW_HEADER_SIZE,
    {
        OverflowManager {
            next_page_id: if next_page_id >= 1 { next_page_id } else { 1 },
            free_pages: Vec::new(),
            page_size,
            overflow_data_size: page_size - OVERFLOW_HEADER_SIZE,
        }
    }

    /// Returns the usable data bytes per overflow page.
    pub fn overflow_data_size(&self) -> (r: usize)
        ensures
            r == self.overflow_data_size,
    {
        self.overflow_data_size
    }

    /// Returns the next page id that will be allocated fresh.
    pub fn next_page_id(&self) -> (r: PageId)
        ensures
            r == self.next_page_id,
    {
        self.next_page_id
    }

    /// Sets the next page id (used when loading from disk).
    pub fn set_next_page_id(&mut self, page_id: PageId)
        requires
            old(self).wf(),
            page_id >= 1,
        ensures
            final(self).wf(),
            final(self).next_page_id == page_id,
            final(self).page_size == old(self).page_size,
            final(self).overflow_data_size == old(self).overflow_data_size,
            final(self).free_pages == old(self).free_pages,
    {
        self.next_page_id = page_id;
    }

    /// Returns whether a value of the given length should use overflow
    /// storage.
    pub fn should_overflow(value_len: usize, threshold: usize) -> (r: bool)
        ensures
            r == (value_len > threshold),
    {
        value_len > threshold
    }

    /// Allocates a page id, from the free list if possible, else fresh.
    fn alloc_page(&mut self) -> (r: PageId)
        requires
            old(self).wf(),
            old(self).next_page_id < u64::MAX,
        ensures
            final(self).wf(),
            final(self).page_size == old(self).page_size,
            final(self).overflow_data_size == old(self).overflow_data_size,
            r != 0,
            old(self).next_page_id <= final(self).next_page_id
                <= old(self).next_page_id + 1,
            old(self).free_pages@.len() == 0 ==> {
                &&& r == old(self).next_page_id
                &&& final(self).next_page_id == old(self).next_page_id + 1
                &&& final(self).free_pages@.len() == 0
            },
            // freed pages are reused before any fresh id is consumed
            old(self).free_pages@.len() > 0 ==> {
                &&& r == old(self).free_pages@.last()
                &&& final(self).free_pages@ == old(self).free_pages@.drop_last()
                &&& final(self).next_page_id == old(self).next_page_id
            },
    {
        match self.free_pages.pop() {
            Some(id) => {
                proof {
                    assert(old(self).free_pages@[old(self).free_pages@.len() - 1] != 0);
                }
                id
            }
            None => {
                let id = self.next_page_id;
                self.next_page_id = self.next_page_id + 1;
                id
            }
        }
    }

    /// Splits a large value into an overflow chain: returns the reference
    /// to store in the entry and the pages to write. An empty value makes
    /// no chain.
    pub fn allocate_overflow(&mut self, value: &[u8]) -> (r: (OverflowRef, Vec<(PageId, Vec<u8>)>))
        requires
            old(self).wf(),
            value@.len() < 0xFFFF_FFFF,
            old(self).next_page_id + value@.len() + 1 <= u64::MAX,
        ensures
            final(self).wf(),
            final(self).page_size == old(self).page_size,
            final(self).overflow_data_size == old(self).overflow_data_size,
            old(self).next_page_id <= final(self).next_page_id,
            r.0.total_len == value@.len(),
            value@.len() == 0 ==> {
                &&& r.0.start_page == 0
                &&& r.1@.len() == 0
                &&& *final(self) == *old(self)
            },
            value@.len() > 0 ==> {
                &&& chain_ok(pages_view(r.1@), r.0.start_page, value@, old(self).page_size as nat)
                &&& old(self).free_pages@.len() == 0 ==> {
                    &&& forall|i: int| 0 <= i < r.1@.len()
                        ==> (#[trigger] r.1@[i]).0 == old(self).next_page_id + i
                    &&& final(self).next_page_id == old(self).next_page_id + r.1@.len()
                    &&& final(self).free_pages@.len() == 0
                }
            },
    {
        if value.len() == 0 {
            return (OverflowRef::new(0, 0), Vec::new());
        }
        let chunk_cap = self.overflow_data_size;
        let len = value.len();
        proof {
            assert(chunk_cap >= 1);
            assert(len as int / chunk_cap as int <= len) by (nonlinear_arith)
                requires
                    chunk_cap >= 1,
                    len >= 0,
            {}
            assert(len as int + 1 <= usize::MAX);
        }
        let n = len / chunk_cap + if len % chunk_cap != 0 { 1 } else { 0 };
        proof {
            assert(n >= 1) by (nonlinear_arith)
                requires
                    n == len as int / chunk_cap as int
                        + if len as int % chunk_cap as int != 0 { 1int } else { 0int },
                    len >= 1,
                    chunk_cap >= 1,
            {}
            assert(n <= len) by (nonlinear_arith)
                requires
                    n == len as int / chunk_cap as int
                        + if len as int % chunk_cap as int != 0 { 1int } else { 0int },
                    len >= 1,
                    chunk_cap >= 1,
            {}
        }

        // allocate the page ids for the whole chain up front
        let ghost m0 = *self;
        let mut ids: Vec<PageId> = Vec::new();
        let mut k: usize = 0;
        while k < n
            invariant
                0 <= k <= n,
                n <= len,
                self.wf(),
                self.page_size == m0.page_size,
                self.overflow_data_size == m0.overflow_data_size,
                ids@.len() == k,
                forall|i: int| 0 <= i < k ==> #[trigger] ids@[i] != 0,
                m0.next_page_id <= self.next_page_id,
                self.next_page_id <= m0.next_page_id + k,
                m0.next_page_id + len + 1 <= u64::MAX,
                m0.free_pages@.len() == 0 ==> {
                    &&& forall|i: int| 0 <= i < k ==> #[trigger] ids@[i] == m0.next_page_id + i
                    &&& self.next_page_id == m0.next_page_id + k
                    &&& self.free_pages@.len() == 0
                },
            decreases n - k,
        {
            let id = self.alloc_page();
            ids.push(id);
            k += 1;
        }

        let ghost idsv = ids@;
        let mut pages: Vec<(PageId, Vec<u8>)> = Vec::new();
        let mut off: usize = 0;
        let mut i: usize = 0;
        while i < n
            invariant
                0 <= i <= n,
                ids@ == idsv,
                ids@.len() == n,
                self.wf(),
                chunk_cap == self.overflow_data_size,
                self.page_size <= 0xFFFF_FFFF,
                chunk_cap == self.page_size - OVERFLOW_HEADER_SIZE,
                len == value@.len(),
                1 <= len <= 0xFFFF_FFFF,
                n == len as int / chunk_cap as int
                    + if len as int % chunk_cap as int != 0 { 1int } else { 0int },
                i < n ==> off == i * chunk_cap,
                i < n ==> off < len,
                i == n ==> off == len,
                forall|j: int| 0 <= j < n ==> #[trigger] ids@[j] != 0,
                pages@.len() == i,
                forall|j: int| 0 <= j < i ==> (#[trigger] pages@[j]).0 == ids@[j],
                forall|j: int| 0 <= j < i
                    ==> chain_entry_ok(
                        pages_view(pages@) + future_entries(ids@, i as int, n as int),
                        j,
                        value@,
                        self.page_size as nat,
                    ),
            decreases n - i,
        {
            proof {
                vstd::arithmetic::div_mod::lemma_fundamental_div_mod(
                    len as int,
                    chunk_cap as int,
                );
                vstd::arithmetic::div_mod::lemma_mod_bound(len as int, chunk_cap as int);
                assert((i + 1) * chunk_cap == i * chunk_cap + chunk_cap) by (nonlinear_arith) {}
                if i + 1 < n {
                    assert((i as int + 1) * chunk_cap < len) by (nonlinear_arith)
                        requires
                            n == len as int / chunk_cap as int
                                + if len as int % chunk_cap as int != 0 { 1int } else { 0int },
                            len as int == (len as int / chunk_cap as int) * chunk_cap
                                + len as int % chunk_cap as int,
                            0 <= len as int % chunk_cap as int,
                            (len as int % chunk_cap as int) < chunk_cap,
                            0 <= i,
                            i + 2 <= n,
                            chunk_cap >= 1,
                            len >= 1,
                    {}
                } else {
                    assert(len as int - i * chunk_cap <= chunk_cap) by (nonlinear_arith)
                        requires
                            n == len as int / chunk_cap as int
                                + if len as int % chunk_cap as int != 0 { 1int } else { 0int },
                            len as int == (len as int / chunk_cap as int) * chunk_cap
                                + len as int % chunk_cap as int,
                            0 <= len as int % chunk_cap as int,
                            (len as int % chunk_cap as int) < chunk_cap,
                            i + 1 == n,
                            chunk_cap >= 1,
                            len >= 1,
                    {}
                }
            }
            let clen = if len - off < chunk_cap { len - off } else { chunk_cap };
            let next: PageId = if i + 1 == n { 0 } else { ids[i + 1] };
            let chunk = vstd::slice::slice_subrange(value, off, off + clen);
            let crc = crc32_checksum(chunk);
            let header = OverflowHeader::new(next, clen as u32, crc);
            let mut page_data = header.to_bytes();
            let mut chunk_vec = vstd::slice::slice_to_vec(chunk);
            page_data.append(&mut chunk_vec);
            let pad = self.page_size - OVERFLOW_HEADER_SIZE - clen;
            let mut p: usize = 0;
            let ghost before_pad = page_data@;
            while p < pad
                invariant
                    0 <= p <= pad,
                    page_data@ =~= before_pad + zeros(p as nat),
                decreases pad - p,
            {
                page_data.push(0u8);
                proof {
                    assert(zeros((p + 1) as nat) =~= zeros(p as nat).push(0u8));
                }
                p += 1;
            }
            let ghost prev_pages = pages@;
            pages.push((ids[i], page_data));
            proof {
                let ps = self.page_size as nat;
                let whole_prev = pages_view(prev_pages)
                    + future_entries(idsv, i as int, n as int);
                let whole_now = pages_view(pages@)
                    + future_entries(idsv, i as int + 1, n as int);
                assert(whole_now.len() == whole_prev.len());
                assert forall|j: int| 0 <= j < whole_now.len()
                    implies (#[trigger] whole_now[j]).0 == whole_prev[j].0 by {
                    if j < i {
                        assert(whole_now[j] == pages_view(pages@)[j]);
                        assert(pages_view(pages@)[j] == pages_view(prev_pages)[j]);
                    } else if j == i {
                        assert(whole_now[j].0 == idsv[j]);
                        assert(whole_prev[j].0 == idsv[j]);
                    } else {
                        assert(whole_now[j].0 == idsv[j]);
                        assert(whole_prev[j].0 == idsv[j]);
                    }
                }
                assert forall|j: int| 0 <= j < i
                    implies (#[trigger] whole_now[j]).1 == whole_prev[j].1 by {
                    assert(whole_now[j] == pages_view(pages@)[j]);
                    assert(pages_view(pages@)[j] == pages_view(prev_pages)[j]);
                }
                assert(chain_entry_ok(whole_now, i as int, value@, ps)) by {
                    assert(whole_now[i as int].0 == idsv[i as int]);
                    assert(whole_now[i as int].1 =~= header_bytes(
                        next,
                        clen as u32,
                        crc32_of(value@.subrange(off as int, off + clen)),
                    ) + value@.subrange(off as int, off + clen)
                        + zeros((ps - OVERFLOW_HEADER_SIZE - clen) as nat));
                    if i + 1 < n {
                        assert(whole_now[i as int + 1].0 == idsv[i as int + 1]);
                    }
                }
                assert forall|j: int| 0 <= j < i + 1
                    implies chain_entry_ok(whole_now, j, value@, ps) by {
                    if j < i {
                        assert(chain_entry_ok(whole_prev, j, value@, ps));
                    }
                }
            }
            off = off + clen;
            i += 1;
        }
        proof {
            assert(pages_view(pages@) + future_entries(idsv, n as int, n as int)
                =~= pages_view(pages@));
            assert(chain_ok(pages_view(pages@), idsv[0], value@, self.page_size as nat));
        }
        let oref = OverflowRef::new(ids[0], len as u32);
        (oref, pages)
    }

    /// Reads a value back from its overflow chain in `store`, verifying
    /// every checksum and the total length; `None` signals corruption.
    pub fn read_overflow(&self, overflow_ref: OverflowRef, store: &PageStore) -> (r: Option<
        Vec<u8>,
    >)
        requires
            self.wf(),
            store.wf(),
        ensures
            match r {
                Some(v) => {
                    &&& chain_read(
                        store.as_map(),
                        self.page_size as nat,
                        overflow_ref.start_page,
                        MAX_CHAIN_LENGTH as nat,
                    ) == Some(v@)
                    &&& v@.len() == overflow_ref.total_len
                },
                None => match chain_read(
                    store.as_map(),
                    self.page_size as nat,
                    overflow_ref.start_page,
                    MAX_CHAIN_LENGTH as nat,
                ) {
                    Some(v) => v.len() != overflow_ref.total_len,
                    None => true,
                },
            },
    {
        let ghost m = store.as_map();
        let ghost ps = self.page_size as nat;
        let ghost start = overflow_ref.start_page;
        let mut result: Vec<u8> = Vec::new();
        let mut current: PageId = overflow_ref.start_page;
        let mut pages_read: usize = 0;
        while current != 0 && pages_read < MAX_CHAIN_LENGTH
            invariant
                self.wf(),
                store.wf(),
                m == store.as_map(),
                ps == self.page_size as nat,
                start == overflow_ref.start_page,
                0 <= pages_read <= MAX_CHAIN_LENGTH,
                chain_read(m, ps, start, MAX_CHAIN_LENGTH as nat) == match chain_read(
                    m,
                    ps,
                    current,
                    (MAX_CHAIN_LENGTH - pages_read) as nat,
                ) {
                    Some(rest) => Some(result@ + rest),
                    None => None::<Seq<u8>>,
                },
            decreases MAX_CHAIN_LENGTH - pages_read,
        {
            let ghost fuel = (MAX_CHAIN_LENGTH - pages_read) as nat;
            let pd = match store.get_page(current) {
                Some(pd) => pd,
                None => {
                    return None;
                }
            };
            if pd.len() != self.page_size {
                return None;
            }
            let header = match OverflowHeader::from_bytes(pd.as_slice()) {
                Some(h) => h,
                None => {
                    return None;
                }
            };
            if header.data_len as u64 > (self.page_size - OVERFLOW_HEADER_SIZE) as u64 {
                return None;
            }
            let data_end = OVERFLOW_HEADER_SIZE + header.data_len as usize;
            let chunk = vstd::slice::slice_subrange(pd.as_slice(), OVERFLOW_HEADER_SIZE, data_end);
            let computed = crc32_checksum(chunk);
            if computed != header.checksum {
                return None;
            }
            let ghost result0 = result@;
            let mut chunk_vec = vstd::slice::slice_to_vec(chunk);
            result.append(&mut chunk_vec);
            proof {
                assert(chain_read(m, ps, current, fuel) == match chain_read(
                    m,
                    ps,
                    header.next_page,
                    (fuel - 1) as nat,
                ) {
                    Some(rest) => Some(pd@.subrange(
                        OVERFLOW_HEADER_SIZE as int,
                        data_end as int,
                    ) + rest),
                    None => None::<Seq<u8>>,
                });
                assert(result@ =~= result0 + pd@.subrange(
                    OVERFLOW_HEADER_SIZE as int,
                    data_end as int,
                ));
                assert forall|rest: Seq<u8>| true implies (result0 + (pd@.subrange(
                    OVERFLOW_HEADER_SIZE as int,
                    data_end as int,
                ) + rest)) =~= (result@ + rest) by {}
            }
            current = header.next_page;
            pages_read += 1;
        }
        if current != 0 {
            return None;
        }
        proof {
            assert(chain_read(m, ps, 0u64, (MAX_CHAIN_LENGTH - pages_read) as nat)
                == Some(Seq::<u8>::empty()));
            assert(result@ + Seq::<u8>::empty() =~= result@);
        }
        if result.len() as u64 == overflow_ref.total_len as u64 {
            Some(result)
        } else {
            None
        }
    }

    /// Frees an overflow chain: walks it and returns its pages to the
    /// free list. Chains that cannot be walked are abandoned; their pages
    /// are reclaimed at the next full checkpoint.
    #[verifier::loop_isolation(false)]
    pub fn free_overflow(&mut self, overflow_ref: OverflowRef, store: &PageStore)
        requires
            old(self).wf(),
            store.wf(),
        ensures
            final(self).wf(),
            final(self).page_size == old(self).page_size,
            final(self).overflow_data_size == old(self).overflow_data_size,
            final(self).next_page_id == old(self).next_page_id,
            final(self).free_pages@ =~= old(self).free_pages@ + freeable_ids(
                store.as_map(),
                overflow_ref.start_page,
                MAX_CHAIN_LENGTH as nat,
            ),
    {
        let ghost m = store.as_map();
        let ghost start = overflow_ref.start_page;
        let mut current: PageId = overflow_ref.start_page;
        let mut pages_freed: usize = 0;
        while current != 0 && pages_freed < MAX_CHAIN_LENGTH
            invariant
                self.wf(),
                self.page_size == old(self).page_size,
                self.overflow_data_size == old(self).overflow_data_size,
                self.next_page_id == old(self).next_page_id,
                0 <= pages_freed <= MAX_CHAIN_LENGTH,
                freeable_ids(m, start, MAX_CHAIN_LENGTH as nat) =~= self.free_pages@.skip(
                    old(self).free_pages@.len() as int,
                ) + freeable_ids(m, current, (MAX_CHAIN_LENGTH - pages_freed) as nat),
                self.free_pages@.len() >= old(self).free_pages@.len(),
                self.free_pages@.subrange(0, old(self).free_pages@.len() as int)
                    =~= old(self).free_pages@,
            decreases MAX_CHAIN_LENGTH - pages_freed,
        {
            let ghost fuel = (MAX_CHAIN_LENGTH - pages_freed) as nat;
            let pd = match store.get_page(current) {
                Some(pd) => pd,
                None => {
                    proof {
                        assert(freeable_ids(m, current, fuel)
                            =~= Seq::<u64>::empty());
                        assert(self.free_pages@ =~= old(self).free_pages@
                            + self.free_pages@.skip(old(self).free_pages@.len() as int));
                    }
                    return ;
                }
            };
            let header = match OverflowHeader::from_bytes(pd.as_slice()) {
                Some(h) => h,
                None => {
                    proof {
                        assert(pd@.len() < OVERFLOW_HEADER_SIZE || pd@[0] != 5);
                        assert(freeable_ids(m, current, fuel)
                            =~= Seq::<u64>::empty());
                        assert(self.free_pages@ =~= old(self).free_pages@
                            + self.free_pages@.skip(old(self).free_pages@.len() as int));
                    }
                    return ;
                }
            };
            let ghost before = self.free_pages@;
            self.free_pages.push(current);
            proof {
                assert(freeable_ids(m, current, fuel) =~= seq![current] + freeable_ids(
                    m,
                    header.next_page,
                    (fuel - 1) as nat,
                ));
                assert(self.free_pages@.skip(old(self).free_pages@.len() as int)
                    =~= before.skip(old(self).free_pages@.len() as int).push(current));
                assert(self.free_pages@.subrange(0, old(self).free_pages@.len() as int)
                    =~= before.subrange(0, old(self).free_pages@.len() as int));
            }
            current = header.next_page;
            pages_freed += 1;
        }
        proof {
            assert(freeable_ids(m, current, (MAX_CHAIN_LENGTH - pages_freed) as nat)
                =~= Seq::<u64>::empty());
            assert(self.free_pages@ =~= old(self).free_pages@ + self.free_pages@.skip(
                old(self).free_pages@.len() as int,
            ));
        }
    }
}

/// The chain entries still to be built: ids `[i, n)` paired with
/// placeholder bytes. Only the ids matter to the already-built entries.
pub open spec fn future_entries(ids: Seq<u64>, i: int, n: int) -> Seq<(u64, Seq<u8>)> {
    Seq::new((n - i) as nat, |j: int| (ids[i + j], Seq::<u8>::empty()))
}

/// An in-memory region of pages, keyed by page id: the model of the part
/// of the data file that holds overflow chains.
pub struct PageStore {
    pub entries: Vec<(u64, Vec<u8>)>,
}

impl PageStore {
    /// Whether some entry holds page `id`.
    pub open spec fn contains_spec(self, id: u64) -> bool {
        exists|i: int| 0 <= i < self.entries@.len() && (#[trigger] self.entries@[i]).0 == id
    }

    /// The index of the entry holding page `id`.
    pub open spec fn index_of(self, id: u64) -> int {
        choose|i: int| 0 <= i < self.entries@.len() && (#[trigger] self.entries@[i]).0 == id
    }

    /// The mathematical model: a map from page id to page bytes.
    pub open spec fn as_map(self) -> Map<u64, Seq<u8>> {
        Map::new(
            |id: u64| self.contains_spec(id),
            |id: u64| self.entries@[self.index_of(id)].1@,
        )
    }

    /// Well-formed: one entry per page id.
    pub open spec fn wf(self) -> bool {
        forall|i: int, j: int|
            0 <= i < j < self.entries@.len()
                ==> (#[trigger] self.entries@[i]).0 != (#[trigger] self.entries@[j]).0
    }

    /// Creates an empty page store.
    pub fn new() -> (r: PageStore)
        ensures
            r.wf(),
            r.as_map() =~= Map::<u64, Seq<u8>>::empty(),
    {
        PageStore { entries: Vec::new() }
    }

    /// Finds the position of a page id, if present.
    fn find(&self, id: u64) -> (r: Option<usize>)
        requires
            self.wf(),
        ensures
            match r {
                Some(i) => i < self.entries@.len() && self.entries@[i as int].0 == id,
                None => !self.contains_spec(id),
            },
    {
        let mut i: usize = 0;
        while i < self.entries.len()
            invariant
                0 <= i <= self.entries@.len(),
                forall|j: int| 0 <= j < i ==> (#[trigger] self.entries@[j]).0 != id,
            decreases self.entries@.len() - i,
        {
            if self.entries[i].0 == id {
                return Some(i);
            }
            i += 1;
        }
        proof {
            if self.contains_spec(id) {
                let j = choose|j: int|
                    0 <= j < self.entries@.len() && (#[trigger] self.entries@[j]).0 == id;
                assert(false);
            }
        }
        None
    }

    /// Looks a page up.
    pub fn get_page(&self, id: u64) -> (r: Option<&Vec<u8>>)
        requires
            self.wf(),
        ensures
            match r {
                Some(v) => self.as_map().contains_key(id) && v@ == self.as_map()[id],
                None => !self.as_map().contains_key(id),
            },
    {
        match self.find(id) {
            Some(i) => {
                proof {
                    self.lemma_at(i as int);
                }
                Some(&self.entries[i].1)
            }
            None => None,
        }
    }

    /// In a well-formed store the entry at `i` is what the model maps its
    /// id to.
    pub proof fn lemma_at(self, i: int)
        requires
            self.wf(),
            0 <= i < self.entries@.len(),
        ensures
            self.as_map().contains_key(self.entries@[i].0),
            self.as_map()[self.entries@[i].0] == self.entries@[i].1@,
            self.index_of(self.entries@[i].0) == i,
    {
        assert(self.contains_spec(self.entries@[i].0));
        let j = self.index_of(self.entries@[i].0);
        if i < j {
            assert(self.entries@[i].0 != self.entries@[j].0);
        } else if j < i {
            assert(self.entries@[j].0 != self.entries@[i].0);
        }
    }

    /// Writes a page: inserts it or overwrites the previous bytes.
    pub fn put_page(&mut self, id: u64, data: Vec<u8>)
        requires
            old(self).wf(),
        ensures
            final(self).wf(),
            final(self).as_map() =~= old(self).as_map().insert(id, data@),
    {
        let ghost prev = *self;
        match self.find(id) {
            Some(i) => {
                let _ = self.entries.remove(i);
                self.entries.insert(i, (id, data));
                proof {
                    assert(self.entries@ =~= prev.entries@.update(i as int, (id, data)));
                    assert forall|a: int, b: int| 0 <= a < b < self.entries@.len()
                        implies (#[trigger] self.entries@[a]).0
                            != (#[trigger] self.entries@[b]).0 by {
                        assert(prev.entries@[a].0 != prev.entries@[b].0);
                        assert(prev.entries@[i as int].0 == id);
                    }
                    assert forall|x: u64| true
                        implies self.as_map().contains_key(x)
                            == prev.as_map().insert(id, data@).contains_key(x) by {
                        if self.contains_spec(x) {
                            let a = choose|a: int|
                                0 <= a < self.entries@.len()
                                    && (#[trigger] self.entries@[a]).0 == x;
                            if a != i as int {
                                assert(prev.entries@[a].0 == x);
                                assert(prev.contains_spec(x));
                            }
                        }
                        if prev.contains_spec(x) {
                            let a = choose|a: int|
                                0 <= a < prev.entries@.len()
                                    && (#[trigger] prev.entries@[a]).0 == x;
                            if a != i as int {
                                assert(self.entries@[a].0 == x);
                                assert(self.contains_spec(x));
                            } else {
                                assert(self.entries@[i as int].0 == id);
                                assert(self.contains_spec(x));
                            }
                        }
                    }
                    assert forall|x: u64| self.as_map().contains_key(x)
                        implies self.as_map()[x] == prev.as_map().insert(id, data@)[x] by {
                        let a = self.index_of(x);
                        self.lemma_at(a);
                        if x == id {
                            assert(self.entries@[i as int].0 == id);
                            self.lemma_at(i as int);
                        } else {
                            assert(a != i as int);
                            assert(prev.entries@[a].0 == x);
                            prev.lemma_at(a);
                        }
                    }
                }
            }
            None => {
                self.entries.push((id, data));
                proof {
                    assert(self.entries@ =~= prev.entries@.push((id, data)));
                    let last = prev.entries@.len() as int;
                    assert forall|a: int, b: int| 0 <= a < b < self.entries@.len()
                        implies (#[trigger] self.entries@[a]).0
                            != (#[trigger] self.entries@[b]).0 by {
                        if b < last {
                            assert(prev.entries@[a].0 != prev.entries@[b].0);
                        } else {
                            assert(self.entries@[b].0 == id);
                            assert(self.entries@[a] == prev.entries@[a]);
                            if prev.entries@[a].0 == id {
                                assert(prev.contains_spec(id));
                            }
                        }
                    }
                    assert forall|x: u64| true
                        implies self.as_map().contains_key(x)
                            == prev.as_map().insert(id, data@).contains_key(x) by {
                        if self.contains_spec(x) {
                            let a = choose|a: int|
                                0 <= a < self.entries@.len()
                                    && (#[trigger] self.entries@[a]).0 == x;
                            if a < last {
                                assert(prev.entries@[a].0 == x);
                                assert(prev.contains_spec(x));
                            }
                        }
                        if prev.contains_spec(x) {
                            let a = choose|a: int|
                                0 <= a < prev.entries@.len()
                                    && (#[trigger] prev.entries@[a]).0 == x;
                            assert(self.entries@[a].0 == x);
                            assert(self.contains_spec(x));
                        }
                        if x == id {
                            assert(self.entries@[last].0 == id);
                            assert(self.contains_spec(x));
                        }
                    }
                    assert forall|x: u64| self.as_map().contains_key(x)
                        implies self.as_map()[x] == prev.as_map().insert(id, data@)[x] by {
                        let a = self.index_of(x);
                        self.lemma_at(a);
                        if x == id {
                            assert(self.entries@[last].0 == id);
                            self.lemma_at(last);
                        } else {
                            assert(a != last);
                            assert(prev.entries@[a].0 == x);
                            prev.lemma_at(a);
                        }
                    }
                }
            }
        }
    }
}

/// A chain that reads successfully keeps reading the same value in any
/// page map that preserves the first map's pages — in particular after
/// new pages are added elsewhere.
pub proof fn lemma_chain_read_monotone(
    m1: Map<u64, Seq<u8>>,
    m2: Map<u64, Seq<u8>>,
    page_size: nat,
    start: u64,
    fuel: nat,
)
    requires
        chain_read(m1, page_size, start, fuel) is Some,
        forall|id: u64|
            #![trigger m1.contains_key(id)]
            m1.contains_key(id) ==> m2.contains_key(id) && m2[id] == m1[id],
    ensures
        chain_read(m2, page_size, start, fuel) == chain_read(m1, page_size, start, fuel),
    decreases fuel,
{
    if start == 0 {
    } else {
        assert(m1.contains_key(start));
        let pd = m1[start];
        let next = spec_u64_from_le_bytes(pd.subrange(8, 16));
        assert(chain_read(m1, page_size, next, (fuel - 1) as nat) is Some);
        lemma_chain_read_monotone(m1, m2, page_size, next, (fuel - 1) as nat);
    }
}

/// The page bytes built by the allocator expose their parts at the
/// expected offsets.
proof fn lemma_page_layout(next: u64, clen: int, crc: u32, chunk: Seq<u8>, ps: nat)
    requires
        OVERFLOW_HEADER_SIZE <= ps,
        0 <= clen <= ps - OVERFLOW_HEADER_SIZE,
        clen <= 0xFFFF_FFFF,
        chunk.len() == clen,
    ensures
        ({
            let pd = header_bytes(next, clen as u32, crc) + chunk
                + zeros((ps - OVERFLOW_HEADER_SIZE - clen) as nat);
            &&& pd.len() == ps
            &&& pd[0] == 5
            &&& pd.subrange(8, 16) =~= spec_u64_to_le_bytes(next)
            &&& pd.subrange(16, 20) =~= spec_u32_to_le_bytes(clen as u32)
            &&& pd.subrange(20, 24) =~= spec_u32_to_le_bytes(crc)
            &&& pd.subrange(OVERFLOW_HEADER_SIZE as int, OVERFLOW_HEADER_SIZE + clen) =~= chunk
        }),
{
    vstd::bytes::lemma_auto_spec_u32_to_from_le_bytes();
    vstd::bytes::lemma_auto_spec_u64_to_from_le_bytes();
}

/// Overflow integrity, the readable direction: a chain produced by the
/// allocator reads back to exactly the value it was built from, through
/// any page map that agrees with the chain's pages.
pub proof fn lemma_chain_round_trip(
    pages: Seq<(u64, Seq<u8>)>,
    start: u64,
    value: Seq<u8>,
    page_size: nat,
    m: Map<u64, Seq<u8>>,
    fuel: nat,
)
    requires
        chain_ok(pages, start, value, page_size),
        page_size <= 0xFFFF_FFFF,
        fuel >= pages.len(),
        forall|i: int|
            0 <= i < pages.len() ==> m.contains_key((#[trigger] pages[i]).0)
                && m[pages[i].0] == pages[i].1,
    ensures
        chain_read(m, page_size, start, fuel) == Some(value),
{
    let cc = (page_size - OVERFLOW_HEADER_SIZE) as int;
    vstd::arithmetic::div_mod::lemma_fundamental_div_mod(value.len() as int, cc);
    vstd::arithmetic::div_mod::lemma_mod_bound(value.len() as int, cc);
    assert(pages.len() >= 1) by (nonlinear_arith)
        requires
            pages.len() == (value.len() as int) / cc
                + if (value.len() as int) % cc != 0 { 1int } else { 0int },
            value.len() as int == ((value.len() as int) / cc) * cc + (value.len() as int) % cc,
            0 <= (value.len() as int) % cc < cc,
            value.len() >= 1,
            cc >= 1,
    {}
    lemma_chain_read_at(pages, 0, value, page_size, m, fuel);
    assert(0 * (page_size - OVERFLOW_HEADER_SIZE) == 0) by (nonlinear_arith) {}
    assert(value.subrange(0, value.len() as int) =~= value);
}

proof fn lemma_chain_read_at(
    pages: Seq<(u64, Seq<u8>)>,
    i: int,
    value: Seq<u8>,
    page_size: nat,
    m: Map<u64, Seq<u8>>,
    fuel: nat,
)
    requires
        chain_ok(pages, pages[0].0, value, page_size),
        page_size <= 0xFFFF_FFFF,
        0 <= i < pages.len(),
        fuel >= pages.len() - i,
        forall|j: int|
            0 <= j < pages.len() ==> m.contains_key((#[trigger] pages[j]).0)
                && m[pages[j].0] == pages[j].1,
    ensures
        chain_read(m, page_size, pages[i].0, fuel) == Some(
            value.subrange(i * (page_size - OVERFLOW_HEADER_SIZE), value.len() as int),
        ),
    decreases pages.len() - i,
{
    vstd::bytes::lemma_auto_spec_u32_to_from_le_bytes();
    vstd::bytes::lemma_auto_spec_u64_to_from_le_bytes();
    let cc = page_size - OVERFLOW_HEADER_SIZE;
    let n = pages.len() as int;
    let off = i * cc;
    assert(chain_entry_ok(pages, i, value, page_size));
    vstd::arithmetic::div_mod::lemma_fundamental_div_mod(value.len() as int, cc as int);
    let q = value.len() as int / cc as int;
    let rem = value.len() as int % cc as int;
    assert(0 <= rem < cc) by {
        vstd::arithmetic::div_mod::lemma_mod_bound(value.len() as int, cc as int);
    }
    // bounds on the offset of chunk i
    assert(off == i * cc);
    assert(0 <= off < value.len()) by (nonlinear_arith)
        requires
            off == i * cc,
            0 <= i < n,
            n == q + if rem != 0 { 1int } else { 0int },
            value.len() == q * cc + rem,
            0 <= rem < cc,
            cc >= 1,
    {}
    let clen = if value.len() - off < cc { value.len() - off } else { cc as int };
    let chunk = value.subrange(off, off + clen);
    let next: u64 = if i == n - 1 { 0u64 } else { pages[i + 1].0 };
    lemma_page_layout(next, clen, crc32_of(chunk), chunk, page_size);
    assert(m[pages[i].0] == pages[i].1);
    assert(pages[i].0 != 0);
    if i == n - 1 {
        assert(off + clen == value.len()) by (nonlinear_arith)
            requires
                off == i * cc,
                i == n - 1,
                n == q + if rem != 0 { 1int } else { 0int },
                value.len() == q * cc + rem,
                0 <= rem < cc,
                cc >= 1,
                clen == if value.len() - off < cc { value.len() - off } else { cc as int },
        {}
        assert(chain_read(m, page_size, 0u64, (fuel - 1) as nat) == Some(Seq::<u8>::empty()));
        assert(chunk + Seq::<u8>::empty() =~= chunk);
        assert(chunk =~= value.subrange(off, value.len() as int));
    } else {
        assert(chain_entry_ok(pages, i + 1, value, page_size));
        assert(pages[i + 1].0 != 0);
        assert(clen == cc) by (nonlinear_arith)
            requires
                off == i * cc,
                0 <= i < n - 1,
                n == q + if rem != 0 { 1int } else { 0int },
                value.len() == q * cc + rem,
                0 <= rem < cc,
                cc >= 1,
                clen == if value.len() - off < cc { value.len() - off } else { cc as int },
        {}
        lemma_chain_read_at(pages, i + 1, value, page_size, m, (fuel - 1) as nat);
        assert((i + 1) * cc == off + cc) by (nonlinear_arith)
            requires
                off == i * cc,
        {}
        assert(chunk + value.subrange(off + cc, value.len() as int)
            =~= value.subrange(off, value.len() as int));
    }
}

} // verus!

