//! The database: transactional ordered key-value storage over a single
//! data-file image, a write-ahead log and an overflow page region.
//!
//! The `Database` here owns the durable state as bytes: the data file
//! (two meta slots, an entry count, and the entries), the overflow page
//! region, and the WAL segments. A deployment keeps those bytes in files
//! and mirrors them; `DbImage` is what must survive a crash, and
//! `Database::open` rebuilds the database from it: it picks the newest
//! valid meta slot, loads the entries, and replays the WAL strictly after
//! the meta's checkpoint LSN.

use vstd::prelude::*;

use crate::bloom::BloomFilter;
use crate::bytes::clone_bytes;
use crate::checkpoint::CheckpointConfig;
use crate::checkpoint::CheckpointManager;
use crate::error::Error;
use crate::meta::Meta;
use crate::meta::META_SIZE;
use crate::meta::meta_bytes;
use crate::meta::meta_valid;
use crate::overflow::MAX_CHAIN_LENGTH;
use crate::overflow::OVERFLOW_HEADER_SIZE;
use crate::overflow::OverflowManager;
use crate::overflow::OverflowRef;
use crate::overflow::PageStore;
use crate::overflow::chain_read;
use crate::tree::Tree;
use crate::wal::SyncPolicy;
use crate::wal::Wal;
use crate::wal::WalConfig;
use crate::wal::WalSegment;
use crate::wal_record::MAX_KEY_SIZE;
use crate::wal_record::MAX_RECORD_PAYLOAD;
use crate::wal_record::RecordView;
use crate::wal_record::encode_spec;
use crate::wal_record::WalRecord;
use vstd::bytes::spec_u32_from_le_bytes;
use vstd::bytes::spec_u32_to_le_bytes;
use vstd::bytes::spec_u64_from_le_bytes;
use vstd::bytes::spec_u64_to_le_bytes;

verus! {

/// Largest value accepted by a write transaction: it must fit a WAL
/// record payload together with its key.
pub const MAX_VALUE_SIZE: usize = 60 * 1024 * 1024;

/// Cap on the entry count read from a data file.
pub const MAX_ENTRY_COUNT: u64 = 100_000_000;

/// Options for opening a database.
#[derive(Debug, Clone, Copy, PartialEq, Eq, Structural)]
pub struct DbOptions {
    /// Page size; one of 4096, 8192, 16384 or 65536.
    pub page_size: usize,
    /// Values longer than this move to overflow pages.
    pub overflow_threshold: usize,
    /// When the WAL fsyncs.
    pub sync_policy: SyncPolicy,
    /// WAL segment capacity in bytes.
    pub segment_size: usize,
    /// Checkpoint triggers.
    pub checkpoint_config: CheckpointConfig,
}

impl DbOptions {
    /// Whether the options are acceptable.
    pub open spec fn valid(self) -> bool {
        &&& (self.page_size == 4096 || self.page_size == 8192 || self.page_size == 16384
            || self.page_size == 65536)
        &&& self.overflow_threshold >= 1
        &&& self.segment_size >= MAX_RECORD_PAYLOAD
    }

    /// A preset tuned for large values: biggest pages, high overflow
    /// threshold.
    pub fn large_value_optimized() -> (r: DbOptions)
        ensures
            r.valid(),
            r.page_size == 65536,
    {
        DbOptions {
            page_size: 65536,
            overflow_threshold: 16384,
            sync_policy: SyncPolicy::Group,
            segment_size: MAX_RECORD_PAYLOAD,
            checkpoint_config: CheckpointConfig {
                interval_ms: 300_000,
                wal_threshold: 128 * 1024 * 1024,
                min_records: 10_000,
            },
        }
    }
}

/// The default options, as a specification-level value.
pub open spec fn default_options_spec() -> DbOptions {
    DbOptions {
        page_size: 4096usize,
        overflow_threshold: 2048usize,
        sync_policy: SyncPolicy::Group,
        segment_size: MAX_RECORD_PAYLOAD,
        checkpoint_config: CheckpointConfig {
            interval_ms: 300_000u64,
            wal_threshold: (128 * 1024 * 1024) as u64,
            min_records: 10_000usize,
        },
    }
}

impl Default for DbOptions {
    /// 4KB pages, 2KB overflow threshold, group commit, 64MB segments.
    fn default() -> (r: DbOptions)
        ensures
            r == default_options_spec(),
            r.valid(),
            r.page_size == 4096,
            r.overflow_threshold == 2048,
            r.segment_size == MAX_RECORD_PAYLOAD,
    {
        DbOptions {
            page_size: 4096,
            overflow_threshold: 2048,
            sync_policy: SyncPolicy::Group,
            segment_size: MAX_RECORD_PAYLOAD,
            checkpoint_config: CheckpointConfig {
                interval_ms: 300_000,
                wal_threshold: 128 * 1024 * 1024,
                min_records: 10_000,
            },
        }
    }
}

/// The durable bytes of a database: what must survive a crash.
pub struct DbImage {
    /// The data file: meta slot 0, meta slot 1, entry count, entries.
    pub data: Vec<u8>,
    /// The overflow page region.
    pub pages: PageStore,
    /// The WAL segments.
    pub wal_segments: Vec<WalSegment>,
}

// ==================== Value slots ====================
//
// The working set maps each key to a slot: either the value itself
// (tag 0) or an overflow reference (tag 1, then start page and total
// length).

/// The slot holding a value inline.
pub open spec fn slot_inline(v: Seq<u8>) -> Seq<u8> {
    seq![0u8] + v
}

/// The slot holding an overflow reference.
pub open spec fn slot_ref(start_page: u64, total_len: u32) -> Seq<u8> {
    seq![1u8] + spec_u64_to_le_bytes(start_page) + spec_u32_to_le_bytes(total_len)
}

/// Structural well-formedness of a slot.
pub open spec fn slot_wf(s: Seq<u8>) -> bool {
    (s.len() >= 1 && s[0] == 0) || (s.len() == 13 && s[0] == 1)
}

/// The value a slot denotes, given the overflow page region: inline
/// bytes directly, references by walking and checksumming the chain.
pub open spec fn resolve_slot(s: Seq<u8>, pages: Map<u64, Seq<u8>>, page_size: nat) -> Option<
    Seq<u8>,
> {
    if s.len() >= 1 && s[0] == 0 {
        Some(s.drop_first())
    } else if s.len() == 13 && s[0] == 1 {
        let start = spec_u64_from_le_bytes(s.subrange(1, 9));
        let total = spec_u32_from_le_bytes(s.subrange(9, 13));
        match chain_read(pages, page_size, start, MAX_CHAIN_LENGTH as nat) {
            Some(v) => if v.len() == total {
                Some(v)
            } else {
                None
            },
            None => None,
        }
    } else {
        None
    }
}

// ==================== Data file entries ====================

/// The serialized form of one entry: key length, key, then either the
/// value length and value (inline slot) or the overflow sentinel and
/// reference (reference slot).
pub open spec fn entry_bytes(key: Seq<u8>, slot: Seq<u8>) -> Seq<u8> {
    if slot.len() == 13 && slot[0] == 1 {
        spec_u32_to_le_bytes(key.len() as u32) + key + spec_u32_to_le_bytes(0xFFFF_FFFFu32)
            + slot.subrange(1, 13)
    } else {
        spec_u32_to_le_bytes(key.len() as u32) + key + spec_u32_to_le_bytes(
            (slot.len() - 1) as u32,
        ) + slot.drop_first()
    }
}

/// The serialized entries of the working set, in key order, from entry
/// `i` on.
pub open spec fn entries_bytes(t: Tree, i: int) -> Seq<u8>
    decreases t.len_spec() - i when 0 <= i <= t.len_spec()
{
    if i >= t.len_spec() {
        Seq::empty()
    } else {
        entry_bytes(t.key_at(i), t.val_at(i)) + entries_bytes(t, i + 1)
    }
}

/// Parses `n` entries from `data` starting at `off`: the (key, slot)
/// pairs and the offset just past them; `None` when the bytes are not
/// `n` well-formed entries.
pub open spec fn parse_entries(data: Seq<u8>, off: int, n: nat) -> Option<
    (Seq<(Seq<u8>, Seq<u8>)>, int),
>
    decreases n,
{
    if n == 0 {
        Some((Seq::empty(), off))
    } else if off < 0 || off + 8 > data.len() {
        None
    } else {
        let klen = spec_u32_from_le_bytes(data.subrange(off, off + 4)) as int;
        if klen > MAX_KEY_SIZE {
            None
        } else if off + 8 + klen > data.len() {
            None
        } else {
            let key = data.subrange(off + 4, off + 4 + klen);
            let vlen_raw = spec_u32_from_le_bytes(data.subrange(off + 4 + klen, off + 8 + klen));
            if vlen_raw == 0xFFFF_FFFFu32 {
                if off + 8 + klen + 12 > data.len() {
                    None
                } else {
                    let slot = seq![1u8] + data.subrange(off + 8 + klen, off + 8 + klen + 12);
                    match parse_entries(data, off + 8 + klen + 12, (n - 1) as nat) {
                        Some((rest, end)) => Some((seq![(key, slot)] + rest, end)),
                        None => None,
                    }
                }
            } else {
                let vlen = vlen_raw as int;
                if vlen > 512 * 1024 * 1024 {
                    None
                } else if off + 8 + klen + vlen > data.len() {
                    None
                } else {
                    let slot = seq![0u8] + data.subrange(off + 8 + klen, off + 8 + klen + vlen);
                    match parse_entries(data, off + 8 + klen + vlen, (n - 1) as nat) {
                        Some((rest, end)) => Some((seq![(key, slot)] + rest, end)),
                        None => None,
                    }
                }
            }
        }
    }
}

/// The map described by a list of (key, slot) pairs; later pairs
/// override earlier ones.
pub open spec fn map_of_pairs(pairs: Seq<(Seq<u8>, Seq<u8>)>) -> Map<Seq<u8>, Seq<u8>>
    decreases pairs.len(),
{
    if pairs.len() == 0 {
        Map::empty()
    } else {
        map_of_pairs(pairs.drop_last()).insert(pairs.last().0, pairs.last().1)
    }
}

// ==================== Replay ====================

/// One step of recovery: puts and deletes are staged; `TxBegin` and
/// `TxAbort` discard the stage; `TxCommit` applies it to the map.
pub open spec fn replay_step(
    state: (Map<Seq<u8>, Seq<u8>>, Seq<RecordView>),
    rec: RecordView,
) -> (Map<Seq<u8>, Seq<u8>>, Seq<RecordView>) {
    match rec {
        RecordView::TxBegin { .. } => (state.0, Seq::empty()),
        RecordView::TxAbort { .. } => (state.0, Seq::empty()),
        RecordView::TxCommit { .. } => (apply_ops(state.0, state.1), Seq::empty()),
        RecordView::Put { .. } => (state.0, state.1.push(rec)),
        RecordView::Delete { .. } => (state.0, state.1.push(rec)),
        RecordView::Checkpoint { .. } => state,
    }
}

/// Applies staged puts and deletes to the slot map, in order; values go
/// in as inline slots.
pub open spec fn apply_ops(m: Map<Seq<u8>, Seq<u8>>, ops: Seq<RecordView>) -> Map<Seq<u8>, Seq<u8>>
    decreases ops.len(),
{
    if ops.len() == 0 {
        m
    } else {
        let m1 = apply_ops(m, ops.drop_last());
        match ops.last() {
            RecordView::Put { key, value } => m1.insert(key, slot_inline(value)),
            RecordView::Delete { key } => m1.remove(key),
            _ => m1,
        }
    }
}

/// Folds recovery over a record list.
pub open spec fn replay_fold(
    state: (Map<Seq<u8>, Seq<u8>>, Seq<RecordView>),
    recs: Seq<RecordView>,
) -> (Map<Seq<u8>, Seq<u8>>, Seq<RecordView>)
    decreases recs.len(),
{
    if recs.len() == 0 {
        state
    } else {
        replay_step(replay_fold(state, recs.drop_last()), recs.last())
    }
}

/// The map recovered from a base map and the replayed records: only
/// committed transactions apply.
pub open spec fn recovered_map(m0: Map<Seq<u8>, Seq<u8>>, recs: Seq<RecordView>) -> Map<
    Seq<u8>,
    Seq<u8>,
> {
    replay_fold((m0, Seq::empty()), recs).0
}

/// The records of an LSN-record list.
pub open spec fn records_of(l: Seq<(int, RecordView)>) -> Seq<RecordView> {
    l.map(|i: int, p: (int, RecordView)| p.1)
}

// ==================== The database ====================

/// The main database handle.
pub struct Database {
    /// The committed working set: key to slot.
    pub tree: Tree,
    /// Negative-lookup accelerator; covers every key of the tree.
    pub bloom: BloomFilter,
    /// The write-ahead log.
    pub wal: Wal,
    /// The overflow page region.
    pub pages: PageStore,
    /// Overflow allocation state.
    pub overflow: OverflowManager,
    /// Freed pages awaiting reuse at the next full checkpoint.
    pub freelist: crate::freelist::FreeList,
    /// Checkpoint triggers and progress.
    pub checkpoints: CheckpointManager,
    /// Transaction id of the last committed transaction.
    pub txid: u64,
    /// All WAL records at or below this LSN are reflected in the data
    /// file.
    pub checkpoint_lsn: u64,
    /// Page size chosen at creation.
    pub page_size: usize,
    /// Values longer than this move to overflow pages.
    pub overflow_threshold: usize,
    /// The data file bytes.
    pub data: Vec<u8>,
}

impl Database {
    /// The resolved value of a key, through the overflow region.
    pub open spec fn resolve(self, k: Seq<u8>) -> Option<Seq<u8>> {
        resolve_slot(self.tree.as_map()[k], self.pages.as_map(), self.page_size as nat)
    }

    /// Well-formedness of the database.
    pub open spec fn wf(self) -> bool {
        &&& self.tree.wf()
        &&& self.bloom.wf()
        &&& self.wal.wf()
        &&& self.wal.segment_size >= MAX_RECORD_PAYLOAD
        &&& self.pages.wf()
        &&& self.overflow.wf()
        &&& self.overflow.page_size == self.page_size
        &&& self.overflow.free_pages@.len() == 0
        &&& (self.page_size == 4096 || self.page_size == 8192 || self.page_size == 16384
            || self.page_size == 65536)
        &&& self.overflow_threshold >= 1
        // every key of the working set is covered by the bloom filter
        &&& forall|k: Seq<u8>|
            self.tree.as_map().contains_key(k) ==> self.bloom.contains_spec(k)
        // slots are structurally well-formed and keys bounded
        &&& forall|k: Seq<u8>|
            self.tree.as_map().contains_key(k) ==> slot_wf(#[trigger] self.tree.as_map()[k])
                && self.tree.as_map()[k].len() <= 512 * 1024 * 1024 + 1
        &&& forall|k: Seq<u8>| #[trigger]
            self.tree.as_map().contains_key(k) ==> k.len() <= MAX_KEY_SIZE
        // overflow pages all lie below the allocation frontier
        &&& forall|id: u64|
            self.pages.as_map().contains_key(id) ==> 1 <= id < self.overflow.next_page_id
        // the data file holds at least the meta slots and the count
        &&& self.data@.len() >= 2 * self.page_size + 8
        &&& self.checkpoint_lsn <= self.wal.end_lsn_int()
    }

    /// The bytes of meta slot `i` in the data file.
    pub open spec fn meta_slot_bytes(self, i: int) -> Seq<u8> {
        self.data@.subrange(i * self.page_size, i * self.page_size + META_SIZE)
    }

    /// Creates a fresh, empty database.
    pub fn create(options: DbOptions) -> (r: Database)
        requires
            options.valid(),
        ensures
            r.wf(),
            r.txid == 0,
            r.checkpoint_lsn == 0,
            r.tree.as_map() =~= Map::<Seq<u8>, Seq<u8>>::empty(),
            r.page_size == options.page_size,
            r.overflow_threshold == options.overflow_threshold,
    {
        let ps = options.page_size;
        let meta0 = Meta::new(ps as u32, 0, 0, 0, 0, 0, 0);
        let meta0_bytes_v = meta0.to_bytes();
        let mut data: Vec<u8> = meta0_bytes_v;
        // pad meta slot 0 to a page, leave slot 1 invalid (zeroed), and
        // write a zero entry count
        let target0 = ps;
        extend_zeros(&mut data, target0);
        let target1 = 2 * ps;
        extend_zeros(&mut data, target1);
        let mut count_bytes = vstd::bytes::u64_to_le_bytes(0);
        data.append(&mut count_bytes);
        let wal = Wal::new(WalConfig {
            segment_size: options.segment_size,
            sync_policy: options.sync_policy,
        });
        Database {
            tree: Tree::new(),
            bloom: BloomFilter::with_capacity(1024),
            wal,
            pages: PageStore::new(),
            overflow: OverflowManager::new(ps, 1),
            freelist: crate::freelist::FreeList::new(),
            checkpoints: CheckpointManager::new(options.checkpoint_config),
            txid: 0,
            checkpoint_lsn: 0,
            page_size: ps,
            overflow_threshold: options.overflow_threshold,
            data,
        }
    }

    /// Begins a read transaction: a snapshot view of the database.
    pub fn read_tx(&self) -> (r: crate::tx::ReadTx<'_>)
        ensures
            r.db == self,
    {
        crate::tx::ReadTx { db: self }
    }

    /// Begins a write transaction: an empty staging area whose changes
    /// become visible only when committed into this database.
    pub fn write_tx(&mut self) -> (r: crate::tx::WriteTx)
        ensures
            *final(self) == *old(self),
            r.pending.wf(),
            r.pending.as_map() =~= Map::<Seq<u8>, Seq<u8>>::empty(),
            r.deleted@.len() == 0,
            r.wf(),
    {
        crate::tx::WriteTx { pending: Tree::new(), deleted: Vec::new() }
    }

    /// Looks a key up: the bloom filter first, then the working set,
    /// materializing overflow values; `Corrupted` when an overflow chain
    /// fails its checks.
    pub fn get(&self, key: &[u8]) -> (r: Result<Option<Vec<u8>>, Error>)
        requires
            self.wf(),
        ensures
            match r {
                Ok(Some(v)) => self.tree.as_map().contains_key(key@) && self.resolve(key@)
                    == Some(v@),
                Ok(None) => !self.tree.as_map().contains_key(key@),
                Err(e) => self.tree.as_map().contains_key(key@) && self.resolve(key@) is None
                    && e is Corrupted,
            },
    {
        if !self.bloom.may_contain(key) {
            proof {
                if self.tree.as_map().contains_key(key@) {
                    assert(self.bloom.contains_spec(key@));
                }
            }
            return Ok(None);
        }
        match self.tree.get(key) {
            None => Ok(None),
            Some(slot) => {
                proof {
                    assert(slot_wf(slot@));
                }
                if slot.len() >= 1 && slot[0] == 0 {
                    let v = vstd::slice::slice_subrange(slot.as_slice(), 1, slot.len());
                    proof {
                        assert(v@ =~= slot@.drop_first());
                    }
                    Ok(Some(vstd::slice::slice_to_vec(v)))
                } else {
                    let start = vstd::bytes::u64_from_le_bytes(
                        vstd::slice::slice_subrange(slot.as_slice(), 1, 9),
                    );
                    let total = vstd::bytes::u32_from_le_bytes(
                        vstd::slice::slice_subrange(slot.as_slice(), 9, 13),
                    );
                    let oref = OverflowRef { start_page: start, total_len: total };
                    match self.overflow.read_overflow(oref, &self.pages) {
                        Some(v) => Ok(Some(v)),
                        None => Err(Error::Corrupted("overflow chain failed checks".to_owned())),
                    }
                }
            }
        }
    }

    /// Returns the number of committed entries.
    pub fn entry_count(&self) -> (r: usize)
        ensures
            r == self.tree.len_spec(),
    {
        self.tree.len()
    }

    /// Returns the transaction id of the last commit.
    pub fn current_txid(&self) -> (r: u64)
        ensures
            r == self.txid,
    {
        self.txid
    }

    /// Copies the durable bytes out: what a crash would leave behind
    /// after everything has been synced.
    pub fn image(&self) -> (r: DbImage)
        ensures
            r.data@ == self.data@,
            r.pages.entries@.len() == self.pages.entries@.len(),
            forall|i: int|
                0 <= i < r.pages.entries@.len() ==> (#[trigger] r.pages.entries@[i]).0
                    == self.pages.entries@[i].0 && r.pages.entries@[i].1@
                    == self.pages.entries@[i].1@,
            r.wal_segments@.len() == self.wal.segments@.len(),
            forall|i: int|
                0 <= i < r.wal_segments@.len() ==> (#[trigger] r.wal_segments@[i])@
                    == self.wal.segments@[i]@,
    {
        let data = clone_bytes(&self.data);
        let mut pages = PageStore { entries: Vec::new() };
        let mut i: usize = 0;
        while i < self.pages.entries.len()
            invariant
                0 <= i <= self.pages.entries@.len(),
                pages.entries@.len() == i,
                forall|j: int|
                    0 <= j < i ==> (#[trigger] pages.entries@[j]).0 == self.pages.entries@[j].0
                        && pages.entries@[j].1@ == self.pages.entries@[j].1@,
            decreases self.pages.entries@.len() - i,
        {
            let id = self.pages.entries[i].0;
            let bytes_copy = clone_bytes(&self.pages.entries[i].1);
            pages.entries.push((id, bytes_copy));
            i += 1;
        }
        let mut wal_segments: Vec<WalSegment> = Vec::new();
        let mut j: usize = 0;
        while j < self.wal.segments.len()
            invariant
                0 <= j <= self.wal.segments@.len(),
                wal_segments@.len() == j,
                forall|a: int|
                    0 <= a < j ==> (#[trigger] wal_segments@[a])@ == self.wal.segments@[a]@,
            decreases self.wal.segments@.len() - j,
        {
            let id = self.wal.segments[j].id;
            let seg_data = clone_bytes(&self.wal.segments[j].data);
            wal_segments.push(WalSegment { id, data: seg_data });
            j += 1;
        }
        DbImage { data, pages, wal_segments }
    }
}

/// Machine headroom for one commit: the staged puts' overflow pages fit
/// the 64-bit page-id space, and the transaction's records fit the
/// 64-bit LSN space with room to spare (each append advances the log by
/// at most one record plus one segment roll). A commit may fail only
/// without this headroom.
pub open spec fn commit_headroom(pre: Database, tx: crate::tx::WriteTx) -> bool {
    &&& pre.overflow.next_page_id + spent_bound(tx.pending, tx.pending.len_spec() as int) + 1
        <= u64::MAX
    &&& pre.wal.end_lsn_int() + 2 * (pre.wal.segment_size as int) * (tx.pending.len_spec()
        + tx.deleted@.len() + 3) <= u64::MAX
}

/// A log whose last segment id has reached the top of the addressable
/// range, while the log has grown by at most `extra` appends since the
/// commit began, leaves the commit without headroom.
proof fn lemma_wal_full_no_headroom(
    pre: Database,
    tx: crate::tx::WriteTx,
    w: crate::wal::Wal,
    extra: int,
)
    requires
        w.wf(),
        w.segment_size == pre.wal.segment_size,
        pre.wal.segment_size >= 64,
        w.segs().len() > 0,
        w.segs()[w.segs().len() - 1].id >= u64::MAX / (w.segment_size as u64) - 1,
        w.end_lsn_int() <= pre.wal.end_lsn_int() + 2 * (pre.wal.segment_size as int) * extra,
        0 <= extra <= tx.pending.len_spec() + tx.deleted@.len() + 1,
    ensures
        !commit_headroom(pre, tx),
{
    let ss = pre.wal.segment_size as int;
    let q = u64::MAX as int / ss;
    let id = w.segs()[w.segs().len() - 1].id as int;
    assert(w.end_lsn_int() >= id * ss) by {
        assert(w.segs()[w.segs().len() - 1].data.len() >= 0);
    }
    vstd::arithmetic::div_mod::lemma_fundamental_div_mod(u64::MAX as int, ss);
    vstd::arithmetic::div_mod::lemma_mod_bound(u64::MAX as int, ss);
    assert(q * ss > u64::MAX - ss);
    assert(id * ss >= (q - 1) * ss) by (nonlinear_arith)
        requires
            id >= q - 1,
            ss > 0,
    {}
    assert((q - 1) * ss == q * ss - ss) by (nonlinear_arith) {}
    assert(w.end_lsn_int() > u64::MAX - 2 * ss);
    let n = tx.pending.len_spec() + tx.deleted@.len();
    assert(pre.wal.end_lsn_int() + 2 * ss * (n + 3) > u64::MAX) by (nonlinear_arith)
        requires
            pre.wal.end_lsn_int() + 2 * ss * extra >= w.end_lsn_int(),
            w.end_lsn_int() > u64::MAX - 2 * ss,
            0 <= extra <= n + 1,
            ss >= 64,
    {}
}

/// What a successful or failed commit guarantees, relating the database
/// before and after to the staged transaction.
pub open spec fn commit_post(
    pre: Database,
    post: Database,
    tx: crate::tx::WriteTx,
    r: Result<(), Error>,
) -> bool {
    match r {
        Ok(_) => {
            // the serial order advances by one transaction
            &&& post.txid == pre.txid + 1
            // round trip: every staged put reads back as the staged value
            &&& forall|k: Seq<u8>| #[trigger]
                tx.pending.as_map().contains_key(k) ==> post.tree.as_map().contains_key(k)
                    && post.resolve(k) == Some(tx.pending.as_map()[k])
            // every staged delete is gone
            &&& forall|k: Seq<u8>|
                crate::bucket::keys_view(tx.deleted@).contains(k) ==> !post.tree.as_map().contains_key(
                    k,
                )
            // every other key is untouched
            &&& forall|k: Seq<u8>|
                !tx.pending.as_map().contains_key(k) && !crate::bucket::keys_view(
                    tx.deleted@,
                ).contains(k) ==> #[trigger] post.tree.as_map().contains_key(k)
                    == pre.tree.as_map().contains_key(k) && (pre.tree.as_map().contains_key(k)
                    ==> post.tree.as_map()[k] == pre.tree.as_map()[k] && (pre.resolve(k) is Some
                    ==> post.resolve(k) == pre.resolve(k)))
            // meta alternation: the slot selected by the new txid's parity
            // holds a valid meta recording the new state, and the other
            // slot's bytes are untouched
            &&& exists|m: Meta|
                {
                    &&& post.meta_slot_bytes(((pre.txid + 1) % 2) as int) =~= meta_bytes(m)
                    &&& #[trigger] meta_valid(m)
                    &&& m.txid == post.txid
                    &&& m.entry_count == post.tree.len_spec()
                    &&& m.checkpoint_lsn == post.checkpoint_lsn
                    &&& m.page_size as int == post.page_size as int
                }
            &&& post.meta_slot_bytes((pre.txid % 2) as int) =~= pre.meta_slot_bytes(
                (pre.txid % 2) as int,
            )
            // durability: the commit returns only after the WAL covering
            // its records is synced
            &&& post.wal.synced == post.wal.end_lsn_int()
            &&& post.wal.end_lsn_int() > pre.wal.end_lsn_int()
            &&& post.checkpoint_lsn == pre.checkpoint_lsn
            &&& post.page_size == pre.page_size
            &&& post.overflow_threshold == pre.overflow_threshold
        },
        Err(e) => {
            &&& e is TxCommitFailed
            // failure only without machine headroom: success is owed on
            // every input with room in the id and LSN spaces
            &&& !commit_headroom(pre, tx)
            &&& post.tree == pre.tree
            &&& post.txid == pre.txid
            &&& post.data == pre.data
            &&& post.pages == pre.pages
            &&& post.checkpoint_lsn == pre.checkpoint_lsn
            &&& post.page_size == pre.page_size
        },
    }
}

impl Database {
    /// Commits a staged transaction: writes its records to the WAL,
    /// syncs, applies the staged changes to the working set and the
    /// bloom filter, persists the data file, and advances the meta slot
    /// of the new txid's parity.
    #[verifier::loop_isolation(false)]
    #[verifier::rlimit(100)]
    #[verifier::spinoff_prover]
    pub fn commit_tx(&mut self, tx: crate::tx::WriteTx) -> (r: Result<(), Error>)
        requires
            old(self).wf(),
            tx.wf(),
            old(self).txid < u64::MAX,
        ensures
            final(self).wf(),
            commit_post(*old(self), *final(self), tx, r),
    {
        let ghost pre = *self;
        let ghost ss = pre.wal.segment_size as int;
        let new_txid = self.txid + 1;

        // guard the overflow id space before touching anything
        let mut space_needed: u64 = 1;
        let np = tx.pending.num_entries();
        let mut i: usize = 0;
        while i < np
            invariant
                0 <= i <= np,
                np == tx.pending.len_spec(),
                tx.wf(),
                space_needed == 1 + spent_bound(tx.pending, i as int),
            decreases np - i,
        {
            proof {
                tx.pending.lemma_entry_in_map(i as int);
                lemma_spent_bound_step(tx.pending, i as int);
                lemma_spent_bound_nonneg(tx.pending, i as int);
            }
            let vlen = tx.pending.val_at_idx(i).len() as u64;
            if space_needed > u64::MAX - (vlen + 2) {
                proof {
                    lemma_spent_bound_mono(tx.pending, i as int + 1, np as int);
                    assert(pre.overflow.next_page_id + spent_bound(tx.pending, np as int) + 1
                        > u64::MAX);
                    assert(!commit_headroom(pre, tx));
                }
                return Err(Error::TxCommitFailed {
                    reason: "overflow page id space exhausted".to_owned(),
                });
            }
            space_needed = space_needed + vlen + 2;
            i += 1;
        }
        if self.overflow.next_page_id() > u64::MAX - space_needed {
            proof {
                assert(pre.overflow.next_page_id + spent_bound(tx.pending, np as int) + 1
                    > u64::MAX);
                assert(!commit_headroom(pre, tx));
            }
            return Err(Error::TxCommitFailed {
                reason: "overflow page id space exhausted".to_owned(),
            });
        }

        // 1. WAL: TxBegin, one record per staged mutation, TxCommit
        let begin = WalRecord::TxBegin { txid: new_txid };
        proof {
            vstd::bytes::lemma_auto_spec_u64_to_from_le_bytes();
        }
        proof {
            assert(2 * ss * 0 == 0) by (nonlinear_arith) {}
        }
        match self.wal.append(&begin) {
            Ok(_) => {}
            Err(_) => {
                proof {
                    lemma_wal_full_no_headroom(pre, tx, pre.wal, 0);
                }
                return Err(Error::TxCommitFailed { reason: "wal append failed".to_owned() });
            }
        }
        proof {
            assert(encode_spec(begin@).len() <= ss) by {
                vstd::bytes::lemma_auto_spec_u32_to_from_le_bytes();
                vstd::bytes::lemma_auto_spec_u64_to_from_le_bytes();
            }
            assert(2 * ss * 1 == 2 * ss) by (nonlinear_arith) {}
            assert(self.wal.end_lsn_int() <= pre.wal.end_lsn_int() + 2 * ss * 1);
        }
        let mut i: usize = 0;
        while i < np
            invariant
                0 <= i <= np,
                np == tx.pending.len_spec(),
                tx.wf(),
                self.wal.wf(),
                self.wal.segment_size == pre.wal.segment_size,
                self.wal.sync_policy == pre.wal.sync_policy,
                self.wal.segment_size >= MAX_RECORD_PAYLOAD,
                self.wal.end_lsn_int() >= pre.wal.end_lsn_int(),
                self.wal.end_lsn_int() <= pre.wal.end_lsn_int() + 2 * ss * (1 + i),
                self.tree == pre.tree,
                self.bloom == pre.bloom,
                self.pages == pre.pages,
                self.overflow == pre.overflow,
                self.freelist == pre.freelist,
                self.checkpoints == pre.checkpoints,
                self.txid == pre.txid,
                self.checkpoint_lsn == pre.checkpoint_lsn,
                self.page_size == pre.page_size,
                self.overflow_threshold == pre.overflow_threshold,
                self.data == pre.data,
            decreases np - i,
        {
            proof {
                tx.pending.lemma_entry_in_map(i as int);
                vstd::bytes::lemma_auto_spec_u32_to_from_le_bytes();
                assert(2 * ss * (1 + i) <= 2 * ss * (1 + np)) by (nonlinear_arith)
                    requires
                        0 <= i < np,
                        ss >= 64,
                {}
            }
            let rec = WalRecord::Put {
                key: clone_bytes(tx.pending.key_at_idx(i)),
                value: clone_bytes(tx.pending.val_at_idx(i)),
            };
            match self.wal.append(&rec) {
                Ok(_) => {}
                Err(_) => {
                    proof {
                        lemma_wal_full_no_headroom(pre, tx, self.wal, 1 + i as int);
                    }
                    return Err(Error::TxCommitFailed { reason: "wal append failed".to_owned() });
                }
            }
            proof {
                assert(encode_spec(rec@).len() <= ss);
                assert(2 * ss * (1 + i) + 2 * ss == 2 * ss * (1 + (i + 1))) by (nonlinear_arith)
                    {}
            }
            i += 1;
        }
        let nd = tx.deleted.len();
        let mut i: usize = 0;
        while i < nd
            invariant
                0 <= i <= nd,
                nd == tx.deleted@.len(),
                tx.wf(),
                self.wal.wf(),
                self.wal.segment_size == pre.wal.segment_size,
                self.wal.sync_policy == pre.wal.sync_policy,
                self.wal.segment_size >= MAX_RECORD_PAYLOAD,
                self.wal.end_lsn_int() >= pre.wal.end_lsn_int(),
                self.wal.end_lsn_int() <= pre.wal.end_lsn_int() + 2 * ss * (1 + np + i),
                self.tree == pre.tree,
                self.bloom == pre.bloom,
                self.pages == pre.pages,
                self.overflow == pre.overflow,
                self.freelist == pre.freelist,
                self.checkpoints == pre.checkpoints,
                self.txid == pre.txid,
                self.checkpoint_lsn == pre.checkpoint_lsn,
                self.page_size == pre.page_size,
                self.overflow_threshold == pre.overflow_threshold,
                self.data == pre.data,
            decreases nd - i,
        {
            proof {
                vstd::bytes::lemma_auto_spec_u32_to_from_le_bytes();
                assert(2 * ss * (1 + np + i) <= 2 * ss * (1 + np + nd)) by (nonlinear_arith)
                    requires
                        0 <= i < nd,
                        0 <= np,
                        ss >= 64,
                {}
            }
            let rec = WalRecord::Delete { key: clone_bytes(&tx.deleted[i]) };
            match self.wal.append(&rec) {
                Ok(_) => {}
                Err(_) => {
                    proof {
                        lemma_wal_full_no_headroom(pre, tx, self.wal, 1 + np as int + i as int);
                    }
                    return Err(Error::TxCommitFailed { reason: "wal append failed".to_owned() });
                }
            }
            proof {
                assert(encode_spec(rec@).len() <= ss);
                assert(2 * ss * (1 + np + i) + 2 * ss == 2 * ss * (1 + np + (i + 1)))
                    by (nonlinear_arith) {}
            }
            i += 1;
        }
        let commit_rec = WalRecord::TxCommit { txid: new_txid };
        let commit_lsn = match self.wal.append(&commit_rec) {
            Ok(lsn) => lsn,
            Err(_) => {
                proof {
                    lemma_wal_full_no_headroom(pre, tx, self.wal, 1 + np as int + nd as int);
                }
                return Err(Error::TxCommitFailed { reason: "wal append failed".to_owned() });
            }
        };

        // 2. group durability boundary: sync the WAL
        match self.wal.sync() {
            Ok(_) => {}
            Err(_) => {
                return Err(Error::TxCommitFailed { reason: "wal sync failed".to_owned() });
            }
        }
        let ghost wal_synced = self.wal;

        // 3. apply tombstones to the working set
        crate::bucket::remove_keys(&mut self.tree, &tx.deleted);
        let ghost tree_after_deletes = self.tree;

        // 4. apply staged puts; large values go to overflow chains
        let mut entry_blob: Vec<u8> = Vec::new();
        let mut i: usize = 0;
        while i < np
            invariant
                0 <= i <= np,
                np == tx.pending.len_spec(),
                tx.wf(),
                self.wal == wal_synced,
                self.wal.wf(),
                self.wal.segment_size >= MAX_RECORD_PAYLOAD,
                self.freelist == pre.freelist,
                self.checkpoints == pre.checkpoints,
                self.txid == pre.txid,
                self.checkpoint_lsn == pre.checkpoint_lsn,
                self.page_size == pre.page_size,
                self.overflow_threshold == pre.overflow_threshold,
                self.data == pre.data,
                self.tree.wf(),
                self.bloom.wf(),
                self.pages.wf(),
                self.overflow.wf(),
                self.overflow.page_size == self.page_size,
                self.overflow.free_pages@.len() == 0,
                self.bloom.num_bits == pre.bloom.num_bits,
                self.bloom.num_hashes == pre.bloom.num_hashes,
                // id space: the frontier never outruns the guard
                self.overflow.next_page_id >= pre.overflow.next_page_id,
                self.overflow.next_page_id as int <= pre.overflow.next_page_id as int
                    + spent_bound(tx.pending, i as int),
                pre.overflow.next_page_id + space_needed <= u64::MAX,
                1 + spent_bound(tx.pending, np as int) <= space_needed,
                // pages grow monotonically and stay below the frontier
                forall|id: u64|
                    #![trigger pre.pages.as_map().contains_key(id)]
                    pre.pages.as_map().contains_key(id) ==> self.pages.as_map().contains_key(id)
                        && self.pages.as_map()[id] == pre.pages.as_map()[id],
                forall|id: u64|
                    self.pages.as_map().contains_key(id) ==> 1 <= id
                        < self.overflow.next_page_id,
                // bloom only grows
                forall|k: Seq<u8>|
                    pre.bloom.contains_spec(k) ==> #[trigger] self.bloom.contains_spec(k),
                forall|j: int|
                    0 <= j < i ==> self.bloom.contains_spec(#[trigger] tx.pending.key_at(j)),
                // tree: processed puts in place, everything else as after
                // the deletes
                forall|j: int|
                    0 <= j < i ==> #[trigger] self.tree.as_map().contains_key(
                        tx.pending.key_at(j),
                    ) && slot_wf(self.tree.as_map()[tx.pending.key_at(j)])
                        && self.tree.as_map()[tx.pending.key_at(j)].len() <= MAX_VALUE_SIZE + 1
                        && tx.pending.key_at(j).len() <= MAX_KEY_SIZE
                        && resolve_slot(
                        self.tree.as_map()[tx.pending.key_at(j)],
                        self.pages.as_map(),
                        self.page_size as nat,
                    ) == Some(tx.pending.val_at(j)),
                forall|k: Seq<u8>|
                    #![trigger self.tree.as_map().contains_key(k)]
                    !(tx.pending.as_map().contains_key(k) && tx.pending.index_of(k) < i)
                        ==> self.tree.as_map().contains_key(k)
                            == tree_after_deletes.as_map().contains_key(k)
                        && (tree_after_deletes.as_map().contains_key(k)
                            ==> self.tree.as_map()[k] == tree_after_deletes.as_map()[k]),
            decreases np - i,
        {
            proof {
                tx.pending.lemma_entry_in_map(i as int);
                tx.pending.lemma_keys_unique();
                lemma_spent_bound_step(tx.pending, i as int);
                lemma_spent_bound_mono(tx.pending, i as int + 1, np as int);
                assert(self.overflow.next_page_id as int + tx.pending.val_at(i as int).len() + 1
                    <= u64::MAX);
            }
            let key = clone_bytes(tx.pending.key_at_idx(i));
            let value = clone_bytes(tx.pending.val_at_idx(i));
            let ghost pages_before = self.pages.as_map();
            let ghost bloom_before = self.bloom;
            let slot: Vec<u8>;
            if value.len() > self.overflow_threshold {
                let ghost next0 = self.overflow.next_page_id;
                let (oref, chpages) = self.overflow.allocate_overflow(value.as_slice());
                proof {
                    assert(value@.len() >= 1);
                    assert forall|a: int| 0 <= a < chpages@.len()
                        implies (#[trigger] chpages@[a]).0 == next0 + a by {}
                }
                let mut pi: usize = 0;
                let ghost chview = crate::overflow::pages_view(chpages@);
                let ghost ov_after = self.overflow;
                let ghost tree_snap = self.tree;
                let ghost bloom_snap = self.bloom;
                while pi < chpages.len()
                    invariant
                        0 <= pi <= chpages@.len(),
                        chview == crate::overflow::pages_view(chpages@),
                        self.overflow == ov_after,
                        self.tree == tree_snap,
                        self.bloom == bloom_snap,
                        self.wal == wal_synced,
                        self.freelist == pre.freelist,
                        self.checkpoints == pre.checkpoints,
                        self.txid == pre.txid,
                        self.checkpoint_lsn == pre.checkpoint_lsn,
                        self.page_size == pre.page_size,
                        self.overflow_threshold == pre.overflow_threshold,
                        self.data == pre.data,
                        self.pages.wf(),
                        next0 >= 1,
                        next0 as int + chpages@.len() <= self.overflow.next_page_id,
                        forall|a: int|
                            0 <= a < chpages@.len() ==> (#[trigger] chpages@[a]).0
                                == next0 + a,
                        forall|id: u64|
                            pages_before.contains_key(id) ==> id < next0,
                        forall|j: int|
                            0 <= j < pi ==> self.pages.as_map().contains_key(
                                (#[trigger] chpages@[j]).0,
                            ) && self.pages.as_map()[chpages@[j].0] == chpages@[j].1@,
                        forall|id: u64|
                            #![trigger pages_before.contains_key(id)]
                            pages_before.contains_key(id)
                                ==> self.pages.as_map().contains_key(id)
                                    && self.pages.as_map()[id] == pages_before[id],
                        forall|id: u64|
                            self.pages.as_map().contains_key(id) ==> pages_before.contains_key(
                                id,
                            ) || next0 <= id < next0 + pi,
                    decreases chpages@.len() - pi,
                {
                    let id = chpages[pi].0;
                    let page_copy = clone_bytes(&chpages[pi].1);
                    self.pages.put_page(id, page_copy);
                    proof {
                        assert(chpages@[pi as int].0 == id);
                        assert(id == next0 + pi);
                        assert forall|j: int| 0 <= j < pi + 1
                            implies self.pages.as_map().contains_key(
                                (#[trigger] chpages@[j]).0,
                            ) && self.pages.as_map()[chpages@[j].0] == chpages@[j].1@ by {
                            if j < pi {
                                assert(chpages@[j].0 == next0 + j);
                                assert(chpages@[j].0 != id);
                            }
                        }
                        assert forall|id2: u64|
                            #![trigger pages_before.contains_key(id2)]
                            pages_before.contains_key(id2)
                            implies self.pages.as_map().contains_key(id2)
                                && self.pages.as_map()[id2] == pages_before[id2] by {
                            assert(id2 < next0);
                            assert(id2 != id);
                        }
                    }
                    pi += 1;
                }
                let mut s: Vec<u8> = Vec::new();
                s.push(1u8);
                let mut oref_bytes = oref.to_bytes();
                s.append(&mut oref_bytes);
                proof {
                    assert(s@ =~= slot_ref(oref.start_page, oref.total_len));
                    vstd::bytes::lemma_auto_spec_u32_to_from_le_bytes();
                    vstd::bytes::lemma_auto_spec_u64_to_from_le_bytes();
                    assert(s@.subrange(1, 9) =~= spec_u64_to_le_bytes(oref.start_page));
                    assert(s@.subrange(9, 13) =~= spec_u32_to_le_bytes(oref.total_len));
                    // the freshly written chain reads back as the value
                    let cc = self.page_size - OVERFLOW_HEADER_SIZE;
                    assert(pre.wf());
                    assert(pre.page_size == 4096 || pre.page_size == 8192
                        || pre.page_size == 16384 || pre.page_size == 65536);
                    assert(self.page_size >= 4096);
                    assert(cc >= 4072);
                    vstd::arithmetic::div_mod::lemma_fundamental_div_mod(
                        value@.len() as int,
                        cc as int,
                    );
                    vstd::arithmetic::div_mod::lemma_mod_bound(value@.len() as int, cc as int);
                    assert(chview.len() <= MAX_CHAIN_LENGTH) by (nonlinear_arith)
                        requires
                            chview.len() == (value@.len() as int) / (cc as int)
                                + if (value@.len() as int) % (cc as int) != 0 { 1int } else { 0int },
                            value@.len() as int == ((value@.len() as int) / (cc as int)) * cc
                                + (value@.len() as int) % (cc as int),
                            0 <= (value@.len() as int) % (cc as int),
                            ((value@.len() as int) % (cc as int)) < cc,
                            1 <= value@.len() <= MAX_VALUE_SIZE,
                            cc >= 4072,
                            MAX_CHAIN_LENGTH == 1_000_000,
                    {}
                    crate::overflow::lemma_chain_round_trip(
                        chview,
                        oref.start_page,
                        value@,
                        self.page_size as nat,
                        self.pages.as_map(),
                        MAX_CHAIN_LENGTH as nat,
                    );
                    assert(resolve_slot(s@, self.pages.as_map(), self.page_size as nat)
                        == Some(value@));
                }
                slot = s;
            } else {
                let mut s: Vec<u8> = Vec::new();
                s.push(0u8);
                let mut value_copy = clone_bytes(&value);
                s.append(&mut value_copy);
                proof {
                    assert(s@ =~= slot_inline(value@));
                    assert(s@.drop_first() =~= value@);
                }
                slot = s;
            }
            let ghost slot_view = slot@;
            let mut ent = encode_entry(key.as_slice(), slot.as_slice());
            entry_blob.append(&mut ent);
            let ghost tree_before = self.tree;
            let _ = self.tree.insert(key, slot);
            self.bloom.insert(tx.pending.key_at_idx(i).as_slice());
            proof {
                // previously processed puts still resolve: their chains
                // are untouched by this iteration's fresh pages
                assert forall|j: int| 0 <= j < i + 1
                    implies #[trigger] self.tree.as_map().contains_key(tx.pending.key_at(j))
                        && slot_wf(self.tree.as_map()[tx.pending.key_at(j)])
                        && self.tree.as_map()[tx.pending.key_at(j)].len() <= MAX_VALUE_SIZE + 1
                        && tx.pending.key_at(j).len() <= MAX_KEY_SIZE
                        && resolve_slot(
                        self.tree.as_map()[tx.pending.key_at(j)],
                        self.pages.as_map(),
                        self.page_size as nat,
                    ) == Some(tx.pending.val_at(j)) by {
                    tx.pending.lemma_entry_in_map(j);
                    if j < i {
                        assert(tx.pending.key_at(j) != tx.pending.key_at(i as int));
                        assert(tree_before.as_map().contains_key(tx.pending.key_at(j)));
                        assert(self.tree.as_map()[tx.pending.key_at(j)]
                            == tree_before.as_map()[tx.pending.key_at(j)]);
                        let sj = tree_before.as_map()[tx.pending.key_at(j)];
                        if sj.len() == 13 && sj[0] == 1 {
                            crate::overflow::lemma_chain_read_monotone(
                                pages_before,
                                self.pages.as_map(),
                                self.page_size as nat,
                                spec_u64_from_le_bytes(sj.subrange(1, 9)),
                                MAX_CHAIN_LENGTH as nat,
                            );
                        }
                    } else {
                        assert(self.tree.as_map()[tx.pending.key_at(j)] == slot_view);
                    }
                }
                assert forall|k: Seq<u8>|
                    pre.bloom.contains_spec(k) implies #[trigger] self.bloom.contains_spec(k) by {
                    crate::bloom::lemma_no_false_negatives(bloom_before, self.bloom, k);
                }
                assert forall|j: int| 0 <= j < i + 1
                    implies self.bloom.contains_spec(#[trigger] tx.pending.key_at(j)) by {
                    if j < i {
                        crate::bloom::lemma_no_false_negatives(
                            bloom_before,
                            self.bloom,
                            tx.pending.key_at(j),
                        );
                    }
                }
                assert forall|id: u64|
                    self.pages.as_map().contains_key(id) implies 1 <= id
                        < self.overflow.next_page_id by {
                    if pages_before.contains_key(id) {
                    }
                }
                assert forall|k: Seq<u8>|
                    #![trigger self.tree.as_map().contains_key(k)]
                    !(tx.pending.as_map().contains_key(k) && tx.pending.index_of(k) < i + 1)
                    implies self.tree.as_map().contains_key(k)
                        == tree_after_deletes.as_map().contains_key(k)
                        && (tree_after_deletes.as_map().contains_key(k)
                            ==> self.tree.as_map()[k] == tree_after_deletes.as_map()[k]) by {
                    assert(tx.pending.as_map().contains_key(tx.pending.key_at(i as int)));
                    assert(tx.pending.index_of(tx.pending.key_at(i as int)) == i);
                    assert(tx.pending.key_at(i as int) != k);
                    assert(!(tx.pending.as_map().contains_key(k) && tx.pending.index_of(k) < i));
                    assert(tree_before.as_map().contains_key(k)
                        == tree_after_deletes.as_map().contains_key(k));
                    assert(self.tree.as_map().contains_key(k)
                        == tree_before.as_map().contains_key(k));
                    if tree_before.as_map().contains_key(k) {
                        assert(self.tree.as_map()[k] == tree_before.as_map()[k]);
                        assert(tree_before.as_map()[k] == tree_after_deletes.as_map()[k]);
                    }
                }
            }
            i += 1;
        }

        // 5. persist the data file: incremental append without
        // deletions, full rewrite otherwise
        proof {
            assert forall|k: Seq<u8>| self.tree.as_map().contains_key(k)
                implies slot_wf(#[trigger] self.tree.as_map()[k])
                    && self.tree.as_map()[k].len() <= 512 * 1024 * 1024 + 1
                    && k.len() <= MAX_KEY_SIZE by {
                if tx.pending.as_map().contains_key(k) {
                    let j = tx.pending.index_of(k);
                    assert(0 <= j < np && tx.pending.key_at(j) == k);
                } else {
                    assert(self.tree.as_map().contains_key(k)
                        == tree_after_deletes.as_map().contains_key(k));
                    assert(self.tree.as_map()[k] == tree_after_deletes.as_map()[k]);
                    assert(tree_after_deletes.as_map()[k] == pre.tree.as_map()[k]);
                    assert(pre.tree.as_map().contains_key(k));
                }
            }
        }
        if nd > 0 {
            self.persist_full();
        } else {
            self.persist_incremental(entry_blob);
        }

        // 6. advance the meta slot selected by the new txid's parity
        let count64 = self.tree.len() as u64;
        let new_meta = Meta::new(
            self.page_size as u32,
            new_txid,
            0,
            self.checkpoint_lsn,
            count64,
            0,
            0,
        );
        let meta_bytes_v = new_meta.to_bytes();
        let slot_idx = (new_txid % 2) as usize;
        proof {
            assert(slot_idx == 0 || slot_idx == 1);
            if slot_idx == 0 {
                assert(0 * self.page_size == 0) by (nonlinear_arith) {}
            } else {
                assert(1 * self.page_size == self.page_size) by (nonlinear_arith) {}
            }
            assert(slot_idx * self.page_size + META_SIZE <= 2 * self.page_size);
        }
        let ghost dp = self.data@;
        write_bytes_at(&mut self.data, slot_idx * self.page_size, &meta_bytes_v);
        proof {
            // the slot of the old parity is untouched: the meta write and
            // the persisted data region leave its bytes as they were
            let psi = self.page_size as int;
            let other: int = (pre.txid % 2) as int;
            let off = (slot_idx * self.page_size) as int;
            assert(other != slot_idx as int);
            assert(other == 0 || other == 1);
            if other == 0 {
                assert(0 * psi == 0) by (nonlinear_arith) {}
            } else {
                assert(1 * psi == psi) by (nonlinear_arith) {}
            }
            assert forall|j: int|
                other * psi <= j < other * psi + META_SIZE
                implies self.data@[j] == pre.data@[j] by {
                assert(j < 2 * psi);
                if other == 0 {
                    assert(j < 64);
                    assert(off == psi);
                    assert(self.data@[j] == dp[j]);
                } else {
                    assert(off == 0);
                    assert(j >= psi >= 64 + off);
                    assert(self.data@[j] == dp[j]);
                }
                assert(dp.subrange(0, 2 * psi)[j] == pre.data@.subrange(0, 2 * psi)[j]);
            }
            assert(self.data@.subrange(other * psi, other * psi + META_SIZE) =~= pre.data@.subrange(
                other * psi,
                other * psi + META_SIZE,
            ));
        }
        self.txid = new_txid;
        let writes = np + if nd <= usize::MAX - np {
            nd
        } else {
            0
        };
        self.checkpoints.record_writes(writes);

        proof {
            let post = *self;
            assert forall|k: Seq<u8>| #[trigger]
                tx.pending.as_map().contains_key(k) implies post.tree.as_map().contains_key(k)
                    && post.resolve(k) == Some(tx.pending.as_map()[k]) by {
                let j = tx.pending.index_of(k);
                assert(0 <= j < tx.pending.len_spec() && tx.pending.key_at(j) == k);
                tx.pending.lemma_entry_in_map(j);
                assert(post.tree.as_map().contains_key(tx.pending.key_at(j)));
                assert(resolve_slot(
                    post.tree.as_map()[tx.pending.key_at(j)],
                    post.pages.as_map(),
                    post.page_size as nat,
                ) == Some(tx.pending.val_at(j)));
            }
            assert forall|k: Seq<u8>|
                crate::bucket::keys_view(tx.deleted@).contains(k)
                implies !post.tree.as_map().contains_key(k) by {
                assert(!tx.pending.as_map().contains_key(k));
                assert(post.tree.as_map().contains_key(k)
                    == tree_after_deletes.as_map().contains_key(k));
            }
            assert forall|k: Seq<u8>|
                !tx.pending.as_map().contains_key(k) && !crate::bucket::keys_view(
                    tx.deleted@,
                ).contains(k) implies #[trigger] post.tree.as_map().contains_key(k)
                    == pre.tree.as_map().contains_key(k) && (pre.tree.as_map().contains_key(k)
                    ==> post.tree.as_map()[k] == pre.tree.as_map()[k] && (pre.resolve(k) is Some
                    ==> post.resolve(k) == pre.resolve(k))) by {
                assert(post.tree.as_map().contains_key(k)
                    == tree_after_deletes.as_map().contains_key(k));
                assert(tree_after_deletes.as_map().contains_key(k)
                    == pre.tree.as_map().contains_key(k));
                if pre.tree.as_map().contains_key(k) {
                    assert(tree_after_deletes.as_map()[k] == pre.tree.as_map()[k]);
                    assert(post.tree.as_map()[k] == tree_after_deletes.as_map()[k]);
                }
                if pre.tree.as_map().contains_key(k) && pre.resolve(k) is Some {
                    let s = pre.tree.as_map()[k];
                    if s.len() == 13 && s[0] == 1 {
                        assert(chain_read(
                            pre.pages.as_map(),
                            post.page_size as nat,
                            spec_u64_from_le_bytes(s.subrange(1, 9)),
                            MAX_CHAIN_LENGTH as nat,
                        ) is Some);
                        assert forall|id: u64| pre.pages.as_map().contains_key(id)
                            implies post.pages.as_map().contains_key(id)
                                && post.pages.as_map()[id] == pre.pages.as_map()[id] by {}
                        crate::overflow::lemma_chain_read_monotone(
                            pre.pages.as_map(),
                            post.pages.as_map(),
                            post.page_size as nat,
                            spec_u64_from_le_bytes(s.subrange(1, 9)),
                            MAX_CHAIN_LENGTH as nat,
                        );
                    }
                }
            }
            assert(post.meta_slot_bytes(((pre.txid + 1) % 2) as int) =~= meta_bytes(new_meta));
            assert(commit_post(pre, post, tx, Ok(())));
            // well-formedness: bloom coverage over the whole final tree
            assert forall|k: Seq<u8>|
                post.tree.as_map().contains_key(k) implies post.bloom.contains_spec(k) by {
                if tx.pending.as_map().contains_key(k) {
                    let j = tx.pending.index_of(k);
                    assert(0 <= j < np && tx.pending.key_at(j) == k);
                } else {
                    assert(post.tree.as_map().contains_key(k)
                        == tree_after_deletes.as_map().contains_key(k));
                    assert(tree_after_deletes.as_map().contains_key(k)
                        == pre.tree.as_map().contains_key(k));
                    assert(pre.bloom.contains_spec(k));
                }
            }
            assert forall|k: Seq<u8>|
                post.tree.as_map().contains_key(k) implies slot_wf(
                    #[trigger] post.tree.as_map()[k],
                ) && post.tree.as_map()[k].len() <= 512 * 1024 * 1024 + 1 && k.len()
                    <= MAX_KEY_SIZE by {
                if tx.pending.as_map().contains_key(k) {
                    let j = tx.pending.index_of(k);
                    assert(0 <= j < np && tx.pending.key_at(j) == k);
                } else {
                    assert(post.tree.as_map().contains_key(k)
                        == tree_after_deletes.as_map().contains_key(k));
                    assert(post.tree.as_map()[k] == tree_after_deletes.as_map()[k]);
                    assert(tree_after_deletes.as_map()[k] == pre.tree.as_map()[k]);
                    assert(pre.tree.as_map().contains_key(k));
                }
            }
        }
        Ok(())
    }

    /// Rewrites the whole data region from the working set; meta slots
    /// are preserved.
    #[verifier::loop_isolation(false)]
    fn persist_full(&mut self)
        requires
            old(self).tree.wf(),
            old(self).page_size <= 65536,
            old(self).data@.len() >= 2 * old(self).page_size + 8,
            forall|k: Seq<u8>|
                old(self).tree.as_map().contains_key(k) ==> slot_wf(
                    #[trigger] old(self).tree.as_map()[k],
                ) && old(self).tree.as_map()[k].len() <= 512 * 1024 * 1024 + 1
                    && k.len() <= MAX_KEY_SIZE,
        ensures
            final(self).data@.len() >= 2 * final(self).page_size + 8,
            final(self).data@.subrange(0, 2 * final(self).page_size as int) =~= old(
                self,
            ).data@.subrange(0, 2 * old(self).page_size as int),
            final(self).data@.subrange(
                2 * final(self).page_size as int,
                2 * final(self).page_size + 8,
            ) =~= spec_u64_to_le_bytes(final(self).tree.len_spec() as u64),
            final(self).data@.skip(2 * final(self).page_size + 8) =~= entries_bytes(
                final(self).tree,
                0,
            ),
            final(self).tree == old(self).tree,
            final(self).pages == old(self).pages,
            final(self).bloom == old(self).bloom,
            final(self).wal == old(self).wal,
            final(self).overflow == old(self).overflow,
            final(self).freelist == old(self).freelist,
            final(self).checkpoints == old(self).checkpoints,
            final(self).txid == old(self).txid,
            final(self).checkpoint_lsn == old(self).checkpoint_lsn,
            final(self).page_size == old(self).page_size,
            final(self).overflow_threshold == old(self).overflow_threshold,
    {
        let ps = self.page_size;
        let metas = vstd::slice::slice_to_vec(
            vstd::slice::slice_subrange(self.data.as_slice(), 0, 2 * ps),
        );
        let mut out = metas;
        let mut count_bytes = vstd::bytes::u64_to_le_bytes(self.tree.len() as u64);
        out.append(&mut count_bytes);
        let ghost header = out@;
        let n = self.tree.num_entries();
        let mut i: usize = 0;
        while i < n
            invariant
                0 <= i <= n,
                n == self.tree.len_spec(),
                self.tree.wf(),
                forall|k: Seq<u8>|
                    self.tree.as_map().contains_key(k) ==> slot_wf(
                        #[trigger] self.tree.as_map()[k],
                    ) && self.tree.as_map()[k].len() <= 512 * 1024 * 1024 + 1 && k.len()
                        <= MAX_KEY_SIZE,
                entries_bytes(self.tree, 0) =~= (out@.skip(header.len() as int)) + entries_bytes(
                    self.tree,
                    i as int,
                ),
                out@.len() >= header.len(),
                out@.subrange(0, header.len() as int) =~= header,
            decreases n - i,
        {
            proof {
                self.tree.lemma_entry_in_map(i as int);
            }
            let ghost out0 = out@;
            let mut ent = encode_entry(
                self.tree.key_at_idx(i).as_slice(),
                self.tree.val_at_idx(i).as_slice(),
            );
            out.append(&mut ent);
            proof {
                assert(out@.skip(header.len() as int) =~= out0.skip(header.len() as int)
                    + entry_bytes(self.tree.key_at(i as int), self.tree.val_at(i as int)));
            }
            i += 1;
        }
        proof {
            assert(entries_bytes(self.tree, n as int) =~= Seq::<u8>::empty());
            assert(entries_bytes(self.tree, 0) =~= out@.skip(header.len() as int));
        }
        self.data = out;
        proof {
            assert(header.subrange(0, 2 * ps as int) =~= old(self).data@.subrange(
                0,
                2 * ps as int,
            ));
            assert(header.subrange(2 * ps as int, 2 * ps + 8) =~= spec_u64_to_le_bytes(
                self.tree.len_spec() as u64,
            ));
            assert(self.data@.subrange(0, 2 * ps as int) =~= header.subrange(0, 2 * ps as int));
            assert(self.data@.subrange(2 * ps as int, 2 * ps + 8) =~= header.subrange(
                2 * ps as int,
                2 * ps + 8,
            ));
        }
    }

    /// Appends the freshly serialized entries after the current end and
    /// rewrites the leading entry count in place.
    fn persist_incremental(&mut self, entry_blob: Vec<u8>)
        requires
            old(self).data@.len() >= 2 * old(self).page_size + 8,
            old(self).page_size <= 65536,
        ensures
            final(self).data@.len() >= 2 * final(self).page_size + 8,
            final(self).data@.subrange(0, 2 * final(self).page_size as int) =~= old(
                self,
            ).data@.subrange(0, 2 * old(self).page_size as int),
            final(self).tree == old(self).tree,
            final(self).pages == old(self).pages,
            final(self).bloom == old(self).bloom,
            final(self).wal == old(self).wal,
            final(self).overflow == old(self).overflow,
            final(self).freelist == old(self).freelist,
            final(self).checkpoints == old(self).checkpoints,
            final(self).txid == old(self).txid,
            final(self).checkpoint_lsn == old(self).checkpoint_lsn,
            final(self).page_size == old(self).page_size,
            final(self).overflow_threshold == old(self).overflow_threshold,
    {
        let count_bytes = vstd::bytes::u64_to_le_bytes(self.tree.len() as u64);
        let ps = self.page_size;
        write_bytes_at(&mut self.data, 2 * ps, &count_bytes);
        let mut blob = entry_blob;
        self.data.append(&mut blob);
        proof {
            assert(self.data@.subrange(0, 2 * ps as int) =~= old(self).data@.subrange(
                0,
                2 * ps as int,
            ));
        }
    }
}

/// The views of a parsed entry list.
pub open spec fn entry_pairs_view(v: Seq<(Vec<u8>, Vec<u8>)>) -> Seq<(Seq<u8>, Seq<u8>)> {
    v.map(|i: int, p: (Vec<u8>, Vec<u8>)| (p.0@, p.1@))
}

/// The page-region shape `open` accepts: nonzero ids below the top of
/// the id space, no duplicates.
pub open spec fn pages_region_ok(pages: PageStore) -> bool {
    &&& forall|i: int|
        0 <= i < pages.entries@.len() ==> 1 <= (#[trigger] pages.entries@[i]).0 < u64::MAX
    &&& forall|i: int, j: int|
        0 <= i < j < pages.entries@.len() ==> (#[trigger] pages.entries@[i]).0
            != (#[trigger] pages.entries@[j]).0
}

/// The logical end of a segment list: the LSN one past its last byte.
pub open spec fn segs_end(segs: Seq<crate::wal::SegView>, segment_size: int) -> int {
    if segs.len() == 0 {
        0
    } else {
        segs[segs.len() - 1].id * segment_size + segs[segs.len() - 1].data.len()
    }
}

/// What `open_with_options` accepts: an empty image (a fresh database),
/// or one whose data file is long enough and carries a valid newest meta
/// of the matching page size, a bounded entry count with parseable
/// entries, a well-shaped page region and WAL, and a checkpoint within
/// the log. `open` fails exactly on images outside this shape.
pub open spec fn image_ok(
    data: Seq<u8>,
    pages: PageStore,
    segs: Seq<crate::wal::SegView>,
    options: DbOptions,
) -> bool {
    let ps = options.page_size as int;
    data.len() == 0 || {
        &&& data.len() >= 2 * ps + 8
        &&& crate::meta::select_meta_spec(
            crate::meta::parse_meta(data.subrange(0, META_SIZE as int)),
            crate::meta::parse_meta(data.subrange(ps, ps + META_SIZE)),
        ) matches Some(m) && {
            let count = spec_u64_from_le_bytes(data.subrange(2 * ps, 2 * ps + 8));
            &&& m.page_size as int == ps
            &&& count <= MAX_ENTRY_COUNT
            &&& parse_entries(data, 2 * ps + 8, count as nat) is Some
            &&& crate::wal::segments_well_formed(segs, options.segment_size as int)
            &&& m.checkpoint_lsn <= segs_end(segs, options.segment_size as int)
            &&& pages_region_ok(pages)
        }
    }
}

impl Database {
    /// Opens a database from its durable bytes with default options.
    pub fn open(image: DbImage) -> (r: Result<Database, Error>)
        ensures
            r is Ok <==> image_ok(
                image.data@,
                image.pages,
                image.wal_segments@.map(|i: int, s: WalSegment| s@),
                default_options_spec(),
            ),
            r matches Ok(db) ==> db.wf(),
    {
        Self::open_with_options(image, DbOptions::default())
    }

    /// Opens a database from its durable bytes: picks the newest valid
    /// meta slot, loads the entries beneath it, and replays the WAL
    /// strictly after the meta's checkpoint LSN, applying only committed
    /// transactions. An empty image creates a fresh database.
    #[verifier::rlimit(100)]
    #[verifier::spinoff_prover]
    pub fn open_with_options(image: DbImage, options: DbOptions) -> (r: Result<Database, Error>)
        requires
            options.valid(),
        ensures
            r is Ok <==> image_ok(
                image.data@,
                image.pages,
                image.wal_segments@.map(|i: int, s: WalSegment| s@),
                options,
            ),
            match r {
                Ok(db) => {
                    &&& db.wf()
                    &&& db.page_size == options.page_size
                    &&& image.data@.len() == 0 ==> {
                        &&& db.tree.as_map() =~= Map::<Seq<u8>, Seq<u8>>::empty()
                        &&& db.txid == 0
                    }
                    &&& image.data@.len() > 0 ==> {
                        let ps = options.page_size as int;
                        let m = crate::meta::select_meta_spec(
                            crate::meta::parse_meta(image.data@.subrange(0, META_SIZE as int)),
                            crate::meta::parse_meta(
                                image.data@.subrange(ps, ps + META_SIZE),
                            ),
                        )->Some_0;
                        let count = spec_u64_from_le_bytes(
                            image.data@.subrange(2 * ps, 2 * ps + 8),
                        );
                        &&& db.txid == m.txid
                        &&& db.checkpoint_lsn == m.checkpoint_lsn
                        &&& parse_entries(image.data@, 2 * ps + 8, count as nat) matches Some(
                            pe,
                        ) && db.tree.as_map() =~= recovered_map(
                            map_of_pairs(pe.0),
                            records_of(db.wal.records_from(m.checkpoint_lsn as int)),
                        )
                    }
                },
                Err(e) => e is Corrupted || e is BothMetaPagesInvalid,
            },
    {
        let ghost segsv = image.wal_segments@.map(|i: int, s: WalSegment| s@);
        let ghost pagesv = image.pages;
        let ghost datav = image.data@;
        let ps = options.page_size;
        if image.data.len() == 0 {
            return Ok(Self::create(options));
        }
        if image.data.len() < 2 * ps + 8 {
            proof {
                assert(!image_ok(datav, pagesv, segsv, options));
            }
            return Err(Error::Corrupted("data file too short".to_owned()));
        }
        let data = image.data;
        let m0 = match Meta::from_bytes(vstd::slice::slice_subrange(data.as_slice(), 0, META_SIZE)) {
            Some(m) => m,
            None => {
                return Err(Error::Corrupted("meta slot unreadable".to_owned()));
            }
        };
        let m1 = match Meta::from_bytes(
            vstd::slice::slice_subrange(data.as_slice(), ps, ps + META_SIZE),
        ) {
            Some(m) => m,
            None => {
                return Err(Error::Corrupted("meta slot unreadable".to_owned()));
            }
        };
        proof {
            assert(data@.subrange(0, META_SIZE as int)
                =~= data@.subrange(0, META_SIZE as int).subrange(0, META_SIZE as int));
            assert(crate::meta::parse_meta(data@.subrange(0, META_SIZE as int)) == m0);
            assert(crate::meta::parse_meta(data@.subrange(ps as int, ps + META_SIZE)) == m1);
        }
        let m = match crate::meta::select_meta(&m0, &m1) {
            Some(m) => m,
            None => {
                proof {
                    assert(!image_ok(datav, pagesv, segsv, options));
                }
                return Err(Error::BothMetaPagesInvalid);
            }
        };
        if m.page_size as usize != ps {
            proof {
                assert(!image_ok(datav, pagesv, segsv, options));
            }
            return Err(Error::Corrupted("page size mismatch".to_owned()));
        }
        let count = vstd::bytes::u64_from_le_bytes(
            vstd::slice::slice_subrange(data.as_slice(), 2 * ps, 2 * ps + 8),
        );
        if count > MAX_ENTRY_COUNT {
            proof {
                assert(!image_ok(datav, pagesv, segsv, options));
            }
            return Err(Error::Corrupted("entry count exceeds maximum".to_owned()));
        }
        let pairs = match parse_entries_exec(data.as_slice(), 2 * ps + 8, count as usize) {
            Ok(pairs) => pairs,
            Err(e) => {
                proof {
                    assert(parse_entries(datav, 2 * ps + 8, count as nat) is None);
                    assert(!image_ok(datav, pagesv, segsv, options));
                }
                return Err(e);
            }
        };

        // validate the page region: unique nonzero ids below u64::MAX
        let pn = image.pages.entries.len();
        let mut i: usize = 0;
        let mut max_id: u64 = 0;
        while i < pn
            invariant
                0 <= i <= pn,
                pn == image.pages.entries@.len(),
                pagesv == image.pages,
                datav == image.data@,
                segsv == image.wal_segments@.map(|a: int, s: WalSegment| s@),
                datav.len() >= 2 * options.page_size + 8,
                forall|a: int, b: int|
                    0 <= a < b < i ==> (#[trigger] image.pages.entries@[a]).0
                        != (#[trigger] image.pages.entries@[b]).0,
                forall|a: int|
                    0 <= a < i ==> 1 <= (#[trigger] image.pages.entries@[a]).0 <= max_id,
                max_id < u64::MAX,
            decreases pn - i,
        {
            let id = image.pages.entries[i].0;
            if id == 0 || id == u64::MAX {
                proof {
                    assert(!(1 <= pagesv.entries@[i as int].0 < u64::MAX));
                    assert(!pages_region_ok(pagesv));
                    assert(!image_ok(datav, pagesv, segsv, options));
                }
                return Err(Error::Corrupted("invalid overflow page id".to_owned()));
            }
            let mut j: usize = 0;
            while j < i
                invariant
                    0 <= j <= i < pn,
                    pn == image.pages.entries@.len(),
                    pagesv == image.pages,
                    datav == image.data@,
                    segsv == image.wal_segments@.map(|a: int, s: WalSegment| s@),
                    datav.len() >= 2 * options.page_size + 8,
                    id == image.pages.entries@[i as int].0,
                    forall|a: int|
                        0 <= a < j ==> (#[trigger] image.pages.entries@[a]).0 != id,
                decreases i - j,
            {
                if image.pages.entries[j].0 == id {
                    proof {
                        assert(pagesv.entries@[j as int].0 == pagesv.entries@[i as int].0);
                        assert(!pages_region_ok(pagesv));
                        assert(!image_ok(datav, pagesv, segsv, options));
                    }
                    return Err(Error::Corrupted("duplicate overflow page id".to_owned()));
                }
                j += 1;
            }
            if id > max_id {
                max_id = id;
            }
            proof {
                assert forall|a: int|
                    0 <= a < i + 1 implies 1 <= (#[trigger] image.pages.entries@[a]).0
                        <= max_id by {}
            }
            i += 1;
        }
        let next_page_id = max_id + 1;

        let wal = match Wal::from_segments(
            WalConfig { segment_size: options.segment_size, sync_policy: options.sync_policy },
            image.wal_segments,
        ) {
            Ok(w) => w,
            Err(e) => {
                proof {
                    assert(!crate::wal::segments_well_formed(
                        segsv,
                        options.segment_size as int,
                    ));
                    assert(!image_ok(datav, pagesv, segsv, options));
                }
                return Err(e);
            }
        };
        proof {
            assert(wal.segs() == segsv);
            assert(wal.end_lsn_int() == segs_end(segsv, options.segment_size as int));
        }
        if m.checkpoint_lsn > wal.end_lsn() {
            proof {
                assert(!image_ok(datav, pagesv, segsv, options));
            }
            return Err(Error::Corrupted("checkpoint beyond end of wal".to_owned()));
        }

        // working set: the parsed entries, then the committed WAL suffix
        let mut tree = Tree::new();
        let mut bloom = BloomFilter::with_capacity(
            if count < 1 {
                1
            } else if count > 100_000_000 {
                100_000_000
            } else {
                count as usize
            },
        );
        let npairs = pairs.len();
        let ghost pv = entry_pairs_view(pairs@);
        let mut i: usize = 0;
        while i < npairs
            invariant
                0 <= i <= npairs,
                npairs == pairs@.len(),
                pv == entry_pairs_view(pairs@),
                tree.wf(),
                bloom.wf(),
                tree.as_map() =~= map_of_pairs(pv.take(i as int)),
                forall|k: Seq<u8>|
                    tree.as_map().contains_key(k) ==> #[trigger] bloom.contains_spec(k),
                forall|k: Seq<u8>|
                    tree.as_map().contains_key(k) ==> slot_wf(#[trigger] tree.as_map()[k])
                        && tree.as_map()[k].len() <= 512 * 1024 * 1024 + 1 && k.len()
                        <= MAX_KEY_SIZE,
                forall|j: int|
                    0 <= j < npairs ==> slot_wf((#[trigger] pairs@[j]).1@) && pairs@[j].1@.len()
                        <= 512 * 1024 * 1024 + 1 && pairs@[j].0@.len() <= MAX_KEY_SIZE,
            decreases npairs - i,
        {
            let key = clone_bytes(&pairs[i].0);
            let slot = clone_bytes(&pairs[i].1);
            let ghost bloom0 = bloom;
            let ghost tree0 = tree;
            bloom.insert(key.as_slice());
            let _ = tree.insert(key, slot);
            proof {
                assert(pv.take(i + 1).drop_last() =~= pv.take(i as int));
                assert(pv.take(i + 1).last() == pv[i as int]);
                assert(tree.as_map() =~= map_of_pairs(pv.take(i + 1)));
                assert forall|k: Seq<u8>|
                    tree.as_map().contains_key(k) implies #[trigger] bloom.contains_spec(k) by {
                    if k != pv[i as int].0 {
                        crate::bloom::lemma_no_false_negatives(bloom0, bloom, k);
                    }
                }
                assert forall|k: Seq<u8>|
                    tree.as_map().contains_key(k) implies slot_wf(#[trigger] tree.as_map()[k])
                        && tree.as_map()[k].len() <= 512 * 1024 * 1024 + 1 && k.len()
                        <= MAX_KEY_SIZE by {
                    if k == pv[i as int].0 {
                        assert(tree.as_map()[k] == pv[i as int].1);
                        assert(pv[i as int].1 == pairs@[i as int].1@);
                    } else {
                        assert(tree0.as_map().contains_key(k));
                        assert(tree.as_map()[k] == tree0.as_map()[k]);
                    }
                }
            }
            i += 1;
        }
        proof {
            assert(pv.take(npairs as int) =~= pv);
        }

        // replay the committed transactions after the checkpoint
        let recs = wal.iter_from(m.checkpoint_lsn);
        let ghost base_map = tree.as_map();
        let ghost rviews = records_of(wal.records_from(m.checkpoint_lsn as int));
        proof {
            wal.lemma_records_from_size_ok(m.checkpoint_lsn as int);
            assert forall|j: int| 0 <= j < rviews.len()
                implies crate::wal_record::record_size_ok(#[trigger] rviews[j]) by {
                assert(rviews[j] == wal.records_from(m.checkpoint_lsn as int)[j].1);
            }
        }
        let nrecs = recs.len();
        let mut staged: Vec<WalRecord> = Vec::new();
        let mut i: usize = 0;
        while i < nrecs
            invariant
                0 <= i <= nrecs,
                nrecs == recs@.len(),
                crate::wal::pairs_view(recs@) =~= wal.records_from(m.checkpoint_lsn as int),
                rviews == records_of(wal.records_from(m.checkpoint_lsn as int)),
                rviews.len() == nrecs,
                forall|j: int| 0 <= j < nrecs ==> (#[trigger] recs@[j]).1@ == rviews[j],
                forall|j: int|
                    0 <= j < nrecs ==> crate::wal_record::record_size_ok(#[trigger] rviews[j]),
                tree.wf(),
                bloom.wf(),
                replay_fold((base_map, Seq::empty()), rviews.take(i as int)) == (
                    tree.as_map(),
                    staged_views(staged@),
                ),
                forall|k: Seq<u8>|
                    tree.as_map().contains_key(k) ==> #[trigger] bloom.contains_spec(k),
                forall|k: Seq<u8>|
                    tree.as_map().contains_key(k) ==> slot_wf(#[trigger] tree.as_map()[k])
                        && tree.as_map()[k].len() <= 512 * 1024 * 1024 + 1 && k.len()
                        <= MAX_KEY_SIZE,
                forall|j: int|
                    0 <= j < staged@.len() ==> (#[trigger] staged@[j])@ is Put
                        || staged@[j]@ is Delete,
                forall|j: int|
                    0 <= j < staged@.len() ==> ((#[trigger] staged@[j])@ matches
                        RecordView::Put { key, value } ==> key.len() <= MAX_KEY_SIZE
                        && value.len() <= 512 * 1024 * 1024)
                        && (staged@[j]@ matches RecordView::Delete { key } ==> key.len()
                        <= MAX_KEY_SIZE),
            decreases nrecs - i,
        {
            proof {
                assert(rviews.take(i + 1).drop_last() =~= rviews.take(i as int));
                assert(rviews.take(i + 1).last() == rviews[i as int]);
            }
            let rec = &recs[i].1;
            let ghost staged0 = staged@;
            match rec {
                WalRecord::TxBegin { .. } => {
                    staged = Vec::new();
                    proof {
                        assert(staged_views(staged@) =~= Seq::<RecordView>::empty());
                    }
                }
                WalRecord::TxAbort { .. } => {
                    staged = Vec::new();
                    proof {
                        assert(staged_views(staged@) =~= Seq::<RecordView>::empty());
                    }
                }
                WalRecord::Checkpoint { .. } => {}
                WalRecord::Put { key, value } => {
                    proof {
                        lemma_record_sizes(recs@[i as int].1);
                    }
                    staged.push(WalRecord::Put {
                        key: clone_bytes(key),
                        value: clone_bytes(value),
                    });
                    proof {
                        assert(staged_views(staged@) =~= staged_views(staged0).push(
                            recs@[i as int].1@,
                        ));
                    }
                }
                WalRecord::Delete { key } => {
                    proof {
                        lemma_record_sizes(recs@[i as int].1);
                    }
                    staged.push(WalRecord::Delete { key: clone_bytes(key) });
                    proof {
                        assert(staged_views(staged@) =~= staged_views(staged0).push(
                            recs@[i as int].1@,
                        ));
                    }
                }
                WalRecord::TxCommit { .. } => {
                    // apply the staged operations in order
                    let ghost m_before = tree.as_map();
                    let ns = staged.len();
                    let mut j: usize = 0;
                    while j < ns
                        invariant
                            0 <= j <= ns,
                            ns == staged@.len(),
                            staged@ == staged0,
                            tree.wf(),
                            bloom.wf(),
                            tree.as_map() =~= apply_ops(m_before, staged_views(staged@).take(
                                j as int,
                            )),
                            forall|k: Seq<u8>|
                                tree.as_map().contains_key(k) ==> #[trigger] bloom.contains_spec(
                                    k,
                                ),
                            forall|k: Seq<u8>|
                                tree.as_map().contains_key(k) ==> slot_wf(
                                    #[trigger] tree.as_map()[k],
                                ) && tree.as_map()[k].len() <= 512 * 1024 * 1024 + 1 && k.len()
                                    <= MAX_KEY_SIZE,
                            forall|a: int|
                                0 <= a < staged@.len() ==> (#[trigger] staged@[a])@ is Put
                                    || staged@[a]@ is Delete,
                            forall|a: int|
                                0 <= a < staged@.len() ==> ((#[trigger] staged@[a])@ matches
                                    RecordView::Put { key, value } ==> key.len() <= MAX_KEY_SIZE
                                    && value.len() <= 512 * 1024 * 1024)
                                    && (staged@[a]@ matches RecordView::Delete { key }
                                    ==> key.len() <= MAX_KEY_SIZE),
                        decreases ns - j,
                    {
                        proof {
                            assert(staged_views(staged@).take(j + 1).drop_last()
                                =~= staged_views(staged@).take(j as int));
                            assert(staged_views(staged@).take(j + 1).last()
                                == staged@[j as int]@);
                        }
                        let ghost bloom0 = bloom;
                        let ghost tree_pre = tree;
                        match &staged[j] {
                            WalRecord::Put { key, value } => {
                                let mut slot: Vec<u8> = Vec::new();
                                slot.push(0u8);
                                let mut vcopy = clone_bytes(value);
                                slot.append(&mut vcopy);
                                proof {
                                    assert(slot@ =~= slot_inline(value@));
                                }
                                bloom.insert(key.as_slice());
                                let _ = tree.insert(clone_bytes(key), slot);
                                proof {
                                    assert forall|k: Seq<u8>|
                                        tree.as_map().contains_key(k)
                                        implies #[trigger] bloom.contains_spec(k) by {
                                        if k != key@ {
                                            crate::bloom::lemma_no_false_negatives(
                                                bloom0,
                                                bloom,
                                                k,
                                            );
                                        }
                                    }
                                    assert((#[trigger] staged@[j as int])@ matches
                                        RecordView::Put { key: kk, value: vv });
                                    assert forall|k: Seq<u8>|
                                        tree.as_map().contains_key(k) implies slot_wf(
                                            #[trigger] tree.as_map()[k],
                                        ) && tree.as_map()[k].len() <= 512 * 1024 * 1024 + 1
                                            && k.len() <= MAX_KEY_SIZE by {
                                        if k == key@ {
                                            assert(tree.as_map()[k] == slot_inline(value@));
                                            assert(value@.len() <= 512 * 1024 * 1024);
                                            assert(key@.len() <= MAX_KEY_SIZE);
                                        } else {
                                            assert(tree_pre.as_map().contains_key(k));
                                            assert(tree.as_map()[k] == tree_pre.as_map()[k]);
                                        }
                                    }
                                }
                            }
                            WalRecord::Delete { key } => {
                                let _ = tree.remove(key.as_slice());
                            }
                            _ => {
                                proof {
                                    assert(false);
                                }
                            }
                        }
                        j += 1;
                    }
                    proof {
                        assert(staged_views(staged@).take(ns as int)
                            =~= staged_views(staged@));
                    }
                    staged = Vec::new();
                    proof {
                        assert(staged_views(staged@) =~= Seq::<RecordView>::empty());
                    }
                }
            }
            i += 1;
        }
        proof {
            assert(rviews.take(nrecs as int) =~= rviews);
        }

        proof {
            assert forall|k: Seq<u8>|
                #![trigger tree.as_map().contains_key(k)]
                tree.as_map().contains_key(k)
                implies k.len() <= MAX_KEY_SIZE && slot_wf(tree.as_map()[k])
                    && tree.as_map()[k].len() <= 512 * 1024 * 1024 + 1
                    && bloom.contains_spec(k) by {
                let v = tree.as_map()[k];
                assert(slot_wf(v));
            }
        }
        let db = Database {
            tree,
            bloom,
            wal,
            pages: image.pages,
            overflow: OverflowManager::new(ps, next_page_id),
            freelist: crate::freelist::FreeList::new(),
            checkpoints: CheckpointManager::new(options.checkpoint_config),
            txid: m.txid,
            checkpoint_lsn: m.checkpoint_lsn,
            page_size: ps,
            overflow_threshold: options.overflow_threshold,
            data,
        };
        proof {
            assert forall|id: u64|
                db.pages.as_map().contains_key(id) implies 1 <= id
                    < db.overflow.next_page_id by {
                let a = db.pages.index_of(id);
                assert(db.pages.entries@[a].0 == id);
            }
            assert(image_ok(datav, pagesv, segsv, options));
        }
        Ok(db)
    }

    /// Persists the whole working set, records the checkpoint in the
    /// current meta slot, and truncates WAL segments that lie entirely
    /// before it. After this, recovery needs nothing from the WAL.
    pub fn checkpoint(&mut self, now_ms: u64) -> (r: Result<
        crate::checkpoint::CheckpointResult,
        Error,
    >)
        requires
            old(self).wf(),
        ensures
            final(self).wf(),
            r is Ok,
            r is Ok ==> {
                &&& final(self).checkpoint_lsn == final(self).wal.end_lsn_int()
                &&& final(self).txid == old(self).txid
                &&& final(self).tree == old(self).tree
                &&& final(self).data@.skip(2 * final(self).page_size + 8) =~= entries_bytes(
                    final(self).tree,
                    0,
                )
                &&& final(self).data@.subrange(
                    2 * final(self).page_size as int,
                    2 * final(self).page_size + 8,
                ) =~= spec_u64_to_le_bytes(final(self).tree.len_spec() as u64)
                &&& exists|mm: Meta|
                    {
                        &&& final(self).meta_slot_bytes((old(self).txid % 2) as int)
                            =~= meta_bytes(mm)
                        &&& #[trigger] meta_valid(mm)
                        &&& mm.txid == final(self).txid
                        &&& mm.checkpoint_lsn == final(self).checkpoint_lsn
                    }
            },
    {
        proof {
            assert(self.page_size <= 65536);
        }
        self.persist_full();
        let end = self.wal.end_lsn();
        self.checkpoint_lsn = end;
        let count64 = self.tree.len() as u64;
        let m = Meta::new(self.page_size as u32, self.txid, 0, end, count64, 0, 0);
        let meta_bytes_v = m.to_bytes();
        let slot_idx = (self.txid % 2) as usize;
        proof {
            assert(slot_idx == 0 || slot_idx == 1);
            if slot_idx == 0 {
                assert(0 * self.page_size == 0) by (nonlinear_arith) {}
            } else {
                assert(1 * self.page_size == self.page_size) by (nonlinear_arith) {}
            }
        }
        let ghost data_before = self.data@;
        write_bytes_at(&mut self.data, slot_idx * self.page_size, &meta_bytes_v);
        proof {
            assert(self.data@.skip(2 * self.page_size + 8) =~= data_before.skip(
                2 * self.page_size + 8,
            ));
            assert(self.data@.subrange(2 * self.page_size as int, 2 * self.page_size + 8)
                =~= data_before.subrange(2 * self.page_size as int, 2 * self.page_size + 8));
            assert(self.meta_slot_bytes(slot_idx as int) =~= meta_bytes(m));
        }
        let result = crate::checkpoint::perform_checkpoint(end, &mut self.wal);
        self.checkpoints.record_checkpoint_with_wal_size(end, now_ms, self.wal.approximate_size());
        result
    }
}

/// The views of a staged record list.
pub open spec fn staged_views(v: Seq<WalRecord>) -> Seq<RecordView> {
    v.map(|i: int, r: WalRecord| r@)
}

/// Any record has a bounded key and value: keys fit the key cap and
/// values fit a record payload.
proof fn lemma_record_sizes(r: WalRecord)
    ensures
        r@ matches RecordView::Put { key, value } ==> key == r->Put_key@ && value
            == r->Put_value@,
        r@ matches RecordView::Delete { key } ==> key == r->Delete_key@,
{
}

/// Parses `n` entries from the data region, mirroring `parse_entries`.
fn parse_entries_exec(data: &[u8], off0: usize, n: usize) -> (r: Result<
    Vec<(Vec<u8>, Vec<u8>)>,
    Error,
>)
    requires
        off0 <= data@.len(),
    ensures
        match r {
            Ok(v) => parse_entries(data@, off0 as int, n as nat) matches Some(pe)
                && entry_pairs_view(v@) =~= pe.0 && forall|j: int|
                0 <= j < v@.len() ==> slot_wf((#[trigger] v@[j]).1@) && v@[j].1@.len()
                    <= 512 * 1024 * 1024 + 1 && v@[j].0@.len() <= MAX_KEY_SIZE,
            Err(e) => parse_entries(data@, off0 as int, n as nat) is None && e is Corrupted,
        },
{
    let mut out: Vec<(Vec<u8>, Vec<u8>)> = Vec::new();
    let mut off: usize = off0;
    let mut remaining: usize = n;
    let data_len = data.len();
    while remaining > 0
        invariant
            0 <= off <= data_len,
            data_len == data@.len(),
            remaining <= n,
            forall|j: int|
                0 <= j < out@.len() ==> slot_wf((#[trigger] out@[j]).1@) && out@[j].1@.len()
                    <= 512 * 1024 * 1024 + 1 && out@[j].0@.len() <= MAX_KEY_SIZE,
            parse_entries(data@, off0 as int, n as nat) == (match parse_entries(
                data@,
                off as int,
                remaining as nat,
            ) {
                Some((rest, end)) => Some::<(Seq<(Seq<u8>, Seq<u8>)>, int)>(
                    (entry_pairs_view(out@) + rest, end),
                ),
                None => None::<(Seq<(Seq<u8>, Seq<u8>)>, int)>,
            }),
        decreases remaining,
    {
        proof {
            vstd::bytes::lemma_auto_spec_u32_to_from_le_bytes();
        }
        if data_len - off < 8 {
            return Err(Error::Corrupted("entry header out of bounds".to_owned()));
        }
        let klen = vstd::bytes::u32_from_le_bytes(
            vstd::slice::slice_subrange(data, off, off + 4),
        ) as usize;
        if klen > MAX_KEY_SIZE {
            return Err(Error::Corrupted("entry key too long".to_owned()));
        }
        if klen > data_len - (off + 8) {
            return Err(Error::Corrupted("entry key out of bounds".to_owned()));
        }
        let key = vstd::slice::slice_to_vec(
            vstd::slice::slice_subrange(data, off + 4, off + 4 + klen),
        );
        let vlen_raw = vstd::bytes::u32_from_le_bytes(
            vstd::slice::slice_subrange(data, off + 4 + klen, off + 8 + klen),
        );
        let ghost out0 = out@;
        if vlen_raw == 0xFFFF_FFFF {
            if 12 > data_len - (off + 8 + klen) {
                return Err(Error::Corrupted("overflow reference out of bounds".to_owned()));
            }
            let mut slot: Vec<u8> = Vec::new();
            slot.push(1u8);
            let mut refbytes = vstd::slice::slice_to_vec(
                vstd::slice::slice_subrange(data, off + 8 + klen, off + 8 + klen + 12),
            );
            slot.append(&mut refbytes);
            proof {
                assert(slot@ =~= seq![1u8] + data@.subrange(
                    off + 8 + klen,
                    off + 8 + klen + 12,
                ));
            }
            out.push((key, slot));
            proof {
                assert(entry_pairs_view(out@) =~= entry_pairs_view(out0).push(
                    (
                        data@.subrange(off + 4, off + 4 + klen),
                        seq![1u8] + data@.subrange(off + 8 + klen, off + 8 + klen + 12),
                    ),
                ));
            }
            off = off + 8 + klen + 12;
        } else {
            let vlen = vlen_raw as usize;
            if vlen > 512 * 1024 * 1024 {
                return Err(Error::Corrupted("entry value too long".to_owned()));
            }
            if vlen > data_len - (off + 8 + klen) {
                return Err(Error::Corrupted("entry value out of bounds".to_owned()));
            }
            let mut slot: Vec<u8> = Vec::new();
            slot.push(0u8);
            let mut vbytes = vstd::slice::slice_to_vec(
                vstd::slice::slice_subrange(data, off + 8 + klen, off + 8 + klen + vlen),
            );
            slot.append(&mut vbytes);
            proof {
                assert(slot@ =~= seq![0u8] + data@.subrange(
                    off + 8 + klen,
                    off + 8 + klen + vlen,
                ));
            }
            out.push((key, slot));
            proof {
                assert(entry_pairs_view(out@) =~= entry_pairs_view(out0).push(
                    (
                        data@.subrange(off + 4, off + 4 + klen),
                        seq![0u8] + data@.subrange(off + 8 + klen, off + 8 + klen + vlen),
                    ),
                ));
            }
            off = off + 8 + klen + vlen;
        }
        remaining = remaining - 1;
    }
    proof {
        assert(parse_entries(data@, off as int, 0) == Some::<(Seq<(Seq<u8>, Seq<u8>)>, int)>(
            (Seq::empty(), off as int),
        ));
        assert(entry_pairs_view(out@) + Seq::<(Seq<u8>, Seq<u8>)>::empty()
            =~= entry_pairs_view(out@));
    }
    Ok(out)
}

/// Round trip: after a commit, every key staged as a put resolves to
/// exactly the staged value (the last one written wins, since staging
/// keeps one value per key), every staged delete is absent, and every
/// other key is exactly as it was.
pub proof fn lemma_commit_round_trip(
    pre: Database,
    post: Database,
    tx: crate::tx::WriteTx,
    k: Seq<u8>,
)
    requires
        commit_post(pre, post, tx, Ok(())),
    ensures
        tx.pending.as_map().contains_key(k) ==> post.tree.as_map().contains_key(k)
            && post.resolve(k) == Some(tx.pending.as_map()[k]),
        crate::bucket::keys_view(tx.deleted@).contains(k) ==> !post.tree.as_map().contains_key(
            k,
        ),
        !tx.pending.as_map().contains_key(k) && !crate::bucket::keys_view(tx.deleted@).contains(
            k,
        ) ==> post.tree.as_map().contains_key(k) == pre.tree.as_map().contains_key(k),
{
}

/// Meta alternation across successive commits: after a commit the slot
/// of the new txid's parity holds a valid meta with that txid, and the
/// slot of the opposite parity still holds the previous commit's meta —
/// so the newest valid slot carries the latest txid and its parity names
/// the slot written last.
pub proof fn lemma_meta_alternation(
    d0: Database,
    d1: Database,
    tx1: crate::tx::WriteTx,
    d2: Database,
    tx2: crate::tx::WriteTx,
)
    requires
        commit_post(d0, d1, tx1, Ok(())),
        commit_post(d1, d2, tx2, Ok(())),
        d1.page_size == d0.page_size,
    ensures
        exists|m: Meta|
            {
                &&& d2.meta_slot_bytes(((d1.txid + 1) % 2) as int) =~= meta_bytes(m)
                &&& #[trigger] meta_valid(m)
                &&& m.txid == d2.txid
            },
        exists|m: Meta|
            {
                &&& d2.meta_slot_bytes(((d0.txid + 1) % 2) as int) =~= meta_bytes(m)
                &&& #[trigger] meta_valid(m)
                &&& m.txid == d1.txid
            },
{
    assert(d2.txid == d1.txid + 1);
    assert(d1.txid == d0.txid + 1);
    // the slot the second commit did not write is the one the first wrote
    assert(((d0.txid + 1) % 2) as int == (d1.txid % 2) as int);
    let m1 = choose|m: Meta|
        {
            &&& d1.meta_slot_bytes(((d0.txid + 1) % 2) as int) =~= meta_bytes(m)
            &&& #[trigger] meta_valid(m)
            &&& m.txid == d1.txid
            &&& m.entry_count == d1.tree.len_spec()
            &&& m.checkpoint_lsn == d1.checkpoint_lsn
            &&& m.page_size as int == d1.page_size as int
        };
    assert(d2.meta_slot_bytes((d1.txid % 2) as int) =~= d1.meta_slot_bytes(
        (d1.txid % 2) as int,
    ));
    assert(d2.meta_slot_bytes(((d0.txid + 1) % 2) as int) =~= meta_bytes(m1));
}

// ==================== Durability ====================

/// The entry list of the working set: its (key, slot) pairs in key order.
pub open spec fn tree_pairs(t: Tree) -> Seq<(Seq<u8>, Seq<u8>)> {
    Seq::new(t.len_spec(), |i: int| (t.key_at(i), t.val_at(i)))
}

/// The working set's own entry list folds back to the working set.
pub proof fn lemma_map_of_tree_pairs(t: Tree)
    requires
        t.wf(),
    ensures
        map_of_pairs(tree_pairs(t)) =~= t.as_map(),
{
    lemma_map_of_tree_pairs_prefix(t, t.len_spec() as int);
    assert(tree_pairs(t).take(t.len_spec() as int) =~= tree_pairs(t));
}

proof fn lemma_map_of_tree_pairs_prefix(t: Tree, n: int)
    requires
        t.wf(),
        0 <= n <= t.len_spec(),
    ensures
        forall|k: Seq<u8>|
            #![trigger map_of_pairs(tree_pairs(t).take(n)).contains_key(k)]
            map_of_pairs(tree_pairs(t).take(n)).contains_key(k) == (exists|j: int|
                0 <= j < n && #[trigger] t.key_at(j) == k),
        forall|j: int|
            0 <= j < n ==> map_of_pairs(tree_pairs(t).take(n)).contains_key(#[trigger] t.key_at(j))
                && map_of_pairs(tree_pairs(t).take(n))[t.key_at(j)] == t.val_at(j),
    decreases n,
{
    t.lemma_keys_unique();
    if n > 0 {
        lemma_map_of_tree_pairs_prefix(t, n - 1);
        assert(tree_pairs(t).take(n).drop_last() =~= tree_pairs(t).take(n - 1));
        assert(tree_pairs(t).take(n).last() == (t.key_at(n - 1), t.val_at(n - 1)));
        let m = map_of_pairs(tree_pairs(t).take(n));
        let m0 = map_of_pairs(tree_pairs(t).take(n - 1));
        assert(m == m0.insert(t.key_at(n - 1), t.val_at(n - 1)));
        assert forall|j: int| 0 <= j < n implies m.contains_key(#[trigger] t.key_at(j))
            && m[t.key_at(j)] == t.val_at(j) by {
            if j < n - 1 {
                assert(t.key_at(j) != t.key_at(n - 1));
            }
        }
    }
}

/// The serialized entries of the working set parse back to exactly its
/// entry list.
pub proof fn lemma_parse_entries_of_encode(t: Tree, data: Seq<u8>, off: int)
    requires
        t.wf(),
        0 <= off <= data.len(),
        data.subrange(off, data.len() as int) =~= entries_bytes(t, 0),
        forall|k: Seq<u8>|
            t.as_map().contains_key(k) ==> slot_wf(#[trigger] t.as_map()[k]) && t.as_map()[k].len()
                <= 512 * 1024 * 1024 + 1,
        forall|k: Seq<u8>| #[trigger] t.as_map().contains_key(k) ==> k.len() <= MAX_KEY_SIZE,
    ensures
        parse_entries(data, off, t.len_spec()) == Some((tree_pairs(t), data.len() as int)),
{
    lemma_parse_entries_of_encode_from(t, data, off, 0);
    assert(tree_pairs_from(t, 0) =~= tree_pairs(t));
}

/// The tail of the working set's entry list from index `i` on.
pub open spec fn tree_pairs_from(t: Tree, i: int) -> Seq<(Seq<u8>, Seq<u8>)> {
    Seq::new((t.len_spec() - i) as nat, |j: int| (t.key_at(i + j), t.val_at(i + j)))
}

proof fn lemma_parse_entries_of_encode_from(t: Tree, data: Seq<u8>, off: int, i: int)
    requires
        t.wf(),
        0 <= i <= t.len_spec(),
        0 <= off <= data.len(),
        data.subrange(off, data.len() as int) =~= entries_bytes(t, i),
        forall|k: Seq<u8>|
            t.as_map().contains_key(k) ==> slot_wf(#[trigger] t.as_map()[k]) && t.as_map()[k].len()
                <= 512 * 1024 * 1024 + 1,
        forall|k: Seq<u8>| #[trigger] t.as_map().contains_key(k) ==> k.len() <= MAX_KEY_SIZE,
    ensures
        parse_entries(data, off, (t.len_spec() - i) as nat) == Some(
            (tree_pairs_from(t, i), data.len() as int),
        ),
    decreases t.len_spec() - i,
{
    vstd::bytes::lemma_auto_spec_u32_to_from_le_bytes();
    if i == t.len_spec() {
        assert(entries_bytes(t, i) =~= Seq::<u8>::empty());
        assert(off == data.len());
        assert(tree_pairs_from(t, i) =~= Seq::<(Seq<u8>, Seq<u8>)>::empty());
    } else {
        t.lemma_entry_in_map(i);
        let key = t.key_at(i);
        let slot = t.val_at(i);
        let eb = entry_bytes(key, slot);
        let rest = entries_bytes(t, i + 1);
        assert(data.subrange(off, data.len() as int) =~= eb + rest);
        let klen = key.len() as int;
        assert(slot_wf(slot));
        if slot.len() == 13 && slot[0] == 1 {
            assert(eb =~= spec_u32_to_le_bytes(key.len() as u32) + key + spec_u32_to_le_bytes(
                0xFFFF_FFFFu32,
            ) + slot.subrange(1, 13));
            assert(eb.len() == 4 + klen + 4 + 12);
            assert(data.subrange(off, off + eb.len() as int) =~= eb);
            assert(eb.subrange(0, 4) =~= spec_u32_to_le_bytes(key.len() as u32));
            assert(eb.subrange(4, 4 + klen) =~= key);
            assert(eb.subrange(4 + klen, 8 + klen) =~= spec_u32_to_le_bytes(0xFFFF_FFFFu32));
            assert(eb.subrange(8 + klen, 8 + klen + 12) =~= slot.subrange(1, 13));
            assert(data.subrange(off, off + 4) =~= eb.subrange(0, 4));
            assert(data.subrange(off + 4, off + 4 + klen) =~= eb.subrange(4, 4 + klen));
            assert(data.subrange(off + 4 + klen, off + 8 + klen) =~= eb.subrange(
                4 + klen,
                8 + klen,
            ));
            assert(data.subrange(off + 8 + klen, off + 8 + klen + 12) =~= eb.subrange(
                8 + klen,
                8 + klen + 12,
            ));
            assert(seq![1u8] + data.subrange(off + 8 + klen, off + 8 + klen + 12) =~= slot);
            assert forall|m: int| 0 <= m < rest.len()
                implies data.subrange(off + 8 + klen + 12, data.len() as int)[m] == rest[m] by {
                assert(data.subrange(off, data.len() as int)[eb.len() + m] == (eb + rest)[
                    eb.len() + m
                ]);
            }
            assert(data.subrange(off + 8 + klen + 12, data.len() as int) =~= rest);
            lemma_parse_entries_of_encode_from(t, data, off + 8 + klen + 12, i + 1);
            assert(seq![(key, slot)] + tree_pairs_from(t, i + 1) =~= tree_pairs_from(t, i));
        } else {
            let vlen = slot.len() - 1;
            assert(eb =~= spec_u32_to_le_bytes(key.len() as u32) + key + spec_u32_to_le_bytes(
                vlen as u32,
            ) + slot.drop_first());
            assert(eb.len() == 4 + klen + 4 + vlen);
            assert(data.subrange(off, off + eb.len() as int) =~= eb);
            assert(eb.subrange(0, 4) =~= spec_u32_to_le_bytes(key.len() as u32));
            assert(eb.subrange(4, 4 + klen) =~= key);
            assert(eb.subrange(4 + klen, 8 + klen) =~= spec_u32_to_le_bytes(vlen as u32));
            assert(eb.subrange(8 + klen, 8 + klen + vlen as int) =~= slot.drop_first());
            assert(data.subrange(off, off + 4) =~= eb.subrange(0, 4));
            assert(data.subrange(off + 4, off + 4 + klen) =~= eb.subrange(4, 4 + klen));
            assert(data.subrange(off + 4 + klen, off + 8 + klen) =~= eb.subrange(
                4 + klen,
                8 + klen,
            ));
            assert(vlen as u32 != 0xFFFF_FFFFu32) by {
                assert(vlen <= 512 * 1024 * 1024);
            }
            assert(data.subrange(off + 8 + klen, off + 8 + klen + vlen as int) =~= eb.subrange(
                8 + klen,
                8 + klen + vlen as int,
            ));
            assert(seq![0u8] + data.subrange(off + 8 + klen, off + 8 + klen + vlen as int)
                =~= slot);
            assert forall|m: int| 0 <= m < rest.len()
                implies data.subrange(off + 8 + klen + vlen as int, data.len() as int)[m]
                    == rest[m] by {
                assert(data.subrange(off, data.len() as int)[eb.len() + m] == (eb + rest)[
                    eb.len() + m
                ]);
            }
            assert(data.subrange(off + 8 + klen + vlen as int, data.len() as int) =~= rest);
            lemma_parse_entries_of_encode_from(t, data, off + 8 + klen + vlen, i + 1);
            assert(seq![(key, slot)] + tree_pairs_from(t, i + 1) =~= tree_pairs_from(t, i));
        }
    }
}

impl Database {
    /// Durability: after a checkpoint, the durable bytes alone determine
    /// the committed working set. The data region parses back to exactly
    /// the working set's entries, the WAL contributes nothing from the
    /// checkpoint on, and recovery therefore rebuilds exactly the
    /// committed map — what `open` returns for this database's image.
    pub proof fn lemma_checkpoint_durability(self)
        requires
            self.wf(),
            self.checkpoint_lsn == self.wal.end_lsn_int(),
            self.data@.subrange(2 * self.page_size as int, 2 * self.page_size + 8)
                =~= spec_u64_to_le_bytes(self.tree.len_spec() as u64),
            self.data@.skip(2 * self.page_size + 8) =~= entries_bytes(self.tree, 0),
        ensures
            parse_entries(self.data@, 2 * self.page_size + 8, self.tree.len_spec()) == Some(
                (tree_pairs(self.tree), self.data@.len() as int),
            ),
            records_of(self.wal.records_from(self.checkpoint_lsn as int))
                =~= Seq::<RecordView>::empty(),
            recovered_map(
                map_of_pairs(tree_pairs(self.tree)),
                records_of(self.wal.records_from(self.checkpoint_lsn as int)),
            ) =~= self.tree.as_map(),
    {
        lemma_parse_entries_of_encode(self.tree, self.data@, 2 * self.page_size + 8);
        self.wal.lemma_records_from_end(self.checkpoint_lsn as int);
        assert(records_of(self.wal.records_from(self.checkpoint_lsn as int))
            =~= Seq::<RecordView>::empty());
        lemma_map_of_tree_pairs(self.tree);
    }
}

/// An upper bound on the page ids consumed by the first `i` staged puts.
pub open spec fn spent_bound(pending: Tree, i: int) -> int
    decreases i when 0 <= i <= pending.len_spec()
{
    if i <= 0 {
        0
    } else {
        spent_bound(pending, i - 1) + pending.val_at(i - 1).len() + 2
    }
}

proof fn lemma_spent_bound_step(pending: Tree, i: int)
    requires
        0 <= i < pending.len_spec(),
    ensures
        spent_bound(pending, i + 1) == spent_bound(pending, i) + pending.val_at(i).len() + 2,
{
}

proof fn lemma_spent_bound_nonneg(pending: Tree, i: int)
    requires
        0 <= i <= pending.len_spec(),
    ensures
        spent_bound(pending, i) >= 0,
    decreases i,
{
    if i > 0 {
        lemma_spent_bound_nonneg(pending, i - 1);
    }
}

proof fn lemma_spent_bound_mono(pending: Tree, a: int, b: int)
    requires
        0 <= a <= b <= pending.len_spec(),
    ensures
        spent_bound(pending, a) <= spent_bound(pending, b),
    decreases b - a,
{
    if a < b {
        lemma_spent_bound_mono(pending, a, b - 1);
    }
}

/// Serializes one entry for batched persistence: the length-prefixed key
/// bytes; the length-prefixed value bytes, or the overflow sentinel and a
/// placeholder reference for values over the threshold; and whether the
/// value goes out of line. The per-item work of parallel write
/// preparation.
pub fn prepare_entry(key: &[u8], value: &[u8], overflow_threshold: usize) -> (r: (
    Vec<u8>,
    Vec<u8>,
    bool,
))
    requires
        key@.len() <= MAX_KEY_SIZE,
        value@.len() <= 0xFFFF_FFFF,
    ensures
        r.0@ =~= spec_u32_to_le_bytes(key@.len() as u32) + key@,
        r.2 == (value@.len() > overflow_threshold),
        r.2 ==> r.1@ =~= spec_u32_to_le_bytes(0xFFFF_FFFFu32) + crate::overflow::zeros(12),
        !r.2 ==> r.1@ =~= spec_u32_to_le_bytes(value@.len() as u32) + value@,
{
    let mut key_data = vstd::bytes::u32_to_le_bytes(key.len() as u32);
    let mut key_copy = vstd::slice::slice_to_vec(key);
    key_data.append(&mut key_copy);
    let is_overflow = value.len() > overflow_threshold;
    let value_data: Vec<u8>;
    if is_overflow {
        let mut d = vstd::bytes::u32_to_le_bytes(0xFFFF_FFFF);
        let ghost header = d@;
        let mut p: usize = 0;
        while p < 12
            invariant
                0 <= p <= 12,
                d@ =~= header + crate::overflow::zeros(p as nat),
            decreases 12 - p,
        {
            d.push(0u8);
            proof {
                assert(crate::overflow::zeros((p + 1) as nat) =~= crate::overflow::zeros(
                    p as nat,
                ).push(0u8));
            }
            p += 1;
        }
        value_data = d;
    } else {
        let mut d = vstd::bytes::u32_to_le_bytes(value.len() as u32);
        let mut value_copy = vstd::slice::slice_to_vec(value);
        d.append(&mut value_copy);
        value_data = d;
    }
    (key_data, value_data, is_overflow)
}

/// Serializes one entry of the data file.
fn encode_entry(key: &[u8], slot: &[u8]) -> (r: Vec<u8>)
    requires
        slot_wf(slot@),
        key@.len() <= MAX_KEY_SIZE,
        slot@.len() <= 512 * 1024 * 1024 + 1,
    ensures
        r@ =~= entry_bytes(key@, slot@),
{
    proof {
        vstd::bytes::lemma_auto_spec_u32_to_from_le_bytes();
    }
    let mut out = vstd::bytes::u32_to_le_bytes(key.len() as u32);
    let mut key_copy = vstd::slice::slice_to_vec(key);
    out.append(&mut key_copy);
    if slot.len() == 13 && slot[0] == 1 {
        let mut marker = vstd::bytes::u32_to_le_bytes(0xFFFF_FFFF);
        out.append(&mut marker);
        let mut oref = vstd::slice::slice_to_vec(
            vstd::slice::slice_subrange(slot, 1, 13),
        );
        out.append(&mut oref);
    } else {
        let mut vlen = vstd::bytes::u32_to_le_bytes((slot.len() - 1) as u32);
        out.append(&mut vlen);
        let mut v = vstd::slice::slice_to_vec(
            vstd::slice::slice_subrange(slot, 1, slot.len()),
        );
        proof {
            assert(slot@.subrange(1, slot@.len() as int) =~= slot@.drop_first());
        }
        out.append(&mut v);
    }
    out
}

/// Overwrites `src.len()` bytes of `data` at `off`.
fn write_bytes_at(data: &mut Vec<u8>, off: usize, src: &Vec<u8>)
    requires
        off + src@.len() <= old(data)@.len(),
    ensures
        final(data)@.len() == old(data)@.len(),
        final(data)@ =~= old(data)@.take(off as int) + src@ + old(data)@.skip(
            off + src@.len(),
        ),
{
    let dlen = data.len();
    let mut i: usize = 0;
    while i < src.len()
        invariant
            0 <= i <= src@.len(),
            off + src@.len() <= dlen,
            dlen == data@.len(),
            data@.len() == old(data)@.len(),
            forall|j: int| 0 <= j < i ==> #[trigger] data@[off + j] == src@[j],
            forall|j: int|
                0 <= j < data@.len() && !(off <= j < off + i) ==> #[trigger] data@[j] == old(
                    data,
                )@[j],
        decreases src@.len() - i,
    {
        data.set(off + i, src[i]);
        i += 1;
    }
    proof {
        let target = old(data)@.take(off as int) + src@ + old(data)@.skip(off + src@.len());
        assert forall|j: int| 0 <= j < data@.len() implies data@[j] == target[j] by {
            if off <= j < off + src@.len() {
                assert(data@[off + (j - off)] == src@[j - off]);
            }
        }
        assert(data@ =~= target);
    }
}

/// Extends a byte vector with zeros up to `target` length.
fn extend_zeros(data: &mut Vec<u8>, target: usize)
    ensures
        old(data)@.len() >= target ==> final(data)@ == old(data)@,
        old(data)@.len() < target ==> final(data)@ =~= old(data)@ + crate::overflow::zeros(
            (target - old(data)@.len()) as nat,
        ) && final(data)@.len() == target,
{
    let ghost orig = data@;
    while data.len() < target
        invariant
            orig.len() >= target ==> data@ == orig,
            orig.len() < target ==> data@.len() <= target && data@ =~= orig
                + crate::overflow::zeros((data@.len() - orig.len()) as nat),
        decreases target - data@.len(),
    {
        data.push(0u8);
        proof {
            if orig.len() < target {
                assert(crate::overflow::zeros((data@.len() - orig.len()) as nat)
                    =~= crate::overflow::zeros((data@.len() - orig.len() - 1) as nat).push(0u8));
            }
        }
    }
}

} // verus!
