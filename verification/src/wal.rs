//! Segmented write-ahead log.
//!
//! The log is a sequence of fixed-capacity segments; segment `id` covers
//! the LSN range `[id * segment_size, (id + 1) * segment_size)`. An LSN is
//! the logical byte offset at which a record begins. Records never span
//! segments: an append that does not fit seals the active segment and
//! rolls to a new one.
//!
//! The `Wal` here holds the log contents as bytes in memory; callers that
//! keep the log on disk mirror these bytes into segment files and fsync
//! them on `sync`, which this type models with its durable watermark.

use vstd::prelude::*;

use crate::error::Error;
use crate::wal_record::RecordView;
use crate::wal_record::WalRecord;
use crate::wal_record::decode_spec;
use crate::wal_record::encode_spec;
use crate::wal_record::payload_spec;
use crate::wal_record::record_replayable;
use crate::wal_record::RECORD_HEADER_SIZE;

verus! {

/// Log sequence number: the logical byte offset of a record in the WAL.
pub type Lsn = u64;

/// When the WAL fsyncs.
#[derive(Debug, Clone, Copy, PartialEq, Eq, Structural)]
pub enum SyncPolicy {
    /// Never fsync (fastest, no durability).
    Never,
    /// Fsync after every append.
    EveryWrite,
    /// Fsync at most every so many milliseconds.
    IntervalMs(u64),
    /// Fsync through the group-commit coordinator.
    Group,
}

/// Configuration for the WAL.
#[derive(Debug, Clone, Copy, PartialEq, Eq, Structural)]
pub struct WalConfig {
    /// Capacity of each segment in bytes.
    pub segment_size: usize,
    /// When to fsync.
    pub sync_policy: SyncPolicy,
}

/// One log segment: its id and its bytes.
pub struct WalSegment {
    pub id: u64,
    pub data: Vec<u8>,
}

/// The mathematical view of a segment.
pub struct SegView {
    pub id: u64,
    pub data: Seq<u8>,
}

impl View for WalSegment {
    type V = SegView;

    open spec fn view(&self) -> SegView {
        SegView { id: self.id, data: self.data@ }
    }
}

/// The offset at which sequential record parsing of `data` stops: either
/// the end of the data or the first malformed record.
pub open spec fn scan_end(data: Seq<u8>, off: int) -> int
    decreases data.len() - off when 0 <= off <= data.len()
{
    if off >= data.len() {
        off
    } else {
        match decode_spec(data.subrange(off, data.len() as int)) {
            Some((rec, n)) => scan_end(data, off + n),
            None => off,
        }
    }
}

/// The records parsed sequentially from `data` starting at `off`, paired
/// with their absolute LSNs (`base` is the LSN of offset 0); only records
/// with LSN at least `lsn` are kept. Parsing stops at the first malformed
/// record: that is the torn tail.
pub open spec fn scan_records(data: Seq<u8>, off: int, base: int, lsn: int) -> Seq<(int, RecordView)>
    decreases data.len() - off when 0 <= off <= data.len()
{
    if off >= data.len() {
        Seq::empty()
    } else {
        match decode_spec(data.subrange(off, data.len() as int)) {
            Some((rec, n)) => {
                let here: Seq<(int, RecordView)> = if base + off >= lsn {
                    seq![(base + off, rec)]
                } else {
                    Seq::empty()
                };
                here + scan_records(data, off + n, base, lsn)
            }
            None => Seq::empty(),
        }
    }
}

/// What `from_segments` accepts: every segment fits the capacity, every
/// id is in the addressable LSN range, and ids are consecutive.
pub open spec fn segments_well_formed(segs: Seq<SegView>, segment_size: int) -> bool {
    forall|i: int|
        0 <= i < segs.len() ==> {
            &&& (#[trigger] segs[i]).data.len() <= segment_size
            &&& (segs[i].id as int) < u64::MAX as int / segment_size
            &&& (i > 0 ==> segs[i].id == segs[i - 1].id + 1)
        }
}

/// Decoding the front of a buffer is not affected by bytes appended
/// behind it.
pub proof fn lemma_decode_extend(data: Seq<u8>, ext: Seq<u8>)
    requires
        decode_spec(data) is Some,
    ensures
        decode_spec(data + ext) == decode_spec(data),
{
    let d2 = data + ext;
    assert(d2.subrange(0, 4) =~= data.subrange(0, 4));
    assert(d2.subrange(5, 9) =~= data.subrange(5, 9));
    assert(d2[4] == data[4]);
    let total = vstd::bytes::spec_u32_from_le_bytes(data.subrange(0, 4)) as int;
    assert(RECORD_HEADER_SIZE <= total <= data.len());
    assert(d2.subrange(RECORD_HEADER_SIZE as int, total)
        =~= data.subrange(RECORD_HEADER_SIZE as int, total));
}

impl Wal {
    /// The views of the segments.
    pub open spec fn segs(self) -> Seq<SegView> {
        self.segments@.map(|i: int, s: WalSegment| s@)
    }

    /// The LSN at which a segment starts.
    pub open spec fn seg_base(self, i: int) -> int {
        self.segs()[i].id * self.segment_size
    }

    /// The next LSN to be handed out: the logical end of the log.
    pub open spec fn end_lsn_int(self) -> int {
        if self.segs().len() == 0 {
            0
        } else {
            self.seg_base(self.segs().len() - 1)
                + self.segs()[self.segs().len() - 1].data.len()
        }
    }

    /// Structural well-formedness of the log.
    pub open spec fn wf(self) -> bool {
        &&& self.segment_size >= 64
        &&& forall|i: int|
            0 <= i < self.segs().len()
                ==> (#[trigger] self.segs()[i]).data.len() <= self.segment_size
        &&& forall|i: int|
            0 <= i < self.segs().len()
                ==> (#[trigger] self.segs()[i]).id == self.segs()[0].id + i
        &&& self.segs().len() > 0
            ==> (self.segs()[self.segs().len() - 1].id + 1) * self.segment_size
                <= u64::MAX
    }

    /// Every segment parses cleanly from start to end (no torn bytes).
    pub open spec fn clean(self) -> bool {
        forall|i: int|
            0 <= i < self.segs().len()
                ==> scan_end((#[trigger] self.segs()[i]).data, 0)
                    == self.segs()[i].data.len()
    }

    /// All records at or after `lsn`, in LSN order, up to the first torn
    /// record.
    pub open spec fn records_from_seg(self, i: int, lsn: int) -> Seq<(int, RecordView)>
        decreases self.segs().len() - i when 0 <= i <= self.segs().len()
    {
        if i >= self.segs().len() {
            Seq::empty()
        } else {
            let s = self.segs()[i];
            let here = scan_records(s.data, 0, s.id * self.segment_size, lsn);
            if scan_end(s.data, 0) == s.data.len() {
                here + self.records_from_seg(i + 1, lsn)
            } else {
                here
            }
        }
    }

    /// All records at or after `lsn`.
    pub open spec fn records_from(self, lsn: int) -> Seq<(int, RecordView)> {
        self.records_from_seg(0, lsn)
    }

    /// Creates an empty log.
    pub fn new(config: WalConfig) -> (r: Wal)
        requires
            config.segment_size >= 64,
        ensures
            r.wf(),
            r.clean(),
            r.segment_size == config.segment_size,
            r.sync_policy == config.sync_policy,
            r.segs().len() == 0,
            r.end_lsn_int() == 0,
            r.synced == 0,
    {
        Wal {
            segment_size: config.segment_size,
            sync_policy: config.sync_policy,
            segments: Vec::new(),
            synced: 0,
        }
    }

    /// Rebuilds a log from existing segment contents, as read back from a
    /// log directory. Fails with `Corrupted` when the segments do not form
    /// a well-shaped log (sizes over the segment capacity, ids not
    /// consecutive, or LSNs beyond the addressable range).
    #[verifier::loop_isolation(false)]
    pub fn from_segments(config: WalConfig, segments: Vec<WalSegment>) -> (r: Result<Wal, Error>)
        requires
            config.segment_size >= 64,
        ensures
            r is Ok <==> segments_well_formed(
                segments@.map(|i: int, s: WalSegment| s@),
                config.segment_size as int,
            ),
            match r {
                Ok(w) => {
                    &&& w.wf()
                    &&& w.segment_size == config.segment_size
                    &&& w.segs() == segments@.map(|i: int, s: WalSegment| s@)
                },
                Err(e) => e is Corrupted,
            },
    {
        let ghost sv = segments@.map(|i: int, s: WalSegment| s@);
        let n = segments.len();
        let mut i: usize = 0;
        while i < n
            invariant
                0 <= i <= n,
                n == segments@.len(),
                config.segment_size >= 64,
                forall|j: int|
                    0 <= j < i ==> (#[trigger] segments@[j])@.data.len() <= config.segment_size,
                forall|j: int|
                    0 <= j < i ==> (#[trigger] segments@[j])@.id == segments@[0]@.id + j,
                forall|j: int|
                    0 <= j < i
                        ==> ((#[trigger] segments@[j])@.id + 1) * (config.segment_size as int)
                            <= u64::MAX,
            decreases n - i,
        {
            if segments[i].data.len() > config.segment_size {
                proof {
                    assert(sv[i as int] == segments@[i as int]@);
                    assert(!(sv[i as int].data.len() <= config.segment_size));
                    assert(!segments_well_formed(sv, config.segment_size as int));
                }
                return Err(Error::Corrupted("wal segment larger than segment size".to_owned()));
            }
            if segments[i].id >= u64::MAX / (config.segment_size as u64) {
                proof {
                    assert(sv[i as int] == segments@[i as int]@);
                    assert((sv[i as int].id as int) >= u64::MAX as int / (
                    config.segment_size as int));
                    assert(!segments_well_formed(sv, config.segment_size as int));
                }
                return Err(Error::Corrupted("wal segment beyond addressable range".to_owned()));
            }
            if i > 0 {
                let prev_id = segments[i - 1].id;
                proof {
                    let ss = config.segment_size as int;
                    assert((prev_id as int) + 1 <= u64::MAX) by (nonlinear_arith)
                        requires
                            ((prev_id as int) + 1) * ss <= u64::MAX,
                            ss >= 64,
                    {}
                }
                if segments[i].id != prev_id + 1 {
                    proof {
                        assert(sv[i as int] == segments@[i as int]@);
                        assert(sv[i - 1] == segments@[i - 1]@);
                        assert(sv[i as int].id != sv[i - 1].id + 1);
                        assert(!segments_well_formed(sv, config.segment_size as int));
                    }
                    return Err(Error::Corrupted("wal segment ids not consecutive".to_owned()));
                }
            }
            proof {
                let id = segments@[i as int]@.id;
                let ss = config.segment_size as u64;
                assert((id + 1) * ss <= u64::MAX) by (nonlinear_arith)
                    requires
                        id < u64::MAX / ss,
                        ss >= 64,
                {}
                if i > 0 {
                    assert(segments@[i as int]@.id == segments@[i - 1]@.id + 1);
                    assert(segments@[i - 1]@.id == segments@[0]@.id + (i - 1));
                }
            }
            i += 1;
        }
        proof {
            assert forall|j: int| 0 <= j < sv.len() implies {
                &&& (#[trigger] sv[j]).data.len() <= config.segment_size
                &&& (sv[j].id as int) < u64::MAX as int / (config.segment_size as int)
                &&& (j > 0 ==> sv[j].id == sv[j - 1].id + 1)
            } by {
                let ss = config.segment_size as int;
                let id = sv[j].id as int;
                assert((id + 1) * ss <= u64::MAX);
                assert(id < u64::MAX as int / ss) by (nonlinear_arith)
                    requires
                        (id + 1) * ss <= u64::MAX,
                        ss >= 64,
                        id >= 0,
                {}
                if j > 0 {
                    assert(sv[j].id == sv[0].id + j);
                    assert(sv[j - 1].id == sv[0].id + j - 1);
                }
            }
        }
        let w = Wal {
            segment_size: config.segment_size,
            sync_policy: config.sync_policy,
            segments,
            synced: 0,
        };
        proof {
            assert(w.segs() =~= w.segments@.map(|i: int, s: WalSegment| s@));
        }
        Ok(w)
    }

    /// The LSN that the next appended record will receive.
    pub fn end_lsn(&self) -> (r: u64)
        requires
            self.wf(),
        ensures
            r == self.end_lsn_int(),
    {
        let n = self.segments.len();
        if n == 0 {
            0
        } else {
            let last = &self.segments[n - 1];
            proof {
                let ss = self.segment_size as u64;
                let id = self.segs()[n - 1].id;
                assert(id * ss + ss <= u64::MAX) by (nonlinear_arith)
                    requires
                        (id + 1) * ss <= u64::MAX,
                {}
            }
            last.id * (self.segment_size as u64) + (last.data.len() as u64)
        }
    }

    /// Sum of segment sizes.
    pub open spec fn size_int(self) -> int {
        self.size_int_to(self.segs().len() as int)
    }

    /// Sum of the sizes of the first `i` segments.
    pub open spec fn size_int_to(self, i: int) -> int
        decreases i when 0 <= i <= self.segs().len()
    {
        if i <= 0 {
            0
        } else {
            self.size_int_to(i - 1) + self.segs()[i - 1].data.len()
        }
    }

    /// Approximate size of the log: the sum of its segment sizes.
    pub fn approximate_size(&self) -> (r: u64)
        requires
            self.wf(),
        ensures
            r == self.size_int(),
    {
        proof {
            self.lemma_size_fits();
            self.lemma_size_mono(0, self.segs().len() as int);
        }
        let mut total: u64 = 0;
        let mut i: usize = 0;
        while i < self.segments.len()
            invariant
                0 <= i <= self.segs().len(),
                self.wf(),
                total == self.size_int_to(i as int),
                self.size_int() <= u64::MAX,
            decreases self.segs().len() - i,
        {
            proof {
                self.lemma_size_mono(i as int + 1, self.segs().len() as int);
            }
            total = total + (self.segments[i].data.len() as u64);
            i += 1;
        }
        total
    }

    /// Partial sums of segment sizes grow with the index.
    proof fn lemma_size_mono(self, i: int, j: int)
        requires
            0 <= i <= j <= self.segs().len(),
        ensures
            self.size_int_to(i) <= self.size_int_to(j),
        decreases j - i,
    {
        if i < j {
            self.lemma_size_mono(i, j - 1);
        }
    }

    /// The total size is bounded by the number of segments in use.
    proof fn lemma_size_bounded(self, i: int)
        requires
            self.wf(),
            0 <= i <= self.segs().len(),
        ensures
            self.size_int_to(i) <= i * self.segment_size,
        decreases i,
    {
        let ss = self.segment_size as int;
        if i > 0 {
            self.lemma_size_bounded(i - 1);
            assert(self.segs()[i - 1].data.len() <= self.segment_size);
            assert((i - 1) * ss + ss == i * ss) by (nonlinear_arith) {}
        } else {
            assert(i * ss == 0) by (nonlinear_arith)
                requires
                    i == 0,
            {}
        }
    }

    /// The total size fits in the addressable LSN range.
    proof fn lemma_size_fits(self)
        requires
            self.wf(),
        ensures
            self.size_int() <= u64::MAX,
    {
        let n = self.segs().len() as int;
        if n > 0 {
            self.lemma_size_bounded(n);
            let ss = self.segment_size as int;
            let id0 = self.segs()[0].id as int;
            let idl = self.segs()[n - 1].id as int;
            assert(idl == id0 + n - 1);
            assert((idl + 1) * ss <= u64::MAX);
            assert(n * ss <= (idl + 1) * ss) by (nonlinear_arith)
                requires
                    0 <= n,
                    idl + 1 >= n,
                    ss >= 0,
            {}
        }
    }
}

impl Wal {
    /// Appends an encoded record to the log, rolling to a new segment when
    /// it does not fit in the active one, and returns the record's LSN.
    /// No fsync is implied. Fails only when the 64-bit LSN space is
    /// exhausted, in which case the log is unchanged.
    pub fn append(&mut self, record: &WalRecord) -> (r: Result<Lsn, Error>)
        requires
            old(self).wf(),
            record_replayable(record@),
            RECORD_HEADER_SIZE + payload_spec(record@).len() <= old(self).segment_size,
        ensures
            final(self).wf(),
            final(self).segment_size == old(self).segment_size,
            final(self).sync_policy == old(self).sync_policy,
            final(self).synced == old(self).synced,
            match r {
                Ok(lsn) => {
                    &&& old(self).end_lsn_int() <= lsn as int
                    &&& lsn as int <= old(self).end_lsn_int() + old(self).segment_size
                    &&& lsn as int + encode_spec(record@).len() == final(self).end_lsn_int()
                    &&& old(self).clean() ==> final(self).clean()
                    &&& old(self).clean() ==> forall|l: int|
                        l <= lsn as int ==> #[trigger] final(self).records_from(l)
                            =~= old(self).records_from(l).push((lsn as int, record@))
                },
                Err(e) => {
                    &&& e is Io
                    &&& *final(self) == *old(self)
                    // the only failure: the 64-bit LSN space is exhausted
                    &&& old(self).segs().len() > 0
                    &&& old(self).segs()[old(self).segs().len() - 1].id >= u64::MAX / (
                    old(self).segment_size as u64) - 1
                },
            },
    {
        let enc = record.encode();
        let enc_len = enc.len();
        let ghost w0 = *self;

        let rolled: bool;
        if self.segments.len() == 0 {
            self.segments.push(WalSegment { id: 0, data: Vec::new() });
            rolled = true;
        } else {
            let n = self.segments.len();
            if enc_len > self.segment_size - self.segments[n - 1].data.len() {
                let last_id = self.segments[n - 1].id;
                proof {
                    let ss = self.segment_size as u64;
                    assert(u64::MAX / ss >= 1) by (nonlinear_arith)
                        requires
                            64 <= ss <= u64::MAX,
                    {}
                }
                if last_id >= u64::MAX / (self.segment_size as u64) - 1 {
                    return Err(Error::Io("wal lsn space exhausted".to_owned()));
                }
                proof {
                    let ss = self.segment_size as int;
                    let id = last_id as int;
                    assert((id + 2) * ss <= u64::MAX) by (nonlinear_arith)
                        requires
                            id < u64::MAX as int / ss - 1,
                            64 <= ss <= u64::MAX,
                    {}
                }
                self.segments.push(WalSegment { id: last_id + 1, data: Vec::new() });
                rolled = true;
            } else {
                rolled = false;
            }
        }

        let ghost w1 = *self;
        proof {
            // w1 is well-formed: the possibly-pushed segment is empty and
            // its id extends the consecutive run by one.
            assert forall|i: int|
                0 <= i < w1.segs().len()
                    implies (#[trigger] w1.segs()[i]).id == w1.segs()[0].id + i by {
                if i < w0.segs().len() {
                    assert(w1.segs()[i] == w0.segs()[i]);
                }
            }
            assert forall|i: int|
                0 <= i < w1.segs().len()
                    implies (#[trigger] w1.segs()[i]).data.len() <= w1.segment_size by {
                if i < w0.segs().len() {
                    assert(w1.segs()[i] == w0.segs()[i]);
                }
            }
            assert((w1.segs()[w1.segs().len() - 1].id + 1) * w1.segment_size <= u64::MAX) by {
                if !rolled {
                } else if w0.segs().len() == 0 {
                    let ss = w1.segment_size as int;
                    assert(w1.segs()[0].id == 0);
                    assert(1 * ss == ss) by (nonlinear_arith) {}
                }
            }
            assert(w1.wf());
            assert(w0.end_lsn_int()
                <= w1.seg_base(w1.segs().len() - 1)
                    + w1.segs()[w1.segs().len() - 1].data.len()) by {
                if rolled && w0.segs().len() > 0 {
                    let ss = w1.segment_size as int;
                    let id = w0.segs()[w0.segs().len() - 1].id as int;
                    assert(w0.end_lsn_int() <= id * ss + ss);
                    assert(id * ss + ss == (id + 1) * ss) by (nonlinear_arith) {}
                }
            }
        }
        let n = self.segments.len();
        let mut seg = match self.segments.pop() {
            Some(s) => s,
            None => {
                proof {
                    assert(false);
                }
                WalSegment { id: 0, data: Vec::new() }
            }
        };
        proof {
            let ss = self.segment_size as u64;
            let id = seg@.id;
            assert(id * ss + ss <= u64::MAX) by (nonlinear_arith)
                requires
                    (id + 1) * ss <= u64::MAX,
            {}
        }
        let lsn: u64 = seg.id * (self.segment_size as u64) + (seg.data.len() as u64);
        proof {
            let ss = self.segment_size as int;
            if rolled {
                if w0.segs().len() > 0 {
                    let lid = w0.segs()[w0.segs().len() - 1].id as int;
                    assert((lid + 1) * ss == lid * ss + ss) by (nonlinear_arith) {}
                } else {
                    assert(0 * ss == 0) by (nonlinear_arith) {}
                }
            }
            assert(lsn as int <= w0.end_lsn_int() + ss);
        }
        let ghost old_seg_data = seg.data@;
        let mut enc_owned = enc;
        seg.data.append(&mut enc_owned);
        self.segments.push(seg);
        proof {
            assert(self.segs() =~= w1.segs().update(
                w1.segs().len() - 1,
                SegView {
                    id: w1.segs()[w1.segs().len() - 1].id,
                    data: old_seg_data + encode_spec(record@),
                },
            ));
            assert forall|i: int|
                0 <= i < self.segs().len()
                    implies (#[trigger] self.segs()[i]).id == self.segs()[0].id + i by {
                if i < self.segs().len() - 1 {
                    assert(self.segs()[i] == w1.segs()[i]);
                }
            }
            assert(self.wf());
            assert(lsn as int + encode_spec(record@).len() == self.end_lsn_int());
            if w0.clean() {
                assert(w1.clean()) by {
                    assert forall|i: int|
                        0 <= i < w1.segs().len()
                            implies scan_end((#[trigger] w1.segs()[i]).data, 0)
                                == w1.segs()[i].data.len() by {
                        if i < w0.segs().len() {
                            assert(w1.segs()[i] == w0.segs()[i]);
                            assert(scan_end(w0.segs()[i].data, 0) == w0.segs()[i].data.len());
                        } else {
                            assert(w1.segs()[i].data =~= Seq::<u8>::empty());
                        }
                    }
                }
                assert(self.clean()) by {
                    assert forall|i: int|
                        0 <= i < self.segs().len()
                            implies scan_end((#[trigger] self.segs()[i]).data, 0)
                                == self.segs()[i].data.len() by {
                        if i < self.segs().len() - 1 {
                            assert(self.segs()[i] == w1.segs()[i]);
                            assert(scan_end(w1.segs()[i].data, 0) == w1.segs()[i].data.len());
                        } else {
                            let base = w1.segs()[i].id * w1.segment_size as int;
                            assert(scan_end(old_seg_data, 0) == old_seg_data.len());
                            lemma_scan_append(old_seg_data, record@, 0, base, 0);
                        }
                    }
                }
                assert forall|l: int| l <= lsn as int
                    implies #[trigger] self.records_from(l)
                        =~= w0.records_from(l).push((lsn as int, record@)) by {
                    if rolled {
                        w1.lemma_records_push_empty(w0, l);
                    }
                    self.lemma_records_extend_last(w1, 0, l, record@, old_seg_data, lsn as int);
                }
            }
        }
        Ok(lsn)
    }

    /// Extending the last segment of a clean log by one well-formed record
    /// appends that record to the stream, for any replay start at or below
    /// its LSN.
    proof fn lemma_records_extend_last(
        self,
        w1: Wal,
        i: int,
        l: int,
        rec: RecordView,
        old_seg_data: Seq<u8>,
        lsn: int,
    )
        requires
            w1.clean(),
            w1.segs().len() > 0,
            record_replayable(rec),
            0 <= i < w1.segs().len(),
            old_seg_data == w1.segs()[w1.segs().len() - 1].data,
            self.segment_size == w1.segment_size,
            self.segs() =~= w1.segs().update(
                w1.segs().len() - 1,
                SegView {
                    id: w1.segs()[w1.segs().len() - 1].id,
                    data: old_seg_data + encode_spec(rec),
                },
            ),
            lsn == w1.segs()[w1.segs().len() - 1].id * w1.segment_size as int
                + old_seg_data.len(),
            l <= lsn,
        ensures
            self.records_from_seg(i, l) =~= w1.records_from_seg(i, l).push((lsn, rec)),
        decreases w1.segs().len() - i,
    {
        let last = w1.segs().len() - 1;
        let base = w1.segs()[last].id * w1.segment_size as int;
        if i == last {
            assert(scan_end(old_seg_data, 0) == old_seg_data.len());
            lemma_scan_append(old_seg_data, rec, 0, base, l);
            assert(self.segs()[i].data =~= old_seg_data + encode_spec(rec));
            assert(self.records_from_seg(i + 1, l) =~= Seq::<(int, RecordView)>::empty());
            assert(w1.records_from_seg(i + 1, l) =~= Seq::<(int, RecordView)>::empty());
            assert(scan_records(self.segs()[i].data, 0, base, l)
                =~= scan_records(old_seg_data, 0, base, l) + seq![(lsn, rec)]);
        } else {
            self.lemma_records_extend_last(w1, i + 1, l, rec, old_seg_data, lsn);
            assert(self.segs()[i] == w1.segs()[i]);
            assert(scan_end(w1.segs()[i].data, 0) == w1.segs()[i].data.len());
        }
    }

    /// Pushing an empty segment onto a log does not change its record
    /// stream.
    proof fn lemma_records_push_empty(self, w0: Wal, l: int)
        requires
            self.segs().len() == w0.segs().len() + 1,
            forall|j: int| 0 <= j < w0.segs().len() ==> #[trigger] self.segs()[j] == w0.segs()[j],
            self.segs()[self.segs().len() - 1].data == Seq::<u8>::empty(),
            self.segment_size == w0.segment_size,
        ensures
            self.records_from(l) =~= w0.records_from(l),
    {
        let n = w0.segs().len() as int;
        assert(self.records_from_seg(n + 1, l) =~= Seq::<(int, RecordView)>::empty());
        assert(self.records_from_seg(n, l) =~= Seq::<(int, RecordView)>::empty());
        self.lemma_records_seg_eq(w0, 0, l);
    }

    /// If two logs agree on the first `n` segments and the longer one's
    /// stream beyond them is empty, the streams agree.
    proof fn lemma_records_seg_eq(self, w0: Wal, i: int, l: int)
        requires
            0 <= i <= w0.segs().len(),
            self.segs().len() == w0.segs().len() + 1,
            self.segment_size == w0.segment_size,
            forall|j: int| 0 <= j < w0.segs().len() ==> #[trigger] self.segs()[j] == w0.segs()[j],
            self.records_from_seg(w0.segs().len() as int, l)
                =~= Seq::<(int, RecordView)>::empty(),
        ensures
            self.records_from_seg(i, l) =~= w0.records_from_seg(i, l),
        decreases w0.segs().len() - i,
    {
        let n = w0.segs().len() as int;
        if i < n {
            self.lemma_records_seg_eq(w0, i + 1, l);
            assert(self.segs()[i] == w0.segs()[i]);
        }
    }
    /// Marks everything appended so far as durable. The in-memory log
    /// records the watermark; a file-backed deployment fsyncs the active
    /// segment here.
    pub fn sync(&mut self) -> (r: Result<(), Error>)
        requires
            old(self).wf(),
        ensures
            r is Ok,
            final(self).segments == old(self).segments,
            final(self).segment_size == old(self).segment_size,
            final(self).sync_policy == old(self).sync_policy,
            final(self).synced == old(self).end_lsn_int(),
            final(self).wf(),
    {
        let end = self.end_lsn();
        self.synced = end;
        Ok(())
    }

    /// Removes every segment whose entire LSN range lies strictly below
    /// `lsn`; the active segment is always retained.
    pub fn truncate_before(&mut self, lsn: Lsn) -> (r: Result<(), Error>)
        requires
            old(self).wf(),
        ensures
            r is Ok,
            final(self).wf(),
            final(self).segment_size == old(self).segment_size,
            final(self).sync_policy == old(self).sync_policy,
            final(self).synced == old(self).synced,
            final(self).segs().len() <= old(self).segs().len(),
            final(self).segs() =~= old(self).segs().skip(
                old(self).segs().len() - final(self).segs().len(),
            ),
            old(self).segs().len() > 0 ==> final(self).segs().len() > 0,
            // every dropped segment lay entirely below lsn
            forall|i: int|
                0 <= i < old(self).segs().len() - final(self).segs().len()
                    ==> ((#[trigger] old(self).segs()[i]).id + 1) * old(self).segment_size
                        <= lsn,
            final(self).end_lsn_int() == old(self).end_lsn_int(),
    {
        loop
            invariant
                self.wf(),
                self.segment_size == old(self).segment_size,
                self.sync_policy == old(self).sync_policy,
                self.synced == old(self).synced,
                self.segs().len() <= old(self).segs().len(),
                self.segs() =~= old(self).segs().skip(
                    old(self).segs().len() - self.segs().len(),
                ),
                old(self).segs().len() > 0 ==> self.segs().len() > 0,
                forall|i: int|
                    0 <= i < old(self).segs().len() - self.segs().len()
                        ==> ((#[trigger] old(self).segs()[i]).id + 1) * old(self).segment_size
                            <= lsn,
                self.end_lsn_int() == old(self).end_lsn_int(),
            decreases self.segs().len(),
        {
            if self.segments.len() <= 1 {
                return Ok(());
            }
            let first = &self.segments[0];
            proof {
                let ss = self.segment_size as u64;
                let id = self.segs()[0].id;
                let n = self.segs().len() as int;
                let idl = self.segs()[n - 1].id;
                assert(id + 1 <= idl + 1);
                assert((id as int + 1) * ss <= (idl as int + 1) * ss) by (nonlinear_arith)
                    requires
                        id as int + 1 <= idl as int + 1,
                        ss >= 0,
                {}
                assert(id * ss + ss <= u64::MAX) by (nonlinear_arith)
                    requires
                        (id as int + 1) * ss <= u64::MAX,
                {}
            }
            if first.id * (self.segment_size as u64) + (self.segment_size as u64) > lsn {
                return Ok(());
            }
            let ghost before = *self;
            let _ = self.segments.remove(0);
            proof {
                assert(self.segs() =~= before.segs().skip(1));
                assert forall|i: int|
                    0 <= i < self.segs().len()
                        implies (#[trigger] self.segs()[i]).id == self.segs()[0].id + i by {
                    assert(self.segs()[i] == before.segs()[i + 1]);
                    assert(self.segs()[0] == before.segs()[1]);
                }
                assert(self.segs() =~= old(self).segs().skip(
                    old(self).segs().len() - self.segs().len(),
                ));
                let k = old(self).segs().len() - before.segs().len();
                assert(before.segs()[0] == old(self).segs()[k]);
                let ss = before.segment_size as int;
                let id = before.segs()[0].id as int;
                assert((id + 1) * ss == id * ss + ss) by (nonlinear_arith) {}
                assert forall|i: int|
                    0 <= i < old(self).segs().len() - self.segs().len()
                        implies ((#[trigger] old(self).segs()[i]).id + 1)
                            * old(self).segment_size <= lsn by {
                    if i < k {
                    } else {
                        assert(i == k);
                        assert(old(self).segs()[i].id as int == id);
                    }
                }
            }
        }
    }
}

/// Scanning a clean byte run extended by one well-formed record parses
/// the old records and then the new one.
pub proof fn lemma_scan_append(data: Seq<u8>, rec: RecordView, off: int, base: int, lsn: int)
    requires
        record_replayable(rec),
        0 <= off <= data.len(),
        scan_end(data, off) == data.len(),
    ensures
        scan_end(data + encode_spec(rec), off) == data.len() + encode_spec(rec).len(),
        scan_records(data + encode_spec(rec), off, base, lsn) =~= scan_records(data, off, base, lsn)
            + if base + data.len() >= lsn {
                seq![(base + data.len(), rec)]
            } else {
                Seq::<(int, RecordView)>::empty()
            },
    decreases data.len() - off,
{
    let enc = encode_spec(rec);
    let d2 = data + enc;
    if off >= data.len() {
        assert(off == data.len());
        assert(d2.subrange(off, d2.len() as int) =~= enc);
        assert(enc + Seq::<u8>::empty() =~= enc);
        crate::wal_record::lemma_decode_encode(rec, Seq::<u8>::empty());
        assert(decode_spec(enc) == Some((rec, enc.len() as int)));
        assert(scan_end(d2, off + enc.len()) == d2.len());
        assert(scan_records(d2, off + enc.len(), base, lsn)
            =~= Seq::<(int, RecordView)>::empty());
    } else {
        let tail = data.subrange(off, data.len() as int);
        assert(decode_spec(tail) is Some) by {
            if decode_spec(tail) is None {
                assert(scan_end(data, off) == off);
            }
        }
        let (r0, n0) = decode_spec(tail)->Some_0;
        lemma_decode_extend(tail, enc);
        assert(d2.subrange(off, d2.len() as int) =~= tail + enc);
        lemma_scan_append(data, rec, off + n0, base, lsn);
    }
}

/// Records at or past the end of the log: none.
impl Wal {
    /// A replay that starts at or past the end of the log yields nothing.
    pub proof fn lemma_records_from_end(self, lsn: int)
        requires
            self.wf(),
            lsn >= self.end_lsn_int(),
        ensures
            self.records_from(lsn) =~= Seq::<(int, RecordView)>::empty(),
    {
        self.lemma_records_from_end_seg(0, lsn);
    }

    /// Segment `i` starts no earlier than segment 0.
    proof fn lemma_seg_end_le_end(self, i: int)
        requires
            self.wf(),
            0 <= i < self.segs().len(),
        ensures
            self.seg_base(i) + self.segs()[i].data.len() <= self.end_lsn_int(),
        decreases self.segs().len() - i,
    {
        let n = self.segs().len() as int;
        let ss = self.segment_size as int;
        if i == n - 1 {
        } else {
            self.lemma_seg_end_le_end(i + 1);
            let idi = self.segs()[i].id as int;
            let idn = self.segs()[i + 1].id as int;
            assert(idn == idi + 1);
            assert(self.segs()[i].data.len() <= ss);
            assert(idi * ss + ss == (idi + 1) * ss) by (nonlinear_arith) {}
        }
    }

    proof fn lemma_records_from_end_seg(self, i: int, lsn: int)
        requires
            self.wf(),
            lsn >= self.end_lsn_int(),
            0 <= i <= self.segs().len(),
        ensures
            self.records_from_seg(i, lsn) =~= Seq::<(int, RecordView)>::empty(),
        decreases self.segs().len() - i,
    {
        if i < self.segs().len() {
            self.lemma_records_from_end_seg(i + 1, lsn);
            self.lemma_seg_end_le_end(i);
            let s = self.segs()[i];
            let base = s.id * self.segment_size as int;
            lemma_scan_below(s.data, 0, base, lsn);
        }
    }
}

/// A scan whose whole byte range lies below the replay start emits
/// nothing.
proof fn lemma_scan_below(data: Seq<u8>, off: int, base: int, lsn: int)
    requires
        0 <= off <= data.len(),
        base + data.len() <= lsn,
    ensures
        scan_records(data, off, base, lsn) =~= Seq::<(int, RecordView)>::empty(),
    decreases data.len() - off,
{
    if off < data.len() {
        match decode_spec(data.subrange(off, data.len() as int)) {
            Some((rec, n)) => {
                lemma_scan_below(data, off + n, base, lsn);
            }
            None => {}
        }
    }
}

/// The view of an LSN-record pair list.
pub open spec fn pairs_view(r: Seq<(u64, WalRecord)>) -> Seq<(int, RecordView)> {
    r.map(|i: int, p: (u64, WalRecord)| (p.0 as int, p.1@))
}

impl Wal {
    /// For every segment, its whole LSN range is addressable.
    proof fn lemma_seg_base_fits(self, i: int)
        requires
            self.wf(),
            0 <= i < self.segs().len(),
        ensures
            (self.segs()[i].id + 1) * self.segment_size <= u64::MAX,
    {
        let n = self.segs().len() as int;
        let ss = self.segment_size as int;
        let idi = self.segs()[i].id as int;
        let idl = self.segs()[n - 1].id as int;
        assert(idi == self.segs()[0].id + i);
        assert(idl == self.segs()[0].id + (n - 1));
        assert((idi + 1) * ss <= (idl + 1) * ss) by (nonlinear_arith)
            requires
                idi + 1 <= idl + 1,
                ss >= 0,
        {}
    }

    /// Replays the log from `lsn`: all records at or after `lsn` in LSN
    /// order, stopping at the first malformed record (the torn tail).
    pub fn iter_from(&self, lsn: Lsn) -> (r: Vec<(Lsn, WalRecord)>)
        requires
            self.wf(),
        ensures
            pairs_view(r@) =~= self.records_from(lsn as int),
    {
        let mut out: Vec<(Lsn, WalRecord)> = Vec::new();
        let mut si: usize = 0;
        while si < self.segments.len()
            invariant
                self.wf(),
                0 <= si <= self.segs().len(),
                self.records_from(lsn as int) =~= pairs_view(out@)
                    + self.records_from_seg(si as int, lsn as int),
            decreases self.segs().len() - si,
        {
            proof {
                self.lemma_seg_base_fits(si as int);
                let ss = self.segment_size as u64;
                let id = self.segs()[si as int].id;
                assert(id * ss + ss <= u64::MAX) by (nonlinear_arith)
                    requires
                        (id + 1) * ss <= u64::MAX,
                {}
            }
            let seg = &self.segments[si];
            let base: u64 = seg.id * (self.segment_size as u64);
            let seg_len = seg.data.len();
            let mut off: usize = 0;
            let ghost data = seg.data@;
            while off < seg_len
                invariant
                    self.wf(),
                    0 <= si < self.segs().len(),
                    0 <= off <= seg_len,
                    seg == self.segments@[si as int],
                    data == seg.data@,
                    seg_len == data.len(),
                    base == self.segs()[si as int].id * self.segment_size,
                    base + seg_len <= u64::MAX,
                    self.records_from(lsn as int) =~= pairs_view(out@)
                        + scan_records(data, off as int, base as int, lsn as int)
                        + if scan_end(data, off as int) == data.len() {
                            self.records_from_seg(si as int + 1, lsn as int)
                        } else {
                            Seq::<(int, RecordView)>::empty()
                        },
                decreases seg_len - off,
            {
                let tail = vstd::slice::slice_subrange(seg.data.as_slice(), off, seg_len);
                match WalRecord::decode(tail) {
                    Ok((rec, n)) => {
                        proof {
                            assert(decode_spec(data.subrange(off as int, data.len() as int))
                                == Some((rec@, n as int)));
                            assert(RECORD_HEADER_SIZE <= n <= data.len() - off);
                        }
                        let here_lsn = base + (off as u64);
                        let ghost out0 = out@;
                        if here_lsn >= lsn {
                            out.push((here_lsn, rec));
                            proof {
                                assert(pairs_view(out@) =~= pairs_view(out0).push(
                                    (here_lsn as int, rec@),
                                ));
                            }
                        }
                        proof {
                            assert(scan_records(data, off as int, base as int, lsn as int)
                                =~= (if base + off >= lsn {
                                    seq![(base as int + off, rec@)]
                                } else {
                                    Seq::<(int, RecordView)>::empty()
                                }) + scan_records(data, off + n, base as int, lsn as int));
                            assert(scan_end(data, off as int) == scan_end(data, off + n));
                        }
                        off = off + n;
                    }
                    Err(_) => {
                        proof {
                            assert(decode_spec(data.subrange(off as int, data.len() as int))
                                is None);
                            assert(scan_records(data, off as int, base as int, lsn as int)
                                =~= Seq::<(int, RecordView)>::empty());
                            assert(scan_end(data, off as int) == off);
                            assert(self.records_from(lsn as int) =~= pairs_view(out@));
                        }
                        return out;
                    }
                }
            }
            proof {
                assert(scan_records(data, off as int, base as int, lsn as int)
                    =~= Seq::<(int, RecordView)>::empty());
                assert(scan_end(data, off as int) == off);
            }
            si = si + 1;
        }
        proof {
            assert(self.records_from_seg(si as int, lsn as int)
                =~= Seq::<(int, RecordView)>::empty());
        }
        out
    }
}

/// Scanning a clean byte run extended by undecodable bytes still parses
/// exactly the old records; the junk is a torn tail.
pub proof fn lemma_scan_junk(data: Seq<u8>, junk: Seq<u8>, off: int, base: int, lsn: int)
    requires
        junk.len() > 0,
        decode_spec(junk) is None,
        0 <= off <= data.len(),
        scan_end(data, off) == data.len(),
    ensures
        scan_end(data + junk, off) == data.len(),
        scan_records(data + junk, off, base, lsn) =~= scan_records(data, off, base, lsn),
    decreases data.len() - off,
{
    let d2 = data + junk;
    if off >= data.len() {
        assert(off == data.len());
        assert(d2.subrange(off, d2.len() as int) =~= junk);
    } else {
        let tail = data.subrange(off, data.len() as int);
        assert(decode_spec(tail) is Some) by {
            if decode_spec(tail) is None {
                assert(scan_end(data, off) == off);
            }
        }
        let (r0, n0) = decode_spec(tail)->Some_0;
        lemma_decode_extend(tail, junk);
        assert(d2.subrange(off, d2.len() as int) =~= tail + junk);
        lemma_scan_junk(data, junk, off + n0, base, lsn);
    }
}

impl Wal {
    /// Tail tolerance: writing undecodable bytes onto the end of the live
    /// segment does not disturb the records before them — a replay returns
    /// exactly the records it returned before, for any starting LSN.
    pub proof fn lemma_tail_tolerance(self, damaged: Wal, junk: Seq<u8>, lsn: int)
        requires
            self.clean(),
            self.segs().len() > 0,
            junk.len() > 0,
            decode_spec(junk) is None,
            damaged.segment_size == self.segment_size,
            damaged.segs() =~= self.segs().update(
                self.segs().len() - 1,
                SegView {
                    id: self.segs()[self.segs().len() - 1].id,
                    data: self.segs()[self.segs().len() - 1].data + junk,
                },
            ),
        ensures
            damaged.records_from(lsn) =~= self.records_from(lsn),
    {
        self.lemma_tail_tolerance_seg(damaged, junk, 0, lsn);
    }

    proof fn lemma_tail_tolerance_seg(self, damaged: Wal, junk: Seq<u8>, i: int, lsn: int)
        requires
            self.clean(),
            self.segs().len() > 0,
            junk.len() > 0,
            decode_spec(junk) is None,
            damaged.segment_size == self.segment_size,
            damaged.segs() =~= self.segs().update(
                self.segs().len() - 1,
                SegView {
                    id: self.segs()[self.segs().len() - 1].id,
                    data: self.segs()[self.segs().len() - 1].data + junk,
                },
            ),
            0 <= i < self.segs().len(),
        ensures
            damaged.records_from_seg(i, lsn) =~= self.records_from_seg(i, lsn),
        decreases self.segs().len() - i,
    {
        let last = self.segs().len() - 1;
        let base = self.segs()[last].id * self.segment_size as int;
        let old_data = self.segs()[last].data;
        if i == last {
            assert(scan_end(old_data, 0) == old_data.len());
            lemma_scan_junk(old_data, junk, 0, base, lsn);
            assert(damaged.segs()[i].data =~= old_data + junk);
            assert(self.records_from_seg(i + 1, lsn) =~= Seq::<(int, RecordView)>::empty());
        } else {
            self.lemma_tail_tolerance_seg(damaged, junk, i + 1, lsn);
            assert(damaged.segs()[i] == self.segs()[i]);
            assert(scan_end(self.segs()[i].data, 0) == self.segs()[i].data.len());
        }
    }
}

/// Every record of a scan is size-bounded.
pub proof fn lemma_scan_records_size_ok(data: Seq<u8>, off: int, base: int, lsn: int)
    requires
        0 <= off <= data.len(),
    ensures
        forall|j: int|
            0 <= j < scan_records(data, off, base, lsn).len() ==> crate::wal_record::record_size_ok(
                (#[trigger] scan_records(data, off, base, lsn)[j]).1,
            ),
    decreases data.len() - off,
{
    if off < data.len() {
        match decode_spec(data.subrange(off, data.len() as int)) {
            Some((rec, n)) => {
                crate::wal_record::lemma_decode_size_ok(data.subrange(off, data.len() as int));
                lemma_scan_records_size_ok(data, off + n, base, lsn);
                let here: Seq<(int, RecordView)> = if base + off >= lsn {
                    seq![(base + off, rec)]
                } else {
                    Seq::empty()
                };
                let rest = scan_records(data, off + n, base, lsn);
                assert forall|j: int|
                    0 <= j < scan_records(data, off, base, lsn).len()
                    implies crate::wal_record::record_size_ok(
                        (#[trigger] scan_records(data, off, base, lsn)[j]).1,
                    ) by {
                    if j >= here.len() {
                        assert(scan_records(data, off, base, lsn)[j] == rest[j - here.len()]);
                    }
                }
            }
            None => {}
        }
    }
}

impl Wal {
    proof fn lemma_records_from_seg_size_ok(self, i: int, lsn: int)
        requires
            0 <= i <= self.segs().len(),
        ensures
            forall|j: int|
                0 <= j < self.records_from_seg(i, lsn).len()
                    ==> crate::wal_record::record_size_ok(
                    (#[trigger] self.records_from_seg(i, lsn)[j]).1,
                ),
        decreases self.segs().len() - i,
    {
        if i < self.segs().len() {
            let s = self.segs()[i];
            let base = s.id * self.segment_size as int;
            lemma_scan_records_size_ok(s.data, 0, base, lsn);
            self.lemma_records_from_seg_size_ok(i + 1, lsn);
            let here = scan_records(s.data, 0, base, lsn);
            if scan_end(s.data, 0) == s.data.len() {
                let rest = self.records_from_seg(i + 1, lsn);
                assert forall|j: int|
                    0 <= j < self.records_from_seg(i, lsn).len()
                    implies crate::wal_record::record_size_ok(
                        (#[trigger] self.records_from_seg(i, lsn)[j]).1,
                    ) by {
                    if j >= here.len() {
                        assert(self.records_from_seg(i, lsn)[j] == rest[j - here.len()]);
                    } else {
                        assert(self.records_from_seg(i, lsn)[j] == here[j]);
                    }
                }
            }
        }
    }

    /// Every record a replay returns is size-bounded: its key fits the
    /// key cap and its value fits a record payload.
    pub proof fn lemma_records_from_size_ok(self, lsn: int)
        ensures
            forall|j: int|
                0 <= j < self.records_from(lsn).len() ==> crate::wal_record::record_size_ok(
                    (#[trigger] self.records_from(lsn)[j]).1,
                ),
    {
        self.lemma_records_from_seg_size_ok(0, lsn);
    }
}

/// Monotonic LSNs: an append leaves the end of the log strictly beyond the
/// LSN it returned, and a later append returns an LSN no smaller than the
/// end of the log; so the LSNs of successive appends strictly increase.
pub proof fn lemma_lsn_monotonic(rec1: RecordView, lsn1: int, end1: int, lsn2: int)
    requires
        lsn1 + encode_spec(rec1).len() <= end1,
        end1 <= lsn2,
    ensures
        lsn2 > lsn1,
{
    vstd::bytes::lemma_auto_spec_u32_to_from_le_bytes();
    assert(encode_spec(rec1).len() >= 9);
}

/// Manages the segmented append-only log.
pub struct Wal {
    /// Capacity of each segment in bytes.
    pub segment_size: usize,
    /// When to fsync; `Group` defers to the group-commit coordinator.
    pub sync_policy: SyncPolicy,
    /// The segments, in id order; the last one is active.
    pub segments: Vec<WalSegment>,
    /// Durable watermark: everything below this LSN has been synced.
    pub synced: u64,
}

} // verus!
