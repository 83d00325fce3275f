//! Periodic checkpointing for bounded recovery time.
//!
//! A checkpoint persists the whole working set to the data file, records
//! the checkpoint LSN in the meta page, and truncates WAL segments that
//! lie entirely before it. Recovery then replays only the records after
//! the checkpoint LSN. Time is passed in by the caller as milliseconds,
//! so the decision logic itself is pure.

use vstd::prelude::*;

use crate::error::Error;
use crate::wal::Lsn;
use crate::wal::Wal;
use vstd::bytes::spec_u64_from_le_bytes;
use vstd::bytes::spec_u64_to_le_bytes;

verus! {

/// Configuration for checkpoint behavior.
#[derive(Debug, Clone, Copy, PartialEq, Eq, Structural)]
pub struct CheckpointConfig {
    /// Time between checkpoints, in milliseconds.
    pub interval_ms: u64,
    /// WAL growth (bytes) that triggers a checkpoint.
    pub wal_threshold: u64,
    /// Records since the last checkpoint that trigger one.
    pub min_records: usize,
}

impl Default for CheckpointConfig {
    /// Five minutes, 128MB of WAL growth, or ten thousand records.
    fn default() -> (r: CheckpointConfig)
        ensures
            r.interval_ms == 300_000,
            r.wal_threshold == 128 * 1024 * 1024,
            r.min_records == 10_000,
    {
        CheckpointConfig {
            interval_ms: 300_000,
            wal_threshold: 128 * 1024 * 1024,
            min_records: 10_000,
        }
    }
}

/// Information about a checkpoint, stored in the meta page.
#[derive(Debug, Clone, Copy, PartialEq, Eq, Structural)]
pub struct CheckpointInfo {
    /// LSN at which the checkpoint was created.
    pub lsn: Lsn,
    /// Unix timestamp (seconds) when the checkpoint was created.
    pub timestamp: u64,
    /// Number of entries at checkpoint time.
    pub entry_count: u64,
}

impl Default for CheckpointInfo {
    /// The zero checkpoint: nothing persisted yet.
    fn default() -> (r: CheckpointInfo)
        ensures
            r.lsn == 0,
            r.timestamp == 0,
            r.entry_count == 0,
    {
        CheckpointInfo { lsn: 0, timestamp: 0, entry_count: 0 }
    }
}

/// The 24 serialized bytes of a checkpoint info.
pub open spec fn checkpoint_info_bytes(info: CheckpointInfo) -> Seq<u8> {
    spec_u64_to_le_bytes(info.lsn) + spec_u64_to_le_bytes(info.timestamp) + spec_u64_to_le_bytes(
        info.entry_count,
    )
}

impl CheckpointInfo {
    /// Serializes the checkpoint info to its 24 bytes.
    pub fn to_bytes(&self) -> (r: Vec<u8>)
        ensures
            r@ =~= checkpoint_info_bytes(*self),
            r@.len() == 24,
    {
        proof {
            vstd::bytes::lemma_auto_spec_u64_to_from_le_bytes();
        }
        let mut buf = vstd::bytes::u64_to_le_bytes(self.lsn);
        let mut b1 = vstd::bytes::u64_to_le_bytes(self.timestamp);
        buf.append(&mut b1);
        let mut b2 = vstd::bytes::u64_to_le_bytes(self.entry_count);
        buf.append(&mut b2);
        buf
    }

    /// Deserializes a checkpoint info; `None` when the buffer is too
    /// small.
    pub fn from_bytes(buf: &[u8]) -> (r: Option<CheckpointInfo>)
        ensures
            match r {
                Some(info) => {
                    &&& buf@.len() >= 24
                    &&& info.lsn == spec_u64_from_le_bytes(buf@.subrange(0, 8))
                    &&& info.timestamp == spec_u64_from_le_bytes(buf@.subrange(8, 16))
                    &&& info.entry_count == spec_u64_from_le_bytes(buf@.subrange(16, 24))
                },
                None => buf@.len() < 24,
            },
    {
        if buf.len() < 24 {
            return None;
        }
        Some(CheckpointInfo {
            lsn: vstd::bytes::u64_from_le_bytes(vstd::slice::slice_subrange(buf, 0, 8)),
            timestamp: vstd::bytes::u64_from_le_bytes(vstd::slice::slice_subrange(buf, 8, 16)),
            entry_count: vstd::bytes::u64_from_le_bytes(vstd::slice::slice_subrange(buf, 16, 24)),
        })
    }

    /// True when this info records an actual checkpoint (non-zero).
    pub fn is_valid(&self) -> (r: bool)
        ensures
            r == (self.lsn > 0 || self.timestamp > 0),
    {
        self.lsn > 0 || self.timestamp > 0
    }
}

/// Decides when a checkpoint is due and tracks progress since the last
/// one.
#[derive(Debug, Clone, Copy, PartialEq, Eq, Structural)]
pub struct CheckpointManager {
    pub config: CheckpointConfig,
    pub last_checkpoint_lsn: Lsn,
    /// Time of the last checkpoint in milliseconds; `None` before the
    /// first.
    pub last_checkpoint_time_ms: Option<u64>,
    pub records_since_checkpoint: usize,
    pub wal_size_at_checkpoint: u64,
}

/// Whether a checkpoint is due, given the current time and WAL size:
/// any one trigger is sufficient. The interval trigger needs a previous
/// checkpoint to measure from; the growth and record triggers apply from
/// the start.
pub open spec fn should_checkpoint_spec(m: CheckpointManager, wal_size: int, now_ms: u64) -> bool {
    ||| (m.last_checkpoint_time_ms matches Some(t) && now_ms >= t + m.config.interval_ms)
    ||| (if wal_size >= m.wal_size_at_checkpoint {
        wal_size - m.wal_size_at_checkpoint
    } else {
        0int
    }) >= m.config.wal_threshold
    ||| m.records_since_checkpoint >= m.config.min_records
}

impl CheckpointManager {
    /// Creates a manager that has never checkpointed.
    pub fn new(config: CheckpointConfig) -> (r: CheckpointManager)
        ensures
            r.config == config,
            r.last_checkpoint_lsn == 0,
            r.last_checkpoint_time_ms is None,
            r.records_since_checkpoint == 0,
            r.wal_size_at_checkpoint == 0,
    {
        CheckpointManager {
            config,
            last_checkpoint_lsn: 0,
            last_checkpoint_time_ms: None,
            records_since_checkpoint: 0,
            wal_size_at_checkpoint: 0,
        }
    }

    /// Restores a manager from a persisted checkpoint info; the clock
    /// restarts at `now_ms`.
    pub fn restore(config: CheckpointConfig, checkpoint_info: CheckpointInfo, now_ms: u64) -> (r:
        CheckpointManager)
        ensures
            r.config == config,
            r.last_checkpoint_lsn == checkpoint_info.lsn,
            r.last_checkpoint_time_ms == if checkpoint_info.timestamp > 0 {
                Some(now_ms)
            } else {
                None::<u64>
            },
            r.records_since_checkpoint == 0,
            r.wal_size_at_checkpoint == 0,
    {
        CheckpointManager {
            config,
            last_checkpoint_lsn: checkpoint_info.lsn,
            last_checkpoint_time_ms: if checkpoint_info.timestamp > 0 {
                Some(now_ms)
            } else {
                None
            },
            records_since_checkpoint: 0,
            wal_size_at_checkpoint: 0,
        }
    }

    /// Whether any trigger fires: the interval elapsed, the WAL grew past
    /// the threshold, or enough records accumulated.
    pub fn should_checkpoint(&self, wal: &Wal, now_ms: u64) -> (r: bool)
        requires
            wal.wf(),
            now_ms + self.config.interval_ms <= u64::MAX,
        ensures
            r == should_checkpoint_spec(*self, wal.size_int(), now_ms),
    {
        match self.last_checkpoint_time_ms {
            Some(t) => {
                if now_ms >= t && now_ms - t >= self.config.interval_ms {
                    return true;
                }
            }
            None => {}
        }
        let current_wal_size = wal.approximate_size();
        let wal_growth = if current_wal_size >= self.wal_size_at_checkpoint {
            current_wal_size - self.wal_size_at_checkpoint
        } else {
            0
        };
        if wal_growth >= self.config.wal_threshold {
            return true;
        }
        self.records_since_checkpoint >= self.config.min_records
    }

    /// Records that records have been written since the last checkpoint.
    pub fn record_writes(&mut self, count: usize)
        ensures
            final(self).records_since_checkpoint == if old(self).records_since_checkpoint + count
                <= usize::MAX {
                old(self).records_since_checkpoint + count
            } else {
                usize::MAX as int
            },
            final(self).config == old(self).config,
            final(self).last_checkpoint_lsn == old(self).last_checkpoint_lsn,
            final(self).last_checkpoint_time_ms == old(self).last_checkpoint_time_ms,
            final(self).wal_size_at_checkpoint == old(self).wal_size_at_checkpoint,
    {
        if count <= usize::MAX - self.records_since_checkpoint {
            self.records_since_checkpoint = self.records_since_checkpoint + count;
        } else {
            self.records_since_checkpoint = usize::MAX;
        }
    }

    /// Records a completed checkpoint at the given LSN and time.
    pub fn record_checkpoint(&mut self, lsn: Lsn, now_ms: u64)
        ensures
            final(self).last_checkpoint_lsn == lsn,
            final(self).last_checkpoint_time_ms == Some(now_ms),
            final(self).records_since_checkpoint == 0,
            final(self).wal_size_at_checkpoint == old(self).wal_size_at_checkpoint,
            final(self).config == old(self).config,
    {
        self.last_checkpoint_lsn = lsn;
        self.last_checkpoint_time_ms = Some(now_ms);
        self.records_since_checkpoint = 0;
    }

    /// Records a completed checkpoint, also noting the WAL size for the
    /// growth trigger.
    pub fn record_checkpoint_with_wal_size(&mut self, lsn: Lsn, now_ms: u64, wal_size: u64)
        ensures
            final(self).last_checkpoint_lsn == lsn,
            final(self).last_checkpoint_time_ms == Some(now_ms),
            final(self).records_since_checkpoint == 0,
            final(self).wal_size_at_checkpoint == wal_size,
            final(self).config == old(self).config,
    {
        self.last_checkpoint_lsn = lsn;
        self.last_checkpoint_time_ms = Some(now_ms);
        self.records_since_checkpoint = 0;
        self.wal_size_at_checkpoint = wal_size;
    }

    /// Returns the LSN of the last completed checkpoint.
    pub fn last_checkpoint_lsn(&self) -> (r: Lsn)
        ensures
            r == self.last_checkpoint_lsn,
    {
        self.last_checkpoint_lsn
    }

    /// Builds the checkpoint info to persist for a checkpoint taken now.
    pub fn create_checkpoint_info(&self, lsn: Lsn, entry_count: u64, timestamp: u64) -> (r:
        CheckpointInfo)
        ensures
            r.lsn == lsn,
            r.timestamp == timestamp,
            r.entry_count == entry_count,
    {
        CheckpointInfo { lsn, timestamp, entry_count }
    }
}

/// Checkpoint completion report.
#[derive(Debug, Clone, Copy, PartialEq, Eq, Structural)]
pub struct CheckpointResult {
    /// LSN at which the checkpoint was created.
    pub lsn: Lsn,
    /// Number of WAL segments truncated.
    pub segments_truncated: u32,
    /// Time taken, in milliseconds.
    pub duration_ms: u64,
}

/// Truncates the WAL after the caller has persisted the working set up to
/// `checkpoint_lsn`; segments entirely below the LSN are dropped.
pub fn perform_checkpoint(checkpoint_lsn: Lsn, wal: &mut Wal) -> (r: Result<
    CheckpointResult,
    Error,
>)
    requires
        old(wal).wf(),
    ensures
        final(wal).wf(),
        final(wal).segment_size == old(wal).segment_size,
        final(wal).sync_policy == old(wal).sync_policy,
        final(wal).synced == old(wal).synced,
        r is Ok,
        r matches Ok(res) ==> {
            &&& res.lsn == checkpoint_lsn
            &&& final(wal).segs().len() <= old(wal).segs().len()
            &&& res.segments_truncated == if old(wal).segs().len() - final(wal).segs().len()
                <= u32::MAX {
                old(wal).segs().len() - final(wal).segs().len()
            } else {
                u32::MAX as int
            }
            &&& final(wal).end_lsn_int() == old(wal).end_lsn_int()
        },
        // exactly the leading segments lying wholly below the LSN are
        // dropped; the active segment is always retained
        final(wal).segs() =~= old(wal).segs().skip(
            old(wal).segs().len() - final(wal).segs().len(),
        ),
        old(wal).segs().len() > 0 ==> final(wal).segs().len() > 0,
        forall|i: int|
            0 <= i < old(wal).segs().len() - final(wal).segs().len()
                ==> ((#[trigger] old(wal).segs()[i]).id + 1) * old(wal).segment_size
                    <= checkpoint_lsn,
{
    let before = wal.segments.len();
    match wal.truncate_before(checkpoint_lsn) {
        Ok(_) => {}
        Err(e) => {
            return Err(e);
        }
    }
    let after = wal.segments.len();
    let diff = before - after;
    let truncated: u32 = if diff > u32::MAX as usize {
        u32::MAX
    } else {
        diff as u32
    };
    Ok(CheckpointResult { lsn: checkpoint_lsn, segments_truncated: truncated, duration_ms: 0 })
}

} // verus!
