//! Batched transaction commit for high throughput.
//!
//! Concurrent committers enqueue their LSNs; the first to arrive becomes
//! the leader, waits briefly for a batch to form, performs one WAL sync
//! for the whole batch, and hands the result to every waiter. This module
//! holds the coordinator's decision state: who leads, when to flush, and
//! the batching statistics. The surrounding runtime supplies threads,
//! waiting and the clock, and performs the sync the decisions call for.

use vstd::prelude::*;

verus! {

/// Configuration for group commit behavior.
#[derive(Debug, Clone, Copy, PartialEq, Eq, Structural)]
pub struct GroupCommitConfig {
    /// Longest time the leader waits for more commits, in milliseconds.
    pub max_wait_ms: u64,
    /// Commits per batch that force an immediate flush.
    pub max_batch_size: usize,
}

impl Default for GroupCommitConfig {
    /// Ten milliseconds, one hundred commits.
    fn default() -> (r: GroupCommitConfig)
        ensures
            r.max_wait_ms == 10,
            r.max_batch_size == 100,
    {
        GroupCommitConfig { max_wait_ms: 10, max_batch_size: 100 }
    }
}

/// The group-commit coordinator's state.
pub struct GroupCommitManager {
    /// Configuration.
    pub config: GroupCommitConfig,
    /// LSNs of the commits waiting for the next sync.
    pub pending: Vec<u64>,
    /// Whether a leader is currently collecting a batch.
    pub leader_active: bool,
    /// When the first pending commit arrived, in milliseconds.
    pub first_pending_ms: Option<u64>,
    /// Number of batch syncs performed.
    pub batch_count: u64,
    /// Number of commits completed.
    pub commit_count: u64,
}

impl GroupCommitManager {
    /// Every batch that completed carried at least one commit, so there
    /// have never been more syncs than commits.
    pub open spec fn wf(self) -> bool {
        self.batch_count <= self.commit_count
    }

    /// Creates a new coordinator with no pending commits.
    pub fn new(config: GroupCommitConfig) -> (r: GroupCommitManager)
        ensures
            r.wf(),
            r.config == config,
            r.pending@.len() == 0,
            !r.leader_active,
            r.first_pending_ms is None,
            r.batch_count == 0,
            r.commit_count == 0,
    {
        GroupCommitManager {
            config,
            pending: Vec::new(),
            leader_active: false,
            first_pending_ms: None,
            batch_count: 0,
            commit_count: 0,
        }
    }

    /// A committer arrives: it joins the queue, and becomes the leader
    /// when none is active.
    pub fn enqueue(&mut self, lsn: u64, now_ms: u64) -> (became_leader: bool)
        requires
            old(self).wf(),
        ensures
            final(self).wf(),
            final(self).pending@ == old(self).pending@.push(lsn),
            final(self).first_pending_ms == if old(self).first_pending_ms is None {
                Some(now_ms)
            } else {
                old(self).first_pending_ms
            },
            became_leader == !old(self).leader_active,
            final(self).leader_active,
            final(self).config == old(self).config,
            final(self).batch_count == old(self).batch_count,
            final(self).commit_count == old(self).commit_count,
    {
        if self.first_pending_ms.is_none() {
            self.first_pending_ms = Some(now_ms);
        }
        self.pending.push(lsn);
        let became_leader = !self.leader_active;
        self.leader_active = true;
        became_leader
    }

    /// Whether the leader should flush now: the batch is full, the wait
    /// expired, or there is nothing to wait for.
    pub fn should_flush(&self, now_ms: u64) -> (r: bool)
        ensures
            r == (self.pending@.len() >= self.config.max_batch_size || (
            self.first_pending_ms matches Some(t) && now_ms >= t && now_ms - t
                >= self.config.max_wait_ms) || self.pending@.len() == 0),
    {
        if self.pending.len() >= self.config.max_batch_size {
            return true;
        }
        match self.first_pending_ms {
            Some(t) => {
                if now_ms >= t && now_ms - t >= self.config.max_wait_ms {
                    return true;
                }
            }
            None => {}
        }
        self.pending.len() == 0
    }

    /// The leader takes the whole queue for one sync; the queue restarts
    /// empty.
    pub fn take_batch(&mut self) -> (r: Vec<u64>)
        requires
            old(self).wf(),
        ensures
            final(self).wf(),
            r@ == old(self).pending@,
            final(self).pending@.len() == 0,
            final(self).first_pending_ms is None,
            final(self).leader_active == old(self).leader_active,
            final(self).config == old(self).config,
            final(self).batch_count == old(self).batch_count,
            final(self).commit_count == old(self).commit_count,
    {
        let mut batch: Vec<u64> = Vec::new();
        core::mem::swap(&mut batch, &mut self.pending);
        self.first_pending_ms = None;
        batch
    }

    /// One sync completed, covering `batch_len` commits: every waiter in
    /// the batch returns with the sync's result, and the leader steps
    /// down. The coordinator never splits a batch: the whole batch sees
    /// the one outcome.
    pub fn finish_batch(&mut self, batch_len: usize)
        requires
            old(self).wf(),
            batch_len >= 1,
            old(self).batch_count < u64::MAX,
            old(self).commit_count + batch_len <= u64::MAX,
        ensures
            final(self).wf(),
            final(self).batch_count == old(self).batch_count + 1,
            final(self).commit_count == old(self).commit_count + batch_len,
            !final(self).leader_active,
            final(self).pending == old(self).pending,
            final(self).first_pending_ms == old(self).first_pending_ms,
            final(self).config == old(self).config,
    {
        self.batch_count = self.batch_count + 1;
        self.commit_count = self.commit_count + (batch_len as u64);
        self.leader_active = false;
    }

    /// Returns the number of batch syncs performed.
    pub fn batch_count(&self) -> (r: u64)
        ensures
            r == self.batch_count,
    {
        self.batch_count
    }

    /// Returns the total number of commits processed.
    pub fn commit_count(&self) -> (r: u64)
        ensures
            r == self.commit_count,
    {
        self.commit_count
    }
}

/// Group commit amortizes syncs: there are never more syncs than
/// commits, and whenever any batch carried more than one commit there
/// are strictly fewer.
pub proof fn lemma_group_commit_amortizes(m: GroupCommitManager, extra: u64)
    requires
        m.wf(),
        // `extra` counts the commits beyond the first in each batch
        m.commit_count == m.batch_count + extra,
    ensures
        m.batch_count <= m.commit_count,
        extra > 0 ==> m.batch_count < m.commit_count,
{
}

} // verus!
