//! Read and write transactions.
//!
//! A `ReadTx` is a snapshot handle borrowing the database immutably. A
//! `WriteTx` stages mutations in a side working set plus a tombstone
//! list; nothing is visible until `commit` applies them to the database.
//! Dropping an uncommitted `WriteTx` discards the staged state.

use vstd::prelude::*;

use crate::bucket::keys_view;
use crate::bytes::clone_bytes;
use crate::db::Database;
use crate::db::MAX_VALUE_SIZE;
use crate::error::Error;
use crate::tree::Tree;
use crate::wal_record::MAX_KEY_SIZE;

verus! {

/// A read-only transaction: a consistent snapshot view.
pub struct ReadTx<'db> {
    pub db: &'db Database,
}

impl<'db> ReadTx<'db> {
    /// Retrieves the value associated with the key; `None` when absent,
    /// `Corrupted` when its overflow chain fails its checks.
    pub fn get(&self, key: &[u8]) -> (r: Result<Option<Vec<u8>>, Error>)
        requires
            self.db.wf(),
        ensures
            match r {
                Ok(Some(v)) => self.db.tree.as_map().contains_key(key@) && self.db.resolve(key@)
                    == Some(v@),
                Ok(None) => !self.db.tree.as_map().contains_key(key@),
                Err(e) => self.db.tree.as_map().contains_key(key@) && self.db.resolve(key@)
                    is None && e is Corrupted,
            },
    {
        self.db.get(key)
    }
}

/// A read-write transaction: staged mutations, applied on commit.
pub struct WriteTx {
    /// Pending puts, keyed by the user key, holding the full values.
    pub pending: Tree,
    /// Keys marked for deletion.
    pub deleted: Vec<Vec<u8>>,
}

impl WriteTx {
    /// Staged state well-formedness: sizes within bounds and no key both
    /// pending and deleted.
    pub open spec fn wf(self) -> bool {
        &&& self.pending.wf()
        &&& forall|k: Seq<u8>| #[trigger]
            self.pending.as_map().contains_key(k) ==> k.len() <= MAX_KEY_SIZE
                && self.pending.as_map()[k].len() <= MAX_VALUE_SIZE
        &&& forall|i: int|
            0 <= i < self.deleted@.len() ==> (#[trigger] self.deleted@[i])@.len() <= MAX_KEY_SIZE
        &&& forall|k: Seq<u8>|
            keys_view(self.deleted@).contains(k) ==> !self.pending.as_map().contains_key(k)
    }

    /// Creates an empty staging area.
    pub fn new() -> (r: WriteTx)
        ensures
            r.wf(),
            r.pending.as_map() =~= Map::<Seq<u8>, Seq<u8>>::empty(),
            r.deleted@.len() == 0,
    {
        WriteTx { pending: Tree::new(), deleted: Vec::new() }
    }

    /// Stages an insert or update; the last write per key wins.
    pub fn put(&mut self, key: &[u8], value: &[u8])
        requires
            old(self).wf(),
            key@.len() <= MAX_KEY_SIZE,
            value@.len() <= MAX_VALUE_SIZE,
        ensures
            final(self).wf(),
            final(self).pending.as_map() =~= old(self).pending.as_map().insert(key@, value@),
            keys_view(final(self).deleted@) =~= keys_view(old(self).deleted@).remove(key@),
    {
        let ghost old_deleted = self.deleted@;
        // un-delete the key if it was marked
        let mut kept: Vec<Vec<u8>> = Vec::new();
        let mut i: usize = 0;
        while i < self.deleted.len()
            invariant
                0 <= i <= self.deleted@.len(),
                self.deleted@ == old_deleted,
                forall|j: int|
                    0 <= j < kept@.len() ==> (#[trigger] kept@[j])@ != key@ && (exists|a: int|
                        0 <= a < i && old_deleted[a]@ == (#[trigger] kept@[j])@),
                forall|a: int|
                    0 <= a < i && (#[trigger] old_deleted[a])@ != key@ ==> keys_view(
                        kept@,
                    ).contains(old_deleted[a]@),
            decreases self.deleted@.len() - i,
        {
            if !crate::bytes::bytes_eq(self.deleted[i].as_slice(), key) {
                let ghost kept0 = kept@;
                kept.push(clone_bytes(&self.deleted[i]));
                proof {
                    assert forall|a: int|
                        0 <= a < i + 1 && (#[trigger] old_deleted[a])@ != key@
                        implies keys_view(kept@).contains(old_deleted[a]@) by {
                        if a < i {
                            assert(keys_view(kept0).contains(old_deleted[a]@));
                            let b = choose|b: int|
                                0 <= b < kept0.len() && (#[trigger] kept0[b])@
                                    == old_deleted[a]@;
                            assert(kept@[b]@ == old_deleted[a]@);
                        } else {
                            assert(kept@[kept@.len() - 1]@ == old_deleted[a]@);
                        }
                    }
                }
            }
            i += 1;
        }
        self.deleted = kept;
        let _ = self.pending.insert(vstd::slice::slice_to_vec(key), vstd::slice::slice_to_vec(
            value,
        ));
        proof {
            assert forall|k: Seq<u8>| true
                implies keys_view(self.deleted@).contains(k) == keys_view(old_deleted).remove(
                    key@,
                ).contains(k) by {
                if keys_view(self.deleted@).contains(k) {
                    let j = choose|j: int|
                        0 <= j < self.deleted@.len() && (#[trigger] self.deleted@[j])@ == k;
                    let a = choose|a: int|
                        0 <= a < old_deleted.len() && old_deleted[a]@ == (#[trigger] self.deleted@[j])@;
                    assert(keys_view(old_deleted).contains(k));
                }
                if keys_view(old_deleted).contains(k) && k != key@ {
                    let a = choose|a: int|
                        0 <= a < old_deleted.len() && (#[trigger] old_deleted[a])@ == k;
                    assert(keys_view(self.deleted@).contains(k));
                }
            }
            assert(keys_view(self.deleted@) =~= keys_view(old_deleted).remove(key@));
        }
    }

    /// Stages a deletion; staged puts of the key are discarded.
    pub fn delete(&mut self, key: &[u8])
        requires
            old(self).wf(),
            key@.len() <= MAX_KEY_SIZE,
        ensures
            final(self).wf(),
            final(self).pending.as_map() =~= old(self).pending.as_map().remove(key@),
            keys_view(final(self).deleted@) =~= keys_view(old(self).deleted@).insert(key@),
    {
        let _ = self.pending.remove(key);
        // avoid duplicate tombstones
        let mut already = false;
        let mut i: usize = 0;
        while i < self.deleted.len()
            invariant
                0 <= i <= self.deleted@.len(),
                already == exists|j: int|
                    0 <= j < i && (#[trigger] self.deleted@[j])@ == key@,
            decreases self.deleted@.len() - i,
        {
            if crate::bytes::bytes_eq(self.deleted[i].as_slice(), key) {
                already = true;
                proof {
                    assert(self.deleted@[i as int]@ == key@);
                }
            }
            i += 1;
        }
        let ghost old_deleted = self.deleted@;
        if !already {
            self.deleted.push(vstd::slice::slice_to_vec(key));
        }
        proof {
            assert forall|k: Seq<u8>| true
                implies keys_view(self.deleted@).contains(k) == keys_view(old_deleted).insert(
                    key@,
                ).contains(k) by {
                if keys_view(self.deleted@).contains(k) {
                    let j = choose|j: int|
                        0 <= j < self.deleted@.len() && (#[trigger] self.deleted@[j])@ == k;
                    if j < old_deleted.len() {
                        assert(keys_view(old_deleted).contains(k));
                    } else {
                        assert(k == key@);
                    }
                }
                if keys_view(old_deleted).contains(k) {
                    let j = choose|j: int|
                        0 <= j < old_deleted.len() && (#[trigger] old_deleted[j])@ == k;
                    assert(self.deleted@[j]@ == k);
                }
                if k == key@ {
                    if already {
                        let j = choose|j: int|
                            0 <= j < old_deleted.len() && (#[trigger] old_deleted[j])@ == key@;
                        assert(self.deleted@[j]@ == k);
                    } else {
                        assert(self.deleted@[self.deleted@.len() - 1]@ == k);
                    }
                }
            }
            assert(keys_view(self.deleted@) =~= keys_view(old_deleted).insert(key@));
        }
    }

    /// Commits the staged changes into the database; see
    /// `Database::commit_tx` for the contract.
    pub fn commit(self, db: &mut Database) -> (r: Result<(), Error>)
        requires
            old(db).wf(),
            self.wf(),
            old(db).txid < u64::MAX,
        ensures
            final(db).wf(),
            crate::db::commit_post(*old(db), *final(db), self, r),
    {
        db.commit_tx(self)
    }
}

} // verus!
