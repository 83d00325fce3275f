//! The in-memory ordered working set.
//!
//! A `Tree` is a sorted association list from byte-string keys to
//! byte-string values, ordered by the lexicographic order of `crate::bytes`.
//! Its mathematical model is the `Map<Seq<u8>, Seq<u8>>` returned by
//! [`Tree::as_map`].

use vstd::prelude::*;

use crate::bytes::bytes_eq;
use crate::bytes::bytes_lt;
use crate::bytes::clone_bytes;
use crate::bytes::lex_lt;
use crate::bytes::lemma_lex_asymmetric;
use crate::bytes::lemma_lex_connected;
use crate::bytes::lemma_lex_irreflexive;

verus! {

pub struct Tree {
    pub entries: Vec<(Vec<u8>, Vec<u8>)>,
}

impl Tree {
    /// Number of entries, as seen by specifications.
    pub open spec fn len_spec(self) -> nat {
        self.entries@.len()
    }

    /// The key of the entry at index `i`.
    pub open spec fn key_at(self, i: int) -> Seq<u8> {
        self.entries@[i].0@
    }

    /// The value of the entry at index `i`.
    pub open spec fn val_at(self, i: int) -> Seq<u8> {
        self.entries@[i].1@
    }

    /// Well-formed: keys are strictly ascending (hence unique).
    pub open spec fn wf(self) -> bool {
        forall|i: int, j: int|
            0 <= i < j < self.len_spec() ==> lex_lt(#[trigger] self.key_at(i), #[trigger] self.key_at(j))
    }

    /// Whether some entry holds the key `k`.
    pub open spec fn contains_key_spec(self, k: Seq<u8>) -> bool {
        exists|i: int| 0 <= i < self.len_spec() && #[trigger] self.key_at(i) == k
    }

    /// The index of the entry holding `k`.
    pub open spec fn index_of(self, k: Seq<u8>) -> int {
        choose|i: int| 0 <= i < self.len_spec() && #[trigger] self.key_at(i) == k
    }

    /// The mathematical model: a finite map from keys to values.
    pub open spec fn as_map(self) -> Map<Seq<u8>, Seq<u8>> {
        Map::new(
            |k: Seq<u8>| self.contains_key_spec(k),
            |k: Seq<u8>| self.val_at(self.index_of(k)),
        )
    }

    /// In a well-formed tree the index of each key is unique.
    pub proof fn lemma_keys_unique(self)
        requires
            self.wf(),
        ensures
            forall|i: int, j: int|
                0 <= i < self.len_spec() && 0 <= j < self.len_spec()
                    && #[trigger] self.key_at(i) == #[trigger] self.key_at(j) ==> i == j,
    {
        assert forall|i: int, j: int|
            0 <= i < self.len_spec() && 0 <= j < self.len_spec()
                && #[trigger] self.key_at(i) == #[trigger] self.key_at(j) implies i == j by {
            if i < j {
                lemma_lex_irreflexive(self.key_at(i));
            } else if j < i {
                lemma_lex_irreflexive(self.key_at(i));
            }
        }
    }

    /// The entry at index `i` is what the model maps its key to.
    pub proof fn lemma_entry_in_map(self, i: int)
        requires
            self.wf(),
            0 <= i < self.len_spec(),
        ensures
            self.as_map().contains_key(self.key_at(i)),
            self.as_map()[self.key_at(i)] == self.val_at(i),
            self.index_of(self.key_at(i)) == i,
    {
        assert(self.contains_key_spec(self.key_at(i)));
        self.lemma_keys_unique();
    }

    /// The model contains exactly the keys of the entries.
    pub proof fn lemma_contains_iff(self, k: Seq<u8>)
        ensures
            self.as_map().contains_key(k) == self.contains_key_spec(k),
    {
    }

    /// Creates an empty tree.
    pub fn new() -> (r: Tree)
        ensures
            r.wf(),
            r.len_spec() == 0,
            r.as_map() =~= Map::<Seq<u8>, Seq<u8>>::empty(),
    {
        Tree { entries: Vec::new() }
    }

    /// Number of entries.
    pub fn len(&self) -> (r: usize)
        ensures
            r == self.len_spec(),
    {
        self.entries.len()
    }

    /// Whether the tree holds no entries.
    pub fn is_empty(&self) -> (r: bool)
        ensures
            r == (self.len_spec() == 0),
    {
        self.entries.len() == 0
    }

    /// Number of entries, exposed for iteration by index.
    pub fn num_entries(&self) -> (r: usize)
        ensures
            r == self.len_spec(),
    {
        self.entries.len()
    }

    /// The key at index `i`, for iteration in ascending key order.
    pub fn key_at_idx(&self, i: usize) -> (r: &Vec<u8>)
        requires
            i < self.len_spec(),
        ensures
            r@ == self.key_at(i as int),
    {
        &self.entries[i].0
    }

    /// The value at index `i`.
    pub fn val_at_idx(&self, i: usize) -> (r: &Vec<u8>)
        requires
            i < self.len_spec(),
        ensures
            r@ == self.val_at(i as int),
    {
        &self.entries[i].1
    }

    /// The index of the first entry whose key is not below `key`.
    fn locate(&self, key: &[u8]) -> (r: usize)
        requires
            self.wf(),
        ensures
            r <= self.len_spec(),
            forall|i: int| 0 <= i < r ==> lex_lt(#[trigger] self.key_at(i), key@),
            forall|i: int| r <= i < self.len_spec() ==> !lex_lt(#[trigger] self.key_at(i), key@),
    {
        let mut i: usize = 0;
        let n = self.entries.len();
        while i < n
            invariant
                0 <= i <= n,
                n == self.len_spec(),
                self.wf(),
                forall|j: int| 0 <= j < i ==> lex_lt(#[trigger] self.key_at(j), key@),
            decreases n - i,
        {
            if !bytes_lt(self.entries[i].0.as_slice(), key) {
                proof {
                    assert forall|j: int| i <= j < self.len_spec()
                        implies !lex_lt(#[trigger] self.key_at(j), key@) by {
                        if i < j {
                            if lex_lt(self.key_at(j), key@) {
                                lemma_lex_connected(self.key_at(i as int), key@);
                                if self.key_at(i as int) == key@ {
                                    lemma_lex_asymmetric(self.key_at(j), key@);
                                } else {
                                    crate::bytes::lemma_lex_transitive(
                                        key@,
                                        self.key_at(i as int),
                                        self.key_at(j),
                                    );
                                    lemma_lex_asymmetric(self.key_at(j), key@);
                                }
                            }
                        }
                    }
                }
                return i;
            }
            i += 1;
        }
        i
    }

    /// No entry at or above the located index can hold `key` except the
    /// located one.
    proof fn lemma_only_match(self, r: int, key: Seq<u8>)
        requires
            self.wf(),
            0 <= r <= self.len_spec(),
            forall|i: int| 0 <= i < r ==> lex_lt(#[trigger] self.key_at(i), key),
            forall|i: int| r <= i < self.len_spec() ==> !lex_lt(#[trigger] self.key_at(i), key),
        ensures
            forall|i: int|
                0 <= i < self.len_spec() && i != r ==> #[trigger] self.key_at(i) != key,
    {
        assert forall|i: int|
            0 <= i < self.len_spec() && i != r implies #[trigger] self.key_at(i) != key by {
            if i < r {
                if self.key_at(i) == key {
                    lemma_lex_irreflexive(key);
                }
            } else {
                // r < i; any match above r would put the entry at r below key.
                if self.key_at(i) == key {
                    assert(lex_lt(self.key_at(r), self.key_at(i)));
                }
            }
        }
    }

    /// Looks a key up, returning a copy of its value.
    pub fn get(&self, key: &[u8]) -> (r: Option<Vec<u8>>)
        requires
            self.wf(),
        ensures
            match r {
                Some(v) => self.as_map().contains_key(key@) && v@ == self.as_map()[key@],
                None => !self.as_map().contains_key(key@),
            },
    {
        let idx = self.locate(key);
        if idx < self.entries.len() && bytes_eq(self.entries[idx].0.as_slice(), key) {
            proof {
                self.lemma_entry_in_map(idx as int);
            }
            Some(clone_bytes(&self.entries[idx].1))
        } else {
            proof {
                if idx < self.len_spec() {
                    self.lemma_only_match(idx as int, key@);
                } else {
                    self.lemma_only_match(idx as int, key@);
                }
                assert(!self.contains_key_spec(key@));
            }
            None
        }
    }

    /// Whether the tree holds the key.
    pub fn contains_key(&self, key: &[u8]) -> (r: bool)
        requires
            self.wf(),
        ensures
            r == self.as_map().contains_key(key@),
    {
        let idx = self.locate(key);
        if idx < self.entries.len() && bytes_eq(self.entries[idx].0.as_slice(), key) {
            proof {
                self.lemma_entry_in_map(idx as int);
            }
            true
        } else {
            proof {
                self.lemma_only_match(idx as int, key@);
                assert(!self.contains_key_spec(key@));
            }
            false
        }
    }

    /// Inserts or overwrites; returns the previous value of the key, if any.
    pub fn insert(&mut self, key: Vec<u8>, value: Vec<u8>) -> (r: Option<Vec<u8>>)
        requires
            old(self).wf(),
        ensures
            final(self).wf(),
            final(self).as_map() =~= old(self).as_map().insert(key@, value@),
            match r {
                Some(v) => old(self).as_map().contains_key(key@)
                    && v@ == old(self).as_map()[key@],
                None => !old(self).as_map().contains_key(key@),
            },
    {
        let idx = self.locate(key.as_slice());
        let ghost old_self = *self;
        if idx < self.entries.len() && bytes_eq(self.entries[idx].0.as_slice(), key.as_slice()) {
            proof {
                old_self.lemma_entry_in_map(idx as int);
            }
            let prev = self.entries.remove(idx);
            self.entries.insert(idx, (key, value));
            proof {
                self.lemma_insert_replace_post(old_self, idx as int, key@, value@);
            }
            Some(prev.1)
        } else {
            proof {
                old_self.lemma_only_match(idx as int, key@);
                assert(!old_self.contains_key_spec(key@));
            }
            self.entries.insert(idx, (key, value));
            proof {
                self.lemma_insert_fresh_post(old_self, idx as int, key@, value@);
            }
            None
        }
    }

    /// After replacing the entry at `idx` with `(key, value)` where the old
    /// key at `idx` equals `key`, the model is the old model with `key`
    /// remapped.
    proof fn lemma_insert_replace_post(self, prev: Tree, idx: int, key: Seq<u8>, value: Seq<u8>)
        requires
            prev.wf(),
            0 <= idx < prev.len_spec(),
            prev.key_at(idx) == key,
            self.entries@ =~= prev.entries@.remove(idx).insert(idx, self.entries@[idx]),
            self.len_spec() == prev.len_spec(),
            self.key_at(idx) == key,
            self.val_at(idx) == value,
            forall|i: int|
                0 <= i < self.len_spec() && i != idx
                    ==> #[trigger] self.entries@[i] == prev.entries@[i],
        ensures
            self.wf(),
            self.as_map() =~= prev.as_map().insert(key, value),
    {
        assert forall|i: int, j: int|
            0 <= i < j < self.len_spec()
            implies lex_lt(#[trigger] self.key_at(i), #[trigger] self.key_at(j)) by {
            assert(self.key_at(i) == prev.key_at(i));
            assert(self.key_at(j) == prev.key_at(j));
        }
        self.lemma_keys_unique();
        prev.lemma_keys_unique();
        assert forall|k: Seq<u8>| true implies
            self.as_map().contains_key(k) == prev.as_map().insert(key, value).contains_key(k) by {
            if self.contains_key_spec(k) {
                let i = choose|i: int|
                    0 <= i < self.len_spec() && #[trigger] self.key_at(i) == k;
                assert(prev.key_at(i) == k);
                assert(prev.contains_key_spec(k));
            }
            if prev.contains_key_spec(k) {
                let i = choose|i: int|
                    0 <= i < prev.len_spec() && #[trigger] prev.key_at(i) == k;
                assert(self.key_at(i) == k);
                assert(self.contains_key_spec(k));
            }
        }
        assert forall|k: Seq<u8>| self.as_map().contains_key(k) implies
            self.as_map()[k] == prev.as_map().insert(key, value)[k] by {
            let i = self.index_of(k);
            assert(0 <= i < self.len_spec() && self.key_at(i) == k);
            if k == key {
                assert(i == idx);
            } else {
                assert(i != idx);
                assert(prev.key_at(i) == k);
                prev.lemma_entry_in_map(i);
                assert(self.val_at(i) == prev.val_at(i));
            }
        }
    }

    /// After inserting a fresh `(key, value)` at the located position, the
    /// model is the old model with `key` added.
    proof fn lemma_insert_fresh_post(self, prev: Tree, idx: int, key: Seq<u8>, value: Seq<u8>)
        requires
            prev.wf(),
            0 <= idx <= prev.len_spec(),
            forall|i: int| 0 <= i < idx ==> lex_lt(#[trigger] prev.key_at(i), key),
            forall|i: int| idx <= i < prev.len_spec() ==> !lex_lt(#[trigger] prev.key_at(i), key),
            !prev.contains_key_spec(key),
            self.entries@ =~= prev.entries@.insert(idx, self.entries@[idx]),
            self.key_at(idx) == key,
            self.val_at(idx) == value,
        ensures
            self.wf(),
            self.as_map() =~= prev.as_map().insert(key, value),
    {
        assert(self.len_spec() == prev.len_spec() + 1);
        assert forall|i: int|
            0 <= i < self.len_spec() && i != idx
            implies #[trigger] self.entries@[i] == prev.entries@[if i < idx { i } else { i - 1 }] by {
        }
        assert forall|i: int, j: int|
            0 <= i < j < self.len_spec()
            implies lex_lt(#[trigger] self.key_at(i), #[trigger] self.key_at(j)) by {
            if i == idx {
                // j > idx: prev key at j-1 is not below key and differs from it.
                let pk = prev.key_at(j - 1);
                lemma_lex_connected(pk, key);
                if pk == key {
                    assert(prev.contains_key_spec(key));
                }
            } else if j == idx {
                assert(lex_lt(prev.key_at(i), key));
            } else {
                let pi: int = if i < idx { i } else { i - 1 };
                let pj: int = if j < idx { j } else { j - 1 };
                assert(self.key_at(i) == prev.key_at(pi));
                assert(self.key_at(j) == prev.key_at(pj));
                assert(pi < pj);
            }
        }
        self.lemma_keys_unique();
        prev.lemma_keys_unique();
        assert forall|k: Seq<u8>| true implies
            self.as_map().contains_key(k) == prev.as_map().insert(key, value).contains_key(k) by {
            if self.contains_key_spec(k) {
                let i = choose|i: int|
                    0 <= i < self.len_spec() && #[trigger] self.key_at(i) == k;
                if i != idx {
                    let pi: int = if i < idx { i } else { i - 1 };
                    assert(prev.key_at(pi) == k);
                    assert(prev.contains_key_spec(k));
                }
            }
            if prev.contains_key_spec(k) {
                let i = choose|i: int|
                    0 <= i < prev.len_spec() && #[trigger] prev.key_at(i) == k;
                let si: int = if i < idx { i } else { i + 1 };
                assert(self.entries@[si] == prev.entries@[i]);
                assert(self.key_at(si) == k);
                assert(self.contains_key_spec(k));
            }
            if k == key {
                assert(self.key_at(idx) == key);
                assert(self.contains_key_spec(k));
            }
        }
        assert forall|k: Seq<u8>| self.as_map().contains_key(k) implies
            self.as_map()[k] == prev.as_map().insert(key, value)[k] by {
            let i = self.index_of(k);
            assert(0 <= i < self.len_spec() && self.key_at(i) == k);
            if k == key {
                assert(i == idx);
            } else {
                assert(i != idx);
                let pi: int = if i < idx { i } else { i - 1 };
                assert(prev.entries@[pi] == self.entries@[i]);
                assert(prev.key_at(pi) == k);
                prev.lemma_entry_in_map(pi);
                assert(self.val_at(i) == prev.val_at(pi));
            }
        }
    }

    /// Removes a key; returns its previous value, if any.
    pub fn remove(&mut self, key: &[u8]) -> (r: Option<Vec<u8>>)
        requires
            old(self).wf(),
        ensures
            final(self).wf(),
            final(self).as_map() =~= old(self).as_map().remove(key@),
            match r {
                Some(v) => old(self).as_map().contains_key(key@)
                    && v@ == old(self).as_map()[key@],
                None => !old(self).as_map().contains_key(key@),
            },
    {
        let idx = self.locate(key);
        let ghost old_self = *self;
        if idx < self.entries.len() && bytes_eq(self.entries[idx].0.as_slice(), key) {
            proof {
                old_self.lemma_entry_in_map(idx as int);
            }
            let prev = self.entries.remove(idx);
            proof {
                self.lemma_remove_post(old_self, idx as int, key@);
            }
            Some(prev.1)
        } else {
            proof {
                old_self.lemma_only_match(idx as int, key@);
                assert(!old_self.contains_key_spec(key@));
                assert(self.as_map() =~= old(self).as_map().remove(key@));
            }
            None
        }
    }

    /// After removing the entry at `idx` holding `key`, the model is the old
    /// model without `key`.
    proof fn lemma_remove_post(self, prev: Tree, idx: int, key: Seq<u8>)
        requires
            prev.wf(),
            0 <= idx < prev.len_spec(),
            prev.key_at(idx) == key,
            self.entries@ =~= prev.entries@.remove(idx),
        ensures
            self.wf(),
            self.as_map() =~= prev.as_map().remove(key),
    {
        assert(self.len_spec() == prev.len_spec() - 1);
        assert forall|i: int, j: int|
            0 <= i < j < self.len_spec()
            implies lex_lt(#[trigger] self.key_at(i), #[trigger] self.key_at(j)) by {
            let pi: int = if i < idx { i } else { i + 1 };
            let pj: int = if j < idx { j } else { j + 1 };
            assert(self.entries@[i] == prev.entries@[pi]);
            assert(self.entries@[j] == prev.entries@[pj]);
            assert(self.key_at(i) == prev.key_at(pi));
            assert(self.key_at(j) == prev.key_at(pj));
            assert(lex_lt(prev.key_at(pi), prev.key_at(pj)));
        }
        self.lemma_keys_unique();
        prev.lemma_keys_unique();
        assert forall|k: Seq<u8>| true implies
            self.as_map().contains_key(k) == prev.as_map().remove(key).contains_key(k) by {
            if self.contains_key_spec(k) {
                let i = choose|i: int|
                    0 <= i < self.len_spec() && #[trigger] self.key_at(i) == k;
                let pi: int = if i < idx { i } else { i + 1 };
                assert(prev.entries@[pi] == self.entries@[i]);
                assert(prev.key_at(pi) == k);
                assert(prev.contains_key_spec(k));
                if k == key {
                    assert(prev.key_at(pi) == prev.key_at(idx));
                    assert(pi == idx);
                }
            }
            if prev.contains_key_spec(k) && k != key {
                let i = choose|i: int|
                    0 <= i < prev.len_spec() && #[trigger] prev.key_at(i) == k;
                assert(i != idx);
                let si: int = if i < idx { i } else { i - 1 };
                assert(self.entries@[si] == prev.entries@[i]);
                assert(self.key_at(si) == k);
                assert(self.contains_key_spec(k));
            }
        }
        assert forall|k: Seq<u8>| self.as_map().contains_key(k) implies
            self.as_map()[k] == prev.as_map().remove(key)[k] by {
            let i = self.index_of(k);
            assert(0 <= i < self.len_spec() && self.key_at(i) == k);
            let pi: int = if i < idx { i } else { i + 1 };
            assert(prev.entries@[pi] == self.entries@[i]);
            assert(prev.key_at(pi) == k);
            prev.lemma_entry_in_map(pi);
            assert(self.val_at(i) == prev.val_at(pi));
        }
    }
}

} // verus!
