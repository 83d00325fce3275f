//! Page allocation and free page tracking.
//!
//! The freelist records pages that have been released and can be reused.
//! It is modelled as the set of free page ids; the executable form keeps
//! them sorted, which makes allocation deterministic (smallest id first)
//! and deduplicates repeated frees.

use vstd::prelude::*;

use crate::page::PageId;

verus! {

/// Serialized form of a sequence of page ids: each as 8 little-endian bytes.
pub open spec fn ids_bytes(ids: Seq<u64>) -> Seq<u8>
    decreases ids.len(),
{
    if ids.len() == 0 {
        Seq::<u8>::empty()
    } else {
        vstd::bytes::spec_u64_to_le_bytes(ids[0]) + ids_bytes(ids.drop_first())
    }
}

pub proof fn lemma_ids_bytes_push(ids: Seq<u64>, x: u64)
    ensures
        ids_bytes(ids.push(x)) =~= ids_bytes(ids) + vstd::bytes::spec_u64_to_le_bytes(x),
    decreases ids.len(),
{
    reveal_with_fuel(ids_bytes, 3);
    vstd::bytes::lemma_auto_spec_u64_to_from_le_bytes();
    if ids.len() == 0 {
        assert(ids.push(x)[0] == x);
        assert(ids.push(x).drop_first() =~= Seq::<u64>::empty());
    } else {
        assert(ids.push(x)[0] == ids[0]);
        assert(ids.push(x).drop_first() =~= ids.drop_first().push(x));
        lemma_ids_bytes_push(ids.drop_first(), x);
    }
}

/// A freelist of released pages, allocated back smallest-first.
#[derive(Debug, Clone)]
pub struct FreeList {
    pub ids: Vec<u64>,
}

impl FreeList {
    /// Well-formed: ids strictly ascending (sorted and duplicate-free).
    pub open spec fn wf(self) -> bool {
        forall|i: int, j: int|
            0 <= i < j < self.ids@.len() ==> #[trigger] self.ids@[i] < #[trigger] self.ids@[j]
    }

    /// The mathematical model: the set of free page ids.
    pub open spec fn as_set(self) -> Set<u64> {
        self.ids@.to_set()
    }

    /// Creates a new empty freelist.
    pub fn new() -> (r: FreeList)
        ensures
            r.wf(),
            r.ids@.len() == 0,
            r.as_set() =~= Set::<u64>::empty(),
    {
        FreeList { ids: Vec::new() }
    }

    /// Returns true if the freelist is empty.
    pub fn is_empty(&self) -> (r: bool)
        ensures
            r == (self.ids@.len() == 0),
    {
        self.ids.len() == 0
    }

    /// Returns the number of free pages.
    pub fn len(&self) -> (r: usize)
        ensures
            r == self.ids@.len(),
    {
        self.ids.len()
    }

    /// The index of the first id not below `page_id`.
    fn locate(&self, page_id: u64) -> (r: usize)
        requires
            self.wf(),
        ensures
            r <= self.ids@.len(),
            forall|i: int| 0 <= i < r ==> #[trigger] self.ids@[i] < page_id,
            forall|i: int| r <= i < self.ids@.len() ==> #[trigger] self.ids@[i] >= page_id,
    {
        let mut i: usize = 0;
        let n = self.ids.len();
        while i < n
            invariant
                0 <= i <= n,
                n == self.ids@.len(),
                self.wf(),
                forall|j: int| 0 <= j < i ==> #[trigger] self.ids@[j] < page_id,
            decreases n - i,
        {
            if self.ids[i] >= page_id {
                return i;
            }
            i += 1;
        }
        i
    }

    /// Marks a page as free; freeing an already-free page changes nothing.
    pub fn free(&mut self, page_id: PageId)
        requires
            old(self).wf(),
        ensures
            final(self).wf(),
            final(self).as_set() =~= old(self).as_set().insert(page_id),
            old(self).as_set().contains(page_id) ==> final(self).ids@ == old(self).ids@,
            !old(self).as_set().contains(page_id)
                ==> final(self).ids@.len() == old(self).ids@.len() + 1,
    {
        let idx = self.locate(page_id);
        if idx < self.ids.len() && self.ids[idx] == page_id {
            proof {
                assert(old(self).ids@.contains(old(self).ids@[idx as int]));
            }
            return ;
        }
        proof {
            assert forall|i: int| 0 <= i < self.ids@.len()
                implies #[trigger] self.ids@[i] != page_id by {}
            if old(self).as_set().contains(page_id) {
                let i = choose|i: int|
                    0 <= i < old(self).ids@.len() && #[trigger] old(self).ids@[i] == page_id;
                assert(false);
            }
        }
        let ghost prev = *self;
        self.ids.insert(idx, page_id);
        proof {
            assert forall|i: int, j: int| 0 <= i < j < self.ids@.len()
                implies #[trigger] self.ids@[i] < #[trigger] self.ids@[j] by {
                let idxi = idx as int;
                if i < idxi && j == idxi {
                } else if i == idxi && j > idxi {
                    assert(self.ids@[j] == prev.ids@[j - 1]);
                } else if i != idxi && j != idxi {
                    let pi: int = if i < idxi { i } else { i - 1 };
                    let pj: int = if j < idxi { j } else { j - 1 };
                    assert(self.ids@[i] == prev.ids@[pi]);
                    assert(self.ids@[j] == prev.ids@[pj]);
                    assert(prev.ids@[pi] < prev.ids@[pj]);
                }
            }
            assert forall|x: u64| true
                implies self.as_set().contains(x) == prev.as_set().insert(page_id).contains(x) by {
                if self.ids@.contains(x) {
                    let i = choose|i: int| 0 <= i < self.ids@.len() && #[trigger] self.ids@[i] == x;
                    if i != idx as int {
                        let pi: int = if i < idx as int { i } else { i - 1 };
                        assert(prev.ids@[pi] == x);
                        assert(prev.ids@.contains(x));
                    }
                }
                if prev.ids@.contains(x) {
                    let i = choose|i: int| 0 <= i < prev.ids@.len() && #[trigger] prev.ids@[i] == x;
                    let si: int = if i < idx as int { i } else { i + 1 };
                    assert(self.ids@[si] == x);
                    assert(self.ids@.contains(x));
                }
                if x == page_id {
                    assert(self.ids@[idx as int] == x);
                    assert(self.ids@.contains(x));
                }
            }
        }
    }

    /// Allocates the smallest free page, removing it from the freelist.
    pub fn allocate(&mut self) -> (r: Option<PageId>)
        requires
            old(self).wf(),
        ensures
            final(self).wf(),
            old(self).ids@.len() == 0 ==> r is None && final(self).ids@ == old(self).ids@,
            old(self).ids@.len() > 0 ==> {
                &&& r == Some(old(self).ids@[0])
                &&& final(self).ids@ == old(self).ids@.drop_first()
                &&& final(self).as_set() =~= old(self).as_set().remove(old(self).ids@[0])
                &&& forall|x: u64|
                    old(self).as_set().contains(x) ==> old(self).ids@[0] <= x
            },
    {
        if self.ids.len() == 0 {
            return None;
        }
        let ghost prev = *self;
        let id = self.ids.remove(0);
        proof {
            assert(self.ids@ =~= prev.ids@.drop_first());
            assert forall|i: int, j: int| 0 <= i < j < self.ids@.len()
                implies #[trigger] self.ids@[i] < #[trigger] self.ids@[j] by {
                assert(self.ids@[i] == prev.ids@[i + 1]);
                assert(self.ids@[j] == prev.ids@[j + 1]);
            }
            assert forall|x: u64| prev.as_set().contains(x) implies prev.ids@[0] <= x by {
                let i = choose|i: int| 0 <= i < prev.ids@.len() && #[trigger] prev.ids@[i] == x;
                if i > 0 {
                    assert(prev.ids@[0] < prev.ids@[i]);
                }
            }
            assert forall|x: u64| true
                implies self.as_set().contains(x)
                    == prev.as_set().remove(prev.ids@[0]).contains(x) by {
                if self.ids@.contains(x) {
                    let i = choose|i: int| 0 <= i < self.ids@.len() && #[trigger] self.ids@[i] == x;
                    assert(prev.ids@[i + 1] == x);
                    assert(prev.ids@.contains(x));
                    assert(prev.ids@[0] < prev.ids@[i + 1]);
                }
                if prev.as_set().remove(prev.ids@[0]).contains(x) {
                    let i = choose|i: int| 0 <= i < prev.ids@.len() && #[trigger] prev.ids@[i] == x;
                    assert(i != 0);
                    assert(self.ids@[i - 1] == x);
                    assert(self.ids@.contains(x));
                }
            }
        }
        Some(id)
    }

    /// Checks if a page id is free.
    pub fn contains(&self, page_id: PageId) -> (r: bool)
        requires
            self.wf(),
        ensures
            r == self.as_set().contains(page_id),
    {
        let idx = self.locate(page_id);
        if idx < self.ids.len() && self.ids[idx] == page_id {
            proof {
                assert(self.ids@.contains(self.ids@[idx as int]));
            }
            true
        } else {
            proof {
                if self.ids@.contains(page_id) {
                    let i = choose|i: int|
                        0 <= i < self.ids@.len() && #[trigger] self.ids@[i] == page_id;
                    assert(false);
                }
            }
            false
        }
    }

    /// Clears all pages from the freelist.
    pub fn clear(&mut self)
        ensures
            final(self).wf(),
            final(self).ids@.len() == 0,
            final(self).as_set() =~= Set::<u64>::empty(),
    {
        self.ids.clear();
    }

    /// Returns the free page ids in ascending order.
    pub fn iter(&self) -> (r: Vec<u64>)
        ensures
            r@ == self.ids@,
    {
        let mut out: Vec<u64> = Vec::new();
        let mut i: usize = 0;
        while i < self.ids.len()
            invariant
                0 <= i <= self.ids@.len(),
                out@ =~= self.ids@.subrange(0, i as int),
            decreases self.ids@.len() - i,
        {
            out.push(self.ids[i]);
            proof {
                assert(self.ids@.subrange(0, i + 1)
                    =~= self.ids@.subrange(0, i as int).push(self.ids@[i as int]));
            }
            i += 1;
        }
        proof {
            assert(self.ids@.subrange(0, self.ids@.len() as int) =~= self.ids@);
        }
        out
    }

    /// Serializes the freelist: an 8-byte count followed by the ids,
    /// all little-endian.
    pub fn to_bytes(&self) -> (r: Vec<u8>)
        requires
            self.ids@.len() <= 0xFFFF_FFFF,
        ensures
            r@ =~= vstd::bytes::spec_u64_to_le_bytes(self.ids@.len() as u64) + ids_bytes(self.ids@),
            r@.len() == 8 + 8 * self.ids@.len(),
    {
        proof {
            vstd::bytes::lemma_auto_spec_u64_to_from_le_bytes();
        }
        let count = self.ids.len() as u64;
        let mut buf = vstd::bytes::u64_to_le_bytes(count);
        let mut i: usize = 0;
        while i < self.ids.len()
            invariant
                0 <= i <= self.ids@.len(),
                buf@ =~= vstd::bytes::spec_u64_to_le_bytes(self.ids@.len() as u64)
                    + ids_bytes(self.ids@.subrange(0, i as int)),
                buf@.len() == 8 + 8 * i,
            decreases self.ids@.len() - i,
        {
            let mut id_bytes = vstd::bytes::u64_to_le_bytes(self.ids[i]);
            proof {
                lemma_ids_bytes_push(self.ids@.subrange(0, i as int), self.ids@[i as int]);
                assert(self.ids@.subrange(0, i + 1)
                    =~= self.ids@.subrange(0, i as int).push(self.ids@[i as int]));
            }
            buf.append(&mut id_bytes);
            i += 1;
        }
        proof {
            assert(self.ids@.subrange(0, self.ids@.len() as int) =~= self.ids@);
        }
        buf
    }

    /// The id stored at position `i` of a serialized freelist.
    pub open spec fn parsed_id(buf: Seq<u8>, i: int) -> u64 {
        vstd::bytes::spec_u64_from_le_bytes(buf.subrange(8 + 8 * i, 16 + 8 * i))
    }

    /// The count stored at the head of a serialized freelist.
    pub open spec fn parsed_count(buf: Seq<u8>) -> u64 {
        vstd::bytes::spec_u64_from_le_bytes(buf.subrange(0, 8))
    }

    /// Deserializes a freelist; `None` when the buffer is shorter than its
    /// declared contents.
    pub fn from_bytes(buf: &[u8]) -> (r: Option<FreeList>)
        ensures
            match r {
                Some(fl) => {
                    &&& buf@.len() >= 8
                    &&& 8 + 8 * (Self::parsed_count(buf@) as int) <= buf@.len()
                    &&& fl.wf()
                    &&& forall|x: u64|
                        fl.as_set().contains(x) == exists|i: int|
                            0 <= i < Self::parsed_count(buf@) && #[trigger] Self::parsed_id(buf@, i) == x
                },
                None => buf@.len() < 8
                    || 8 + 8 * (Self::parsed_count(buf@) as int) > buf@.len(),
            },
    {
        if buf.len() < 8 {
            return None;
        }
        let header = vstd::slice::slice_subrange(buf, 0, 8);
        let count = vstd::bytes::u64_from_le_bytes(header);
        if count > ((buf.len() - 8) / 8) as u64 {
            return None;
        }
        let mut fl = FreeList::new();
        let mut i: usize = 0;
        let n = count as usize;
        let buf_len = buf.len();
        while i < n
            invariant
                0 <= i <= n,
                n == Self::parsed_count(buf@),
                8 + 8 * n <= buf_len,
                buf_len == buf@.len(),
                fl.wf(),
                forall|x: u64|
                    fl.as_set().contains(x) == exists|j: int|
                        0 <= j < i && #[trigger] Self::parsed_id(buf@, j) == x,
            decreases n - i,
        {
            let chunk = vstd::slice::slice_subrange(buf, 8 + 8 * i, 16 + 8 * i);
            let id = vstd::bytes::u64_from_le_bytes(chunk);
            let ghost prev_set = fl.as_set();
            fl.free(id);
            proof {
                assert(id == Self::parsed_id(buf@, i as int));
                assert forall|x: u64| true
                    implies fl.as_set().contains(x) == exists|j: int|
                        0 <= j < i + 1 && #[trigger] Self::parsed_id(buf@, j) == x by {
                    if fl.as_set().contains(x) {
                        if x == id {
                            assert(Self::parsed_id(buf@, i as int) == x);
                        } else {
                            assert(prev_set.contains(x));
                        }
                    }
                    if exists|j: int|
                        0 <= j < i + 1 && #[trigger] Self::parsed_id(buf@, j) == x {
                        let j = choose|j: int|
                            0 <= j < i + 1 && #[trigger] Self::parsed_id(buf@, j) == x;
                        if j < i {
                            assert(prev_set.contains(x));
                        }
                    }
                }
            }
            i += 1;
        }
        Some(fl)
    }
}

impl Default for FreeList {
    /// An empty freelist.
    fn default() -> (r: FreeList)
        ensures
            r.wf(),
            r.ids@.len() == 0,
    {
        FreeList::new()
    }
}

} // verus!
