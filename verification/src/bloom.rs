//! Bloom filter for probabilistic set membership.
//!
//! A space-efficient negative-lookup accelerator: when the filter says a
//! key is absent, it is definitely absent; when it says a key might be
//! present there is a small false-positive probability. Bits are set by
//! double hashing `h1 + i * h2 (mod m)` over two FNV-1a hashes with
//! distinct seeds.

use vstd::prelude::*;

verus! {

/// FNV-1a offset basis.
pub const FNV_OFFSET_BASIS: u64 = 0xcbf29ce484222325;

/// FNV-1a prime.
pub const FNV_PRIME: u64 = 0x100000001b3;

/// Seed distinguishing the second hash from the first.
pub const FNV_SEED2: u64 = 0x517cc1b727220a95;

/// FNV-1a folding of `data` into the accumulator `acc`.
pub open spec fn fnv1a_acc(data: Seq<u8>, acc: u64) -> u64
    decreases data.len(),
{
    if data.len() == 0 {
        acc
    } else {
        fnv1a_acc(data.drop_first(), (acc ^ (data[0] as u64)).wrapping_mul(FNV_PRIME))
    }
}

/// The FNV-1a hash of `data` under `seed`.
pub open spec fn fnv1a_of(data: Seq<u8>, seed: u64) -> u64 {
    fnv1a_acc(data, FNV_OFFSET_BASIS ^ seed)
}

pub proof fn lemma_fnv1a_acc_push(data: Seq<u8>, acc: u64, byte: u8)
    ensures
        fnv1a_acc(data.push(byte), acc) == (fnv1a_acc(data, acc) ^ (byte as u64)).wrapping_mul(
            FNV_PRIME,
        ),
    decreases data.len(),
{
    reveal_with_fuel(fnv1a_acc, 3);
    if data.len() == 0 {
        assert(data.push(byte)[0] == byte);
        assert(data.push(byte).drop_first() =~= Seq::<u8>::empty());
    } else {
        assert(data.push(byte)[0] == data[0]);
        assert(data.push(byte).drop_first() =~= data.drop_first().push(byte));
        lemma_fnv1a_acc_push(
            data.drop_first(),
            (acc ^ (data[0] as u64)).wrapping_mul(FNV_PRIME),
            byte,
        );
    }
}

/// Computes the FNV-1a hash of `data` under `seed`.
pub fn fnv1a_hash(data: &[u8], seed: u64) -> (r: u64)
    ensures
        r == fnv1a_of(data@, seed),
{
    let mut hash: u64 = FNV_OFFSET_BASIS ^ seed;
    let mut i: usize = 0;
    while i < data.len()
        invariant
            0 <= i <= data@.len(),
            hash == fnv1a_acc(data@.take(i as int), FNV_OFFSET_BASIS ^ seed),
        decreases data@.len() - i,
    {
        let byte = data[i];
        proof {
            lemma_fnv1a_acc_push(data@.take(i as int), FNV_OFFSET_BASIS ^ seed, byte);
            assert(data@.take(i + 1) =~= data@.take(i as int).push(data@[i as int]));
        }
        hash = (hash ^ (byte as u64)).wrapping_mul(FNV_PRIME);
        i += 1;
    }
    proof {
        assert(data@.take(data@.len() as int) =~= data@);
    }
    hash
}

/// The bit probed by hash function `i` for `key` in a filter of
/// `num_bits` bits.
pub open spec fn bit_index_spec(key: Seq<u8>, i: u64, num_bits: u64) -> u64 {
    fnv1a_of(key, 0).wrapping_add(i.wrapping_mul(fnv1a_of(key, FNV_SEED2))) % num_bits
}

/// Whether bit `idx` is set in the word array.
pub open spec fn bit_set(bits: Seq<u64>, idx: u64) -> bool {
    bits[(idx / 64) as int] & (1u64 << (idx % 64)) != 0
}

/// A space-efficient probabilistic set-membership filter.
#[derive(Debug)]
pub struct BloomFilter {
    /// Bit array stored as 64-bit words.
    pub bits: Vec<u64>,
    /// Number of hash functions probed per key.
    pub num_hashes: u8,
    /// Total number of bits in the filter.
    pub num_bits: usize,
    /// Number of insertions performed.
    pub item_count: usize,
}

impl BloomFilter {
    /// Well-formed: at least one bit and one hash, words covering all
    /// bits.
    pub open spec fn wf(self) -> bool {
        &&& self.num_bits >= 1
        &&& self.num_bits <= 0xFFFF_FFFF
        &&& self.num_hashes >= 1
        &&& self.bits@.len() == (self.num_bits + 63) / 64
    }

    /// Whether the filter reports `key` as possibly present: every probed
    /// bit is set.
    pub open spec fn contains_spec(self, key: Seq<u8>) -> bool {
        forall|i: u64|
            i < self.num_hashes ==> bit_set(
                self.bits@,
                #[trigger] bit_index_spec(key, i, self.num_bits as u64),
            )
    }

    /// The number of bits for `n` expected items at a 1% false-positive
    /// rate, before rounding to a word boundary: about 9.585 bits per
    /// item.
    pub open spec fn bits_for(n: int) -> int {
        let raw = (n * 9585 + 999) / 1000;
        if raw < 64 {
            64
        } else {
            raw
        }
    }

    /// The number of hash functions for `m` bits over `n` items:
    /// `(m / n) * ln 2`, clamped to `[1, 16]`.
    pub open spec fn hashes_for(m: int, n: int) -> int {
        let raw = (m * 6931 + n * 10000 - 1) / (n * 10000);
        if raw < 1 {
            1
        } else if raw > 16 {
            16
        } else {
            raw
        }
    }

    /// Creates a filter with the given geometry: `num_words` 64-bit words
    /// and `num_hashes` probes per key.
    pub fn with_params(num_words: usize, num_hashes: u8) -> (r: BloomFilter)
        requires
            1 <= num_words <= 0x100_0000,
            num_hashes >= 1,
        ensures
            r.wf(),
            r.num_bits == num_words * 64,
            r.num_hashes == num_hashes,
            r.item_count == 0,
            forall|j: int| 0 <= j < r.bits@.len() ==> #[trigger] r.bits@[j] == 0,
    {
        let mut bits: Vec<u64> = Vec::new();
        let mut i: usize = 0;
        while i < num_words
            invariant
                0 <= i <= num_words,
                bits@.len() == i,
                forall|j: int| 0 <= j < i ==> #[trigger] bits@[j] == 0,
            decreases num_words - i,
        {
            bits.push(0u64);
            i += 1;
        }
        proof {
            assert((num_words * 64 + 63) / 64 == num_words) by (nonlinear_arith)
                requires
                    1 <= num_words,
            {}
        }
        BloomFilter { bits, num_hashes, num_bits: num_words * 64, item_count: 0 }
    }

    /// Creates a filter sized for the expected number of items at a 1%
    /// false-positive rate.
    pub fn with_capacity(expected_items: usize) -> (r: BloomFilter)
        requires
            1 <= expected_items <= 100_000_000,
        ensures
            r.wf(),
            r.num_bits == ((Self::bits_for(expected_items as int) + 63) / 64) * 64,
            r.num_hashes == Self::hashes_for(r.num_bits as int, expected_items as int),
            r.item_count == 0,
            forall|j: int| 0 <= j < r.bits@.len() ==> #[trigger] r.bits@[j] == 0,
    {
        let n = expected_items as u64;
        let raw: u64 = (n * 9585 + 999) / 1000;
        let raw = if raw < 64 { 64 } else { raw };
        let num_words: u64 = (raw + 63) / 64;
        proof {
            assert(num_words <= 0x100_0000) by (nonlinear_arith)
                requires
                    num_words == (raw + 63) / 64,
                    raw == if (n * 9585 + 999) / 1000 < 64 { 64int } else { (n * 9585 + 999) / 1000 },
                    1 <= n <= 100_000_000,
            {}
            assert(num_words >= 1) by (nonlinear_arith)
                requires
                    num_words == (raw + 63) / 64,
                    raw >= 64,
            {}
        }
        let m: u64 = num_words * 64;
        proof {
            assert(m == ((Self::bits_for(n as int) + 63) / 64) * 64);
            assert(m <= 0x100_0000 * 64) by (nonlinear_arith)
                requires
                    m == num_words * 64,
                    num_words <= 0x100_0000,
            {}
        }
        let k_raw: u64 = (m * 6931 + n * 10000 - 1) / (n * 10000);
        let k: u64 = if k_raw < 1 {
            1
        } else if k_raw > 16 {
            16
        } else {
            k_raw
        };
        let f = Self::with_params(num_words as usize, k as u8);
        proof {
            assert(f.num_bits == num_words * 64);
        }
        f
    }

    /// Adds a key to the filter: after this, `may_contain(key)` returns
    /// true, and every bit set before stays set.
    pub fn insert(&mut self, key: &[u8])
        requires
            old(self).wf(),
        ensures
            final(self).wf(),
            final(self).num_bits == old(self).num_bits,
            final(self).num_hashes == old(self).num_hashes,
            final(self).item_count == if old(self).item_count < usize::MAX {
                old(self).item_count + 1
            } else {
                old(self).item_count as int
            },
            final(self).contains_spec(key@),
            forall|idx: u64|
                idx < old(self).num_bits && bit_set(old(self).bits@, idx) ==> bit_set(
                    final(self).bits@,
                    idx,
                ),
    {
        let h1 = fnv1a_hash(key, 0);
        let h2 = fnv1a_hash(key, FNV_SEED2);
        let nb = self.num_bits as u64;
        let k = self.num_hashes;
        let ghost orig = *self;
        let mut i: u64 = 0;
        while i < k as u64
            invariant
                0 <= i <= k,
                self.wf(),
                k == self.num_hashes,
                nb == self.num_bits as u64,
                nb >= 1,
                h1 == fnv1a_of(key@, 0),
                h2 == fnv1a_of(key@, FNV_SEED2),
                self.num_bits == orig.num_bits,
                self.num_hashes == orig.num_hashes,
                self.item_count == orig.item_count,
                self.bits@.len() == orig.bits@.len(),
                forall|idx: u64|
                    idx < orig.num_bits && bit_set(orig.bits@, idx) ==> bit_set(
                        self.bits@,
                        idx,
                    ),
                forall|j: u64|
                    j < i ==> bit_set(
                        self.bits@,
                        #[trigger] bit_index_spec(key@, j, nb),
                    ),
            decreases k - i,
        {
            let idx = h1.wrapping_add(i.wrapping_mul(h2)) % nb;
            proof {
                assert(idx == bit_index_spec(key@, i, nb));
                assert(idx < nb) by (nonlinear_arith)
                    requires
                        idx == h1.wrapping_add(i.wrapping_mul(h2)) % nb,
                        nb >= 1,
                {}
                assert(idx / 64 < self.bits@.len()) by (nonlinear_arith)
                    requires
                        idx < nb,
                        nb <= 0xFFFF_FFFFu64,
                        self.bits@.len() == (nb + 63) / 64,
                {}
            }
            let word_idx = (idx / 64) as usize;
            let bit_idx = idx % 64;
            let word = self.bits[word_idx];
            let new_word = word | (1u64 << bit_idx);
            let ghost before = self.bits@;
            self.bits.set(word_idx, new_word);
            proof {
                assert(bit_idx < 64) by (nonlinear_arith)
                    requires
                        bit_idx == idx % 64u64,
                {}
                assert((word | (1u64 << bit_idx)) & (1u64 << bit_idx) != 0) by (bit_vector)
                    requires
                        bit_idx < 64u64,
                {}
                assert forall|idx2: u64| idx2 < orig.num_bits && bit_set(before, idx2)
                    implies bit_set(self.bits@, idx2) by {
                    let w2 = (idx2 / 64) as int;
                    if w2 == word_idx {
                        let b2 = idx2 % 64;
                        assert(before[w2] & (1u64 << b2) != 0);
                        assert((word | (1u64 << bit_idx)) & (1u64 << b2) != 0) by (bit_vector)
                            requires
                                word & (1u64 << b2) != 0,
                        {}
                    } else {
                        assert(self.bits@[w2] == before[w2]);
                    }
                }
                assert forall|j: u64| j < i + 1 implies bit_set(
                    self.bits@,
                    #[trigger] bit_index_spec(key@, j, nb),
                ) by {
                    if j < i {
                        assert(bit_set(before, bit_index_spec(key@, j, nb)));
                        assert(bit_index_spec(key@, j, nb) < nb) by (nonlinear_arith)
                            requires
                                nb >= 1,
                        {}
                    } else {
                        assert(bit_set(self.bits@, idx));
                    }
                }
            }
            i += 1;
        }
        if self.item_count < usize::MAX {
            self.item_count = self.item_count + 1;
        }
    }

    /// Checks if a key might be in the set: false means definitely not
    /// present; true means possibly present.
    pub fn may_contain(&self, key: &[u8]) -> (r: bool)
        requires
            self.wf(),
        ensures
            r == self.contains_spec(key@),
    {
        let h1 = fnv1a_hash(key, 0);
        let h2 = fnv1a_hash(key, FNV_SEED2);
        let nb = self.num_bits as u64;
        let k = self.num_hashes;
        let mut i: u64 = 0;
        while i < k as u64
            invariant
                0 <= i <= k,
                self.wf(),
                k == self.num_hashes,
                nb == self.num_bits as u64,
                h1 == fnv1a_of(key@, 0),
                h2 == fnv1a_of(key@, FNV_SEED2),
                forall|j: u64|
                    j < i ==> bit_set(
                        self.bits@,
                        #[trigger] bit_index_spec(key@, j, nb),
                    ),
            decreases k - i,
        {
            let idx = h1.wrapping_add(i.wrapping_mul(h2)) % nb;
            proof {
                assert(idx == bit_index_spec(key@, i, nb));
                assert(idx < nb) by (nonlinear_arith)
                    requires
                        idx == h1.wrapping_add(i.wrapping_mul(h2)) % nb,
                        nb >= 1,
                {}
                assert(idx / 64 < self.bits@.len()) by (nonlinear_arith)
                    requires
                        idx < nb,
                        nb <= 0xFFFF_FFFFu64,
                        self.bits@.len() == (nb + 63) / 64,
                {}
            }
            let word_idx = (idx / 64) as usize;
            let bit_idx = idx % 64;
            if self.bits[word_idx] & (1u64 << bit_idx) == 0 {
                proof {
                    assert(!bit_set(self.bits@, bit_index_spec(key@, i, nb)));
                }
                return false;
            }
            i += 1;
        }
        true
    }

    /// Returns the number of items inserted so far.
    pub fn item_count(&self) -> (r: usize)
        ensures
            r == self.item_count,
    {
        self.item_count
    }

    /// Returns the size of the filter in bits.
    pub fn size_bits(&self) -> (r: usize)
        ensures
            r == self.num_bits,
    {
        self.num_bits
    }

    /// Returns the size of the filter's word array in bytes.
    pub fn size_bytes(&self) -> (r: usize)
        requires
            self.wf(),
        ensures
            r == self.bits@.len() * 8,
    {
        proof {
            assert(self.bits@.len() * 8 <= 0x2000_0008) by (nonlinear_arith)
                requires
                    self.bits@.len() == (self.num_bits + 63) / 64,
                    self.num_bits <= 0xFFFF_FFFF,
            {}
        }
        self.bits.len() * 8
    }

    /// Returns the number of hash functions used.
    pub fn num_hashes(&self) -> (r: u8)
        ensures
            r == self.num_hashes,
    {
        self.num_hashes
    }

    /// Serializes the filter: `num_bits` (4 bytes), `num_hashes` (1),
    /// `item_count` (8), then the words, all little-endian.
    pub fn to_bytes(&self) -> (r: Vec<u8>)
        requires
            self.wf(),
        ensures
            r@ =~= vstd::bytes::spec_u32_to_le_bytes(self.num_bits as u32)
                + seq![self.num_hashes]
                + vstd::bytes::spec_u64_to_le_bytes(self.item_count as u64)
                + crate::freelist::ids_bytes(self.bits@),
    {
        proof {
            vstd::bytes::lemma_auto_spec_u32_to_from_le_bytes();
            vstd::bytes::lemma_auto_spec_u64_to_from_le_bytes();
        }
        let mut buf = vstd::bytes::u32_to_le_bytes(self.num_bits as u32);
        buf.push(self.num_hashes);
        let mut count_bytes = vstd::bytes::u64_to_le_bytes(self.item_count as u64);
        buf.append(&mut count_bytes);
        let ghost header = buf@;
        let mut i: usize = 0;
        while i < self.bits.len()
            invariant
                0 <= i <= self.bits@.len(),
                buf@ =~= header + crate::freelist::ids_bytes(self.bits@.subrange(0, i as int)),
            decreases self.bits@.len() - i,
        {
            let mut word_bytes = vstd::bytes::u64_to_le_bytes(self.bits[i]);
            proof {
                crate::freelist::lemma_ids_bytes_push(
                    self.bits@.subrange(0, i as int),
                    self.bits@[i as int],
                );
                assert(self.bits@.subrange(0, i + 1)
                    =~= self.bits@.subrange(0, i as int).push(self.bits@[i as int]));
            }
            buf.append(&mut word_bytes);
            i += 1;
        }
        proof {
            assert(self.bits@.subrange(0, self.bits@.len() as int) =~= self.bits@);
        }
        buf
    }

    /// Deserializes a filter; `None` when the buffer is too short for its
    /// declared geometry or the geometry is degenerate (no bits or no
    /// hashes).
    pub fn from_bytes(data: &[u8]) -> (r: Option<BloomFilter>)
        ensures
            match r {
                Some(f) => {
                    &&& data@.len() >= 13
                    &&& f.wf()
                    &&& f.num_bits == vstd::bytes::spec_u32_from_le_bytes(data@.subrange(0, 4))
                    &&& f.num_hashes == data@[4]
                    &&& f.item_count == vstd::bytes::spec_u64_from_le_bytes(
                        data@.subrange(5, 13),
                    )
                    &&& f.bits@.len() == (f.num_bits + 63) / 64
                    &&& forall|j: int|
                        0 <= j < f.bits@.len() ==> #[trigger] f.bits@[j]
                            == vstd::bytes::spec_u64_from_le_bytes(
                            data@.subrange(13 + 8 * j, 21 + 8 * j),
                        )
                },
                None => data@.len() < 13
                    || vstd::bytes::spec_u32_from_le_bytes(data@.subrange(0, 4)) == 0
                    || data@[4] == 0
                    || data@.len() < 13 + 8 * ((vstd::bytes::spec_u32_from_le_bytes(
                        data@.subrange(0, 4),
                    ) + 63) as int / 64)
                    || vstd::bytes::spec_u64_from_le_bytes(data@.subrange(5, 13)) > usize::MAX,
            },
    {
        if data.len() < 13 {
            return None;
        }
        let num_bits = vstd::bytes::u32_from_le_bytes(vstd::slice::slice_subrange(data, 0, 4));
        let num_hashes = *vstd::slice::slice_index_get(data, 4);
        let item_count = vstd::bytes::u64_from_le_bytes(vstd::slice::slice_subrange(data, 5, 13));
        if num_bits == 0 || num_hashes == 0 {
            return None;
        }
        if item_count > usize::MAX as u64 {
            return None;
        }
        let num_words = ((num_bits as u64 + 63) / 64) as usize;
        let data_len = data.len();
        if data_len < 13 || (data_len - 13) / 8 < num_words {
            proof {
                assert(data@.len() < 13 + 8 * (num_words as int)) by (nonlinear_arith)
                    requires
                        (data@.len() - 13) / 8 < num_words as int,
                        data@.len() >= 13,
                {}
            }
            return None;
        }
        proof {
            assert(13 + 8 * (num_words as int) <= data@.len()) by (nonlinear_arith)
                requires
                    (data@.len() - 13) / 8 >= num_words as int,
                    data@.len() >= 13,
            {}
        }
        let mut bits: Vec<u64> = Vec::new();
        let mut i: usize = 0;
        while i < num_words
            invariant
                0 <= i <= num_words,
                13 + 8 * num_words <= data_len,
                data_len == data@.len(),
                bits@.len() == i,
                forall|j: int|
                    0 <= j < i ==> #[trigger] bits@[j] == vstd::bytes::spec_u64_from_le_bytes(
                        data@.subrange(13 + 8 * j, 21 + 8 * j),
                    ),
            decreases num_words - i,
        {
            let word = vstd::bytes::u64_from_le_bytes(
                vstd::slice::slice_subrange(data, 13 + 8 * i, 21 + 8 * i),
            );
            bits.push(word);
            i += 1;
        }
        Some(BloomFilter {
            bits,
            num_hashes,
            num_bits: num_bits as usize,
            item_count: item_count as usize,
        })
    }

    /// Clears the filter, removing all items.
    pub fn clear(&mut self)
        requires
            old(self).wf(),
        ensures
            final(self).wf(),
            final(self).num_bits == old(self).num_bits,
            final(self).num_hashes == old(self).num_hashes,
            final(self).item_count == 0,
            forall|j: int| 0 <= j < final(self).bits@.len() ==> #[trigger] final(self).bits@[j] == 0,
    {
        let n = self.bits.len();
        let mut i: usize = 0;
        while i < n
            invariant
                0 <= i <= n,
                self.bits@.len() == n,
                self.num_bits == old(self).num_bits,
                self.num_hashes == old(self).num_hashes,
                self.item_count == old(self).item_count,
                forall|j: int| 0 <= j < i ==> #[trigger] self.bits@[j] == 0,
            decreases n - i,
        {
            self.bits.set(i, 0u64);
            i += 1;
        }
        self.item_count = 0;
    }
}

/// No false negatives: a key whose probes are all set stays reported
/// present by any filter of the same geometry whose bit array is a
/// superset — in particular after any sequence of further insertions.
pub proof fn lemma_no_false_negatives(f1: BloomFilter, f2: BloomFilter, key: Seq<u8>)
    requires
        f1.wf(),
        f2.wf(),
        f1.num_bits == f2.num_bits,
        f1.num_hashes == f2.num_hashes,
        f1.contains_spec(key),
        forall|idx: u64| idx < f1.num_bits && bit_set(f1.bits@, idx) ==> bit_set(f2.bits@, idx),
    ensures
        f2.contains_spec(key),
{
    assert forall|i: u64| i < f2.num_hashes implies bit_set(
        f2.bits@,
        #[trigger] bit_index_spec(key, i, f2.num_bits as u64),
    ) by {
        let idx = bit_index_spec(key, i, f1.num_bits as u64);
        assert(bit_set(f1.bits@, idx));
        assert(idx < f1.num_bits) by (nonlinear_arith)
            requires
                idx == bit_index_spec(key, i, f1.num_bits as u64),
                f1.num_bits >= 1,
        {}
    }
}

} // verus!
