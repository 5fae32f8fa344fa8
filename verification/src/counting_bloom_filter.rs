//! The counting Bloom filter.
//!
//! The same multi-hash scheme as the standard filter, but each position
//! holds a bounded counter instead of a bit, which makes removal possible:
//! inserting increments the `k` indexed counters, removing decrements them
//! (never below zero), and a query answers true only while all `k` indexed
//! counters are positive.
//!
//! Known limitation, inherent to the design: when another still-present
//! item shares an indexed slot with a removed item (a hash collision),
//! removal can drive the shared counter to zero and a later query for the
//! still-present item answers false.  The absence-of-false-negatives
//! guarantee of the standard filter therefore holds here only for items
//! whose slots are not shared; `lemma_counting_add_remove` states the
//! collision-free case exactly.

use vstd::prelude::*;
use crate::canonical::{canonical_bytes, spec_canonical_bytes, Value};
use crate::counting_array::{spec_floor_dec, spec_saturating_inc, CountingArray};
use crate::indexer::{index_for, lemma_seed_index_in_range, spec_seed_index};
use crate::snapshot::{
    lemma_counters_bytes_snoc, lemma_counting_snapshot_round_trip, push_u64_le, read_u32_le,
    read_u64_le, spec_counters_bytes, spec_counters_of_bytes, spec_counting_snapshot,
    spec_parse_counting_snapshot,
};
use crate::FilterError;
use vstd::bytes::{spec_u32_from_le_bytes, spec_u64_to_le_bytes, u32_to_le_bytes};

verus! {

/// How many of the `k` seeds map `bytes` to slot `j` of an array of `m`
/// counters.
pub open spec fn spec_hit_count(bytes: Seq<u8>, k: int, m: int, j: int) -> nat
    decreases k,
{
    if k <= 0 {
        0
    } else {
        spec_hit_count(bytes, k - 1, m, j) + if spec_seed_index(bytes, k - 1, m) == j {
            1nat
        } else {
            0nat
        }
    }
}

/// The counters after inserting `bytes`: seed by seed, the indexed slot is
/// incremented, saturating at the counter maximum.
pub open spec fn spec_add_counters(counters: Seq<u32>, bytes: Seq<u8>, k: int) -> Seq<u32>
    decreases k,
{
    if k <= 0 {
        counters
    } else {
        let prev = spec_add_counters(counters, bytes, k - 1);
        let j = spec_seed_index(bytes, k - 1, counters.len() as int);
        prev.update(j, spec_saturating_inc(prev[j]))
    }
}

/// The counters after removing `bytes`: seed by seed, the indexed slot is
/// decremented, never below zero.
pub open spec fn spec_remove_counters(counters: Seq<u32>, bytes: Seq<u8>, k: int) -> Seq<u32>
    decreases k,
{
    if k <= 0 {
        counters
    } else {
        let prev = spec_remove_counters(counters, bytes, k - 1);
        let j = spec_seed_index(bytes, k - 1, counters.len() as int);
        prev.update(j, spec_floor_dec(prev[j]))
    }
}

/// The query answer for `bytes`: true exactly when every indexed counter is
/// positive.
pub open spec fn spec_counting_query(counters: Seq<u32>, bytes: Seq<u8>, k: int) -> bool {
    forall|i: int|
        0 <= i < k ==> counters[#[trigger] spec_seed_index(bytes, i, counters.len() as int)] > 0
}

/// At most `k` seeds hit any one slot.
proof fn lemma_hit_count_le(bytes: Seq<u8>, k: int, m: int, j: int)
    requires
        0 <= k,
    ensures
        spec_hit_count(bytes, k, m, j) <= k,
    decreases k,
{
    if k > 0 {
        lemma_hit_count_le(bytes, k - 1, m, j);
    }
}

/// Insertion, slot by slot: each counter grows by its hit count, as long as
/// that stays under the counter maximum.
proof fn lemma_add_pointwise(counters: Seq<u32>, bytes: Seq<u8>, k: int, j: int)
    requires
        0 <= k,
        0 <= j < counters.len(),
        counters[j] + spec_hit_count(bytes, k, counters.len() as int, j) <= u32::MAX,
    ensures
        spec_add_counters(counters, bytes, k).len() == counters.len(),
        spec_add_counters(counters, bytes, k)[j] == counters[j] + spec_hit_count(
            bytes,
            k,
            counters.len() as int,
            j,
        ),
    decreases k,
{
    if k > 0 {
        lemma_add_pointwise(counters, bytes, k - 1, j);
        lemma_seed_index_in_range(bytes, k - 1, counters.len() as int);
    }
}

/// The length of the counter array is unchanged by insertion.
proof fn lemma_add_len(counters: Seq<u32>, bytes: Seq<u8>, k: int)
    requires
        0 <= k,
        1 <= counters.len(),
    ensures
        spec_add_counters(counters, bytes, k).len() == counters.len(),
    decreases k,
{
    if k > 0 {
        lemma_add_len(counters, bytes, k - 1);
        lemma_seed_index_in_range(bytes, k - 1, counters.len() as int);
    }
}

/// Removal, slot by slot: each counter shrinks by its hit count, floored
/// at zero.
proof fn lemma_remove_pointwise(counters: Seq<u32>, bytes: Seq<u8>, k: int, j: int)
    requires
        0 <= k,
        0 <= j < counters.len(),
    ensures
        spec_remove_counters(counters, bytes, k).len() == counters.len(),
        spec_remove_counters(counters, bytes, k)[j] == if counters[j] >= spec_hit_count(
            bytes,
            k,
            counters.len() as int,
            j,
        ) {
            counters[j] - spec_hit_count(bytes, k, counters.len() as int, j)
        } else {
            0
        },
    decreases k,
{
    if k > 0 {
        lemma_remove_pointwise(counters, bytes, k - 1, j);
        lemma_seed_index_in_range(bytes, k - 1, counters.len() as int);
    }
}

/// Every slot of an inserted item is positive afterward: a query for a
/// value answers true right after it is inserted, whatever the counters
/// held before.
pub proof fn lemma_counting_no_false_negative(counters: Seq<u32>, bytes: Seq<u8>, k: int)
    requires
        1 <= counters.len(),
    ensures
        spec_counting_query(spec_add_counters(counters, bytes, k), bytes, k),
{
    let m = counters.len() as int;
    if k > 0 {
        lemma_add_len(counters, bytes, k);
        assert forall|i: int|
            0 <= i < k implies spec_add_counters(counters, bytes, k)[#[trigger] spec_seed_index(
            bytes,
            i,
            m,
        )] > 0 by {
            lemma_add_slot_positive(counters, bytes, k, i);
        }
    }
}

/// After inserting `bytes`, the slot of each of its seeds is positive.
proof fn lemma_add_slot_positive(counters: Seq<u32>, bytes: Seq<u8>, k: int, i: int)
    requires
        1 <= counters.len(),
        0 <= i < k,
    ensures
        spec_add_counters(counters, bytes, k)[spec_seed_index(
            bytes,
            i,
            counters.len() as int,
        )] > 0,
    decreases k,
{
    let m = counters.len() as int;
    let prev = spec_add_counters(counters, bytes, k - 1);
    let jlast = spec_seed_index(bytes, k - 1, m);
    lemma_add_len(counters, bytes, (k - 1) as int);
    lemma_seed_index_in_range(bytes, k - 1, m);
    lemma_seed_index_in_range(bytes, i, m);
    if i == k - 1 {
        // the last step increments this very slot, saturating above zero
    } else {
        lemma_add_slot_positive(counters, bytes, k - 1, i);
        // the last step only grows the slot it touches
    }
}

/// Add then remove, with no co-resident item: when an item's `k` slots are
/// all zero — nothing else occupies any of them — inserting it and then
/// removing it restores every counter, and a query for it answers false
/// again.
pub proof fn lemma_counting_add_remove(counters: Seq<u32>, bytes: Seq<u8>, k: int)
    requires
        1 <= counters.len(),
        1 <= k <= u32::MAX,
        forall|i: int|
            0 <= i < k ==> counters[#[trigger] spec_seed_index(
                bytes,
                i,
                counters.len() as int,
            )] == 0,
    ensures
        spec_remove_counters(spec_add_counters(counters, bytes, k), bytes, k) == counters,
        !spec_counting_query(
            spec_remove_counters(spec_add_counters(counters, bytes, k), bytes, k),
            bytes,
            k,
        ),
{
    let m = counters.len() as int;
    let added = spec_add_counters(counters, bytes, k);
    let restored = spec_remove_counters(added, bytes, k);
    lemma_add_len(counters, bytes, k);
    lemma_remove_pointwise(added, bytes, k, 0);
    assert(restored.len() == counters.len());
    assert forall|j: int| 0 <= j < m implies restored[j] == counters[j] by {
        let hc = spec_hit_count(bytes, k, m, j);
        lemma_hit_count_le(bytes, k, m, j);
        if hc > 0 {
            // some seed hits j, so counters[j] == 0 by the precondition
            lemma_hit_witness(bytes, k, m, j);
        }
        lemma_add_pointwise(counters, bytes, k, j);
        lemma_remove_pointwise(added, bytes, k, j);
    }
    assert(restored =~= counters);
    // the first seed's slot is zero again, so the query answers false
    let j0 = spec_seed_index(bytes, 0, m);
    lemma_seed_index_in_range(bytes, 0, m);
    assert(restored[j0] == 0);
}

/// A slot with a positive hit count is the slot of one of the seeds.
proof fn lemma_hit_witness(bytes: Seq<u8>, k: int, m: int, j: int)
    requires
        spec_hit_count(bytes, k, m, j) > 0,
    ensures
        exists|i: int| 0 <= i < k && #[trigger] spec_seed_index(bytes, i, m) == j,
    decreases k,
{
    if k > 0 {
        if spec_seed_index(bytes, k - 1, m) == j {
            assert(0 <= k - 1 < k && spec_seed_index(bytes, k - 1, m) == j);
        } else {
            lemma_hit_witness(bytes, k - 1, m, j);
        }
    }
}

/// A counting Bloom filter: `m` bounded counters and `k` hash seeds.
pub struct CountingBloomFilter {
    filter: CountingArray,
    hash_functions: u32,
}

impl CountingBloomFilter {
    /// The counters.
    pub closed spec fn spec_counters(&self) -> Seq<u32> {
        self.filter@
    }

    /// The number of hash seeds.
    pub closed spec fn spec_hash_count(&self) -> int {
        self.hash_functions as int
    }

    /// A structurally sound filter: at least one counter and at least one
    /// hash seed.
    pub closed spec fn wf(&self) -> bool {
        &&& 1 <= self.filter@.len()
        &&& 1 <= self.hash_functions
    }

    /// A fresh filter with `size` counters, all zero, using
    /// `hash_functions` hash seeds.
    pub fn new(size: usize, hash_functions: u32) -> (r: CountingBloomFilter)
        requires
            1 <= size,
            1 <= hash_functions,
        ensures
            r.wf(),
            r.spec_counters().len() == size,
            forall|j: int| 0 <= j < size ==> r.spec_counters()[j] == 0u32,
            r.spec_hash_count() == hash_functions,
    {
        CountingBloomFilter { filter: CountingArray::new(size), hash_functions }
    }

    /// The slot that seed number `i` maps `hash_bytes` to, always within
    /// the counter array.
    pub fn get_index(&self, hash_bytes: &[u8], i: u32) -> (r: usize)
        requires
            self.wf(),
        ensures
            r == spec_seed_index(hash_bytes@, i as int, self.spec_counters().len() as int),
            r < self.spec_counters().len(),
    {
        index_for(hash_bytes, i, self.filter.len())
    }

    /// Inserts a byte buffer: increments each of the `k` indexed counters,
    /// saturating at the counter maximum.
    pub fn add_bytes(&mut self, hash_bytes: &[u8])
        requires
            old(self).wf(),
        ensures
            final(self).wf(),
            final(self).spec_counters() == spec_add_counters(
                old(self).spec_counters(),
                hash_bytes@,
                old(self).spec_hash_count(),
            ),
            final(self).spec_hash_count() == old(self).spec_hash_count(),
    {
        let ghost c0 = self.spec_counters();
        let k = self.hash_functions;
        let mut i: u32 = 0;
        while i < k
            invariant
                self.wf(),
                i <= k,
                k == self.hash_functions,
                self.filter@.len() == c0.len(),
                self.filter@ == spec_add_counters(c0, hash_bytes@, i as int),
            decreases k - i,
        {
            let idx = self.get_index(hash_bytes, i);
            self.filter.increment(idx);
            i = i + 1;
        }
    }

    /// Inserts a typed value: its canonical bytes are inserted.
    pub fn add(&mut self, item: &Value)
        requires
            old(self).wf(),
        ensures
            final(self).wf(),
            final(self).spec_counters() == spec_add_counters(
                old(self).spec_counters(),
                spec_canonical_bytes(*item),
                old(self).spec_hash_count(),
            ),
            final(self).spec_hash_count() == old(self).spec_hash_count(),
    {
        let bytes = canonical_bytes(item);
        self.add_bytes(bytes.as_slice());
    }

    /// Queries a byte buffer: true exactly when every indexed counter is
    /// positive.
    pub fn contains_bytes(&self, hash_bytes: &[u8]) -> (r: bool)
        requires
            self.wf(),
        ensures
            r == spec_counting_query(self.spec_counters(), hash_bytes@, self.spec_hash_count()),
    {
        let k = self.hash_functions;
        let mut i: u32 = 0;
        while i < k
            invariant
                self.wf(),
                i <= k,
                k == self.hash_functions,
                forall|i2: int|
                    0 <= i2 < i ==> self.spec_counters()[#[trigger] spec_seed_index(
                        hash_bytes@,
                        i2,
                        self.spec_counters().len() as int,
                    )] > 0,
            decreases k - i,
        {
            let idx = self.get_index(hash_bytes, i);
            if self.filter.get(idx) == 0 {
                return false;
            }
            i = i + 1;
        }
        true
    }

    /// Queries a typed value: its canonical bytes are queried.
    pub fn contains(&self, item: &Value) -> (r: bool)
        requires
            self.wf(),
        ensures
            r == spec_counting_query(
                self.spec_counters(),
                spec_canonical_bytes(*item),
                self.spec_hash_count(),
            ),
    {
        let bytes = canonical_bytes(item);
        self.contains_bytes(bytes.as_slice())
    }

    /// Removes a byte buffer: decrements each of the `k` indexed counters,
    /// never below zero.  See the module note on collision-induced false
    /// negatives.
    pub fn remove_bytes(&mut self, hash_bytes: &[u8])
        requires
            old(self).wf(),
        ensures
            final(self).wf(),
            final(self).spec_counters() == spec_remove_counters(
                old(self).spec_counters(),
                hash_bytes@,
                old(self).spec_hash_count(),
            ),
            final(self).spec_hash_count() == old(self).spec_hash_count(),
    {
        let ghost c0 = self.spec_counters();
        let k = self.hash_functions;
        let mut i: u32 = 0;
        while i < k
            invariant
                self.wf(),
                i <= k,
                k == self.hash_functions,
                self.filter@.len() == c0.len(),
                self.filter@ == spec_remove_counters(c0, hash_bytes@, i as int),
            decreases k - i,
        {
            let idx = self.get_index(hash_bytes, i);
            self.filter.decrement(idx);
            i = i + 1;
        }
    }

    /// Removes a typed value: its canonical bytes are removed.
    pub fn remove(&mut self, item: &Value)
        requires
            old(self).wf(),
        ensures
            final(self).wf(),
            final(self).spec_counters() == spec_remove_counters(
                old(self).spec_counters(),
                spec_canonical_bytes(*item),
                old(self).spec_hash_count(),
            ),
            final(self).spec_hash_count() == old(self).spec_hash_count(),
    {
        let bytes = canonical_bytes(item);
        self.remove_bytes(bytes.as_slice());
    }

    /// The filter's full state as a snapshot byte buffer: hash count, then
    /// each counter as four little-endian bytes.
    pub fn serialize(&self) -> (r: Vec<u8>)
        requires
            self.wf(),
        ensures
            r@ == spec_counting_snapshot(self.spec_hash_count(), self.spec_counters()),
    {
        let mut out: Vec<u8> = Vec::new();
        push_u64_le(&mut out, self.hash_functions as u64);
        let len = self.filter.len();
        proof {
            assert(self.spec_counters().take(0) =~= Seq::<u32>::empty());
            assert(out@ =~= spec_u64_to_le_bytes((self.spec_hash_count()) as u64)
                + spec_counters_bytes(self.spec_counters().take(0)));
        }
        let mut i: usize = 0;
        while i < len
            invariant
                self.wf(),
                i <= len,
                len == self.spec_counters().len(),
                out@ == spec_u64_to_le_bytes((self.spec_hash_count()) as u64)
                    + spec_counters_bytes(self.spec_counters().take(i as int)),
            decreases len - i,
        {
            let c = self.filter.get(i);
            let mut b = u32_to_le_bytes(c);
            out.append(&mut b);
            proof {
                lemma_counters_bytes_snoc(self.spec_counters().take(i as int), c);
                assert(self.spec_counters().take(i + 1) =~= self.spec_counters().take(
                    i as int,
                ).push(c));
                assert(out@ =~= spec_u64_to_le_bytes((self.spec_hash_count()) as u64)
                    + spec_counters_bytes(self.spec_counters().take(i + 1)));
            }
            i = i + 1;
        }
        proof {
            assert(self.spec_counters().take(len as int) =~= self.spec_counters());
        }
        out
    }

    /// Rebuilds a counting filter from a snapshot buffer: the counter count
    /// is the payload length in whole four-byte slots, and the hash count
    /// comes from the snapshot.  Fails with `DeserializationError` exactly
    /// when the buffer parses to nothing, and then no filter is produced.
    pub fn deserialize(snapshot: &[u8]) -> (r: Result<CountingBloomFilter, FilterError>)
        ensures
            match r {
                Ok(f) => {
                    &&& f.wf()
                    &&& spec_parse_counting_snapshot(snapshot@) == Some(
                        (f.spec_hash_count(), f.spec_counters()),
                    )
                },
                Err(e) => e == FilterError::DeserializationError
                    && spec_parse_counting_snapshot(snapshot@) is None,
            },
    {
        let total = snapshot.len();
        if total < 12 {
            return Err(FilterError::DeserializationError);
        }
        let k64 = read_u64_le(snapshot, 0);
        if k64 == 0 || k64 > u32::MAX as u64 {
            return Err(FilterError::DeserializationError);
        }
        let body_len = total - 8;
        if body_len % 4 != 0 {
            return Err(FilterError::DeserializationError);
        }
        let cnt = body_len / 4;
        proof {
            vstd::arithmetic::div_mod::lemma_fundamental_div_mod(body_len as int, 4);
        }
        let mut counters: Vec<u32> = Vec::new();
        let mut i: usize = 0;
        while i < cnt
            invariant
                total == snapshot@.len(),
                12 <= total,
                body_len == total - 8,
                cnt * 4 == body_len,
                i <= cnt,
                counters@.len() == i,
                forall|j: int|
                    0 <= j < i ==> counters@[j] == spec_u32_from_le_bytes(
                        #[trigger] snapshot@.subrange(8 + 4 * j, 8 + 4 * j + 4),
                    ),
            decreases cnt - i,
        {
            let c = read_u32_le(snapshot, 8 + 4 * i);
            counters.push(c);
            i = i + 1;
        }
        proof {
            let body = snapshot@.subrange(8, snapshot@.len() as int);
            assert forall|j: int| 0 <= j < cnt implies #[trigger] body.subrange(4 * j, 4 * j + 4)
                =~= snapshot@.subrange(8 + 4 * j, 8 + 4 * j + 4) by {}
            assert(counters@ =~= spec_counters_of_bytes(body));
        }
        Ok(
            CountingBloomFilter {
                filter: CountingArray::from_counts(counters),
                hash_functions: k64 as u32,
            },
        )
    }

    /// The number of counters.
    pub fn get_size(&self) -> (r: usize)
        ensures
            r == self.spec_counters().len(),
    {
        self.filter.len()
    }

    /// The number of hash seeds.
    pub fn get_hash_count(&self) -> (r: u32)
        ensures
            r == self.spec_hash_count(),
    {
        self.hash_functions
    }
}

/// Round-trip: a well-formed counting filter's snapshot parses back to
/// exactly its own hash count and counters, so a filter rebuilt from it
/// answers every query as the original does.
pub proof fn lemma_counting_round_trip(f: &CountingBloomFilter)
    requires
        f.wf(),
    ensures
        spec_parse_counting_snapshot(
            spec_counting_snapshot(f.spec_hash_count(), f.spec_counters()),
        ) == Some((f.spec_hash_count(), f.spec_counters())),
{
    lemma_counting_snapshot_round_trip(f.spec_hash_count(), f.spec_counters());
}

} // verus!
