//! The standard Bloom filter.
//!
//! A fixed array of `m` bits and a fixed count `k` of hash seeds.  Inserting
//! a byte buffer sets the `k` indexed bits; querying reads them and answers
//! "possibly present" only when all are set.  A query can return true for a
//! buffer never inserted (a false positive, bounded in expectation by the
//! estimator), but never false for one inserted since the last clear: bits
//! are only ever set, never unset, until `clear` resets them all.

use vstd::prelude::*;
use crate::bit_array::BitArray;
use crate::canonical::{canonical_bytes, spec_canonical_bytes, Value};
use crate::indexer::{index_for, lemma_seed_index_in_range, spec_seed_index};
use crate::params;
use crate::params::{spec_estimate_ppb, spec_optimal_bits, spec_optimal_hashes};
use crate::bit_array::spec_bit_at;
use crate::snapshot::{
    lemma_bits_snapshot_round_trip, push_u64_le, read_u64_le, spec_bits_snapshot,
    spec_parse_bits_snapshot,
};
use vstd::slice::{slice_subrange, slice_to_vec};
use crate::FilterError;

verus! {

/// Some seed below `k` maps `bytes` to position `j` of an array of `m` bits.
pub open spec fn spec_hits(bytes: Seq<u8>, k: int, m: int, j: int) -> bool
    decreases k,
{
    if k <= 0 {
        false
    } else {
        spec_hits(bytes, k - 1, m, j) || spec_seed_index(bytes, k - 1, m) == j
    }
}

/// The bits after inserting `bytes` with `k` seeds: every indexed position
/// set, every other position unchanged.
pub open spec fn spec_insert_bits(bits: Seq<bool>, bytes: Seq<u8>, k: int) -> Seq<bool> {
    Seq::new(bits.len(), |j: int| bits[j] || spec_hits(bytes, k, bits.len() as int, j))
}

/// The query answer for `bytes` on `bits` with `k` seeds: true exactly when
/// every indexed bit is set.
pub open spec fn spec_query(bits: Seq<bool>, bytes: Seq<u8>, k: int) -> bool {
    forall|i: int|
        0 <= i < k ==> bits[#[trigger] spec_seed_index(bytes, i, bits.len() as int)]
}

/// The bits after inserting each value of `items` in order.
pub open spec fn spec_insert_all(bits: Seq<bool>, items: Seq<Value>, k: int) -> Seq<bool>
    decreases items.len(),
{
    if items.len() == 0 {
        bits
    } else {
        spec_insert_all(
            spec_insert_bits(bits, spec_canonical_bytes(items[0]), k),
            items.drop_first(),
            k,
        )
    }
}

/// The position seed `i` maps to is among the positions `k > i` seeds hit.
proof fn lemma_hits_at(bytes: Seq<u8>, k: int, m: int, i: int)
    requires
        0 <= i < k,
    ensures
        spec_hits(bytes, k, m, spec_seed_index(bytes, i, m)),
    decreases k,
{
    if i < k - 1 {
        lemma_hits_at(bytes, k - 1, m, i);
    }
}

/// No false negatives: after `bytes` is inserted, a query for the same
/// bytes answers true, whatever the bits held before.
pub proof fn lemma_no_false_negatives(bits: Seq<bool>, bytes: Seq<u8>, k: int)
    requires
        1 <= bits.len(),
    ensures
        spec_query(spec_insert_bits(bits, bytes, k), bytes, k),
{
    let m = bits.len() as int;
    let inserted = spec_insert_bits(bits, bytes, k);
    assert forall|i: int| 0 <= i < k implies inserted[#[trigger] spec_seed_index(
        bytes,
        i,
        inserted.len() as int,
    )] by {
        lemma_hits_at(bytes, k, m, i);
        lemma_seed_index_in_range(bytes, i, m);
    }
}

/// Monotonic bits: an insertion never unsets a bit, so it can only extend
/// the set of buffers a query answers true for.
pub proof fn lemma_insert_monotonic(bits: Seq<bool>, bytes: Seq<u8>, k: int)
    ensures
        spec_insert_bits(bits, bytes, k).len() == bits.len(),
        forall|j: int| 0 <= j < bits.len() && bits[j] ==> spec_insert_bits(bits, bytes, k)[j],
{
}

/// Insertion is idempotent: inserting the same bytes twice leaves exactly
/// the bits one insertion leaves.
pub proof fn lemma_insert_idempotent(bits: Seq<bool>, bytes: Seq<u8>, k: int)
    ensures
        spec_insert_bits(spec_insert_bits(bits, bytes, k), bytes, k) == spec_insert_bits(
            bits,
            bytes,
            k,
        ),
{
    let once = spec_insert_bits(bits, bytes, k);
    assert(spec_insert_bits(once, bytes, k) =~= once);
}

/// A batch of insertions never unsets a bit either.
pub proof fn lemma_insert_all_monotonic(bits: Seq<bool>, items: Seq<Value>, k: int)
    ensures
        spec_insert_all(bits, items, k).len() == bits.len(),
        forall|j: int| 0 <= j < bits.len() && bits[j] ==> spec_insert_all(bits, items, k)[j],
    decreases items.len(),
{
    if items.len() > 0 {
        let once = spec_insert_bits(bits, spec_canonical_bytes(items[0]), k);
        lemma_insert_monotonic(bits, spec_canonical_bytes(items[0]), k);
        lemma_insert_all_monotonic(once, items.drop_first(), k);
    }
}

/// No false negatives, through any later insertions: after `bytes` is
/// inserted, a query for the same bytes answers true even after a whole
/// batch of other values has been inserted — only `clear` can make it
/// answer false again.
pub proof fn lemma_no_false_negatives_through_batch(
    bits: Seq<bool>,
    bytes: Seq<u8>,
    items: Seq<Value>,
    k: int,
)
    requires
        1 <= bits.len(),
    ensures
        spec_query(
            spec_insert_all(spec_insert_bits(bits, bytes, k), items, k),
            bytes,
            k,
        ),
{
    let once = spec_insert_bits(bits, bytes, k);
    lemma_no_false_negatives(bits, bytes, k);
    lemma_insert_all_monotonic(once, items, k);
    lemma_query_monotonic(once, spec_insert_all(once, items, k), bytes, k);
}

/// A query that answers true keeps answering true on any array whose set
/// bits are a superset, position by position.
pub proof fn lemma_query_monotonic(bits1: Seq<bool>, bits2: Seq<bool>, bytes: Seq<u8>, k: int)
    requires
        bits1.len() == bits2.len(),
        1 <= bits1.len(),
        forall|j: int| 0 <= j < bits1.len() && bits1[j] ==> bits2[j],
        spec_query(bits1, bytes, k),
    ensures
        spec_query(bits2, bytes, k),
{
    assert forall|i: int| 0 <= i < k implies bits2[#[trigger] spec_seed_index(
        bytes,
        i,
        bits2.len() as int,
    )] by {
        let j = spec_seed_index(bytes, i, bits1.len() as int);
        lemma_seed_index_in_range(bytes, i, bits1.len() as int);
        assert(bits1[j]);
    }
}

/// Clear equivalence: on an array with every bit false — a cleared filter
/// or a freshly constructed one — every query answers false.
pub proof fn lemma_empty_query_false(bits: Seq<bool>, bytes: Seq<u8>, k: int)
    requires
        1 <= k,
        1 <= bits.len(),
        forall|j: int| 0 <= j < bits.len() ==> !bits[j],
    ensures
        !spec_query(bits, bytes, k),
{
    let j = spec_seed_index(bytes, 0, bits.len() as int);
    lemma_seed_index_in_range(bytes, 0, bits.len() as int);
    assert(!bits[j]);
}

/// A standard Bloom filter: `m` bits, `k` hash seeds, and the expected item
/// count it was sized for.
pub struct BloomFilterRS {
    bit_array: BitArray,
    count_of_hashes: usize,
    expected_n_items: usize,
}

impl BloomFilterRS {
    /// The bit flags.
    pub closed spec fn spec_bits(&self) -> Seq<bool> {
        self.bit_array@
    }

    /// The number of hash seeds.
    pub closed spec fn spec_hash_count(&self) -> int {
        self.count_of_hashes as int
    }

    /// The expected item count given at construction.
    pub closed spec fn spec_expected_items(&self) -> int {
        self.expected_n_items as int
    }

    /// The packed byte form of the bits: the snapshot payload.
    pub closed spec fn spec_payload(&self) -> Seq<u8> {
        self.bit_array.spec_bytes()
    }

    /// A structurally sound filter: a consistent bit array, at least one
    /// bit, and a hash seed count and expected item count in the supported
    /// range.
    pub closed spec fn wf(&self) -> bool {
        &&& self.bit_array.wf()
        &&& 1 <= self.bit_array@.len()
        &&& 1 <= self.count_of_hashes <= 0x1_0000_0000
        &&& 1 <= self.expected_n_items <= 0x1_0000_0000
    }

    /// Builds a filter for `expected_number_of_items` items at target
    /// false-positive rate `rate_num / rate_den`: the bit count comes from
    /// `calc_optimal_number_of_bits`, the seed count from
    /// `calculate_optimal_number_of_hashes`, and every bit starts false.
    ///
    /// Fails with `InvalidParameter` exactly when the expected count is
    /// zero or the rate is outside (0, 1).
    pub fn new(expected_number_of_items: usize, rate_num: u64, rate_den: u64) -> (r: Result<
        BloomFilterRS,
        FilterError,
    >)
        requires
            expected_number_of_items <= params::MAX_EXPECTED_ITEMS,
            rate_den <= params::MAX_RATE_DENOMINATOR,
        ensures
            match r {
                Ok(f) => {
                    let n = expected_number_of_items as int;
                    let m = spec_optimal_bits(n, rate_num as int, rate_den as int);
                    &&& 1 <= expected_number_of_items
                    &&& 1 <= rate_num < rate_den
                    &&& f.wf()
                    &&& f.spec_bits().len() == m
                    &&& 1 <= m <= 0x4000_0000
                    &&& f.spec_hash_count() == spec_optimal_hashes(m, n)
                    &&& 1 <= f.spec_hash_count()
                    &&& f.spec_expected_items() == n
                    &&& forall|j: int| 0 <= j < f.spec_bits().len() ==> !f.spec_bits()[j]
                },
                Err(e) => e == FilterError::InvalidParameter && (expected_number_of_items == 0
                    || rate_num == 0 || rate_num >= rate_den),
            },
    {
        let num_of_bits = match params::calc_optimal_number_of_bits(
            expected_number_of_items,
            rate_num,
            rate_den,
        ) {
            Ok(m) => m,
            Err(e) => {
                return Err(e);
            },
        };
        let num_of_hashes = match params::calculate_optimal_number_of_hashes(
            num_of_bits,
            expected_number_of_items,
        ) {
            Ok(k) => k,
            Err(e) => {
                return Err(e);
            },
        };
        Ok(
            BloomFilterRS {
                bit_array: BitArray::new(num_of_bits),
                count_of_hashes: num_of_hashes,
                expected_n_items: expected_number_of_items,
            },
        )
    }

    /// Inserts a byte buffer: sets the bit at each of the `k` indexed
    /// positions; every other bit, and the filter's parameters, are
    /// unchanged.  Inserting the same buffer twice changes nothing more.
    pub fn add_bytes(&mut self, hash_bytes: &[u8])
        requires
            old(self).wf(),
        ensures
            final(self).wf(),
            final(self).spec_bits() == spec_insert_bits(
                old(self).spec_bits(),
                hash_bytes@,
                old(self).spec_hash_count(),
            ),
            final(self).spec_hash_count() == old(self).spec_hash_count(),
            final(self).spec_expected_items() == old(self).spec_expected_items(),
    {
        let ghost bits0 = self.spec_bits();
        let ghost m = self.spec_bits().len() as int;
        let k = self.count_of_hashes;
        let len = self.bit_array.len();
        let mut i: usize = 0;
        while i < k
            invariant
                self.wf(),
                self.bit_array@.len() == bits0.len(),
                1 <= bits0.len(),
                i <= k,
                k == self.count_of_hashes,
                k <= 0x1_0000_0000,
                len == bits0.len(),
                m == bits0.len() as int,
                self.count_of_hashes == old(self).count_of_hashes,
                self.expected_n_items == old(self).expected_n_items,
                self.bit_array@ == spec_insert_bits(bits0, hash_bytes@, i as int),
            decreases k - i,
        {
            let idx = index_for(hash_bytes, i as u32, len);
            proof {
                assert(idx == spec_seed_index(hash_bytes@, i as int, m));
            }
            self.bit_array.set(idx);
            proof {
                let prev = spec_insert_bits(bits0, hash_bytes@, i as int);
                let next = spec_insert_bits(bits0, hash_bytes@, i + 1);
                assert forall|j: int| 0 <= j < m implies prev.update(idx as int, true)[j]
                    == next[j] by {
                    if j != idx {
                        assert(spec_hits(hash_bytes@, i + 1, m, j) == spec_hits(
                            hash_bytes@,
                            i as int,
                            m,
                            j,
                        ));
                    } else {
                        assert(spec_hits(hash_bytes@, i + 1, m, j));
                    }
                }
                assert(prev.update(idx as int, true) =~= next);
            }
            i = i + 1;
        }
    }

    /// Inserts a typed value: its canonical bytes are inserted.
    pub fn add(&mut self, item: &Value)
        requires
            old(self).wf(),
        ensures
            final(self).wf(),
            final(self).spec_bits() == spec_insert_bits(
                old(self).spec_bits(),
                spec_canonical_bytes(*item),
                old(self).spec_hash_count(),
            ),
            final(self).spec_hash_count() == old(self).spec_hash_count(),
            final(self).spec_expected_items() == old(self).spec_expected_items(),
    {
        let serialized_item = canonical_bytes(item);
        self.add_bytes(serialized_item.as_slice());
    }

    /// Inserts each value of a batch, in order.  There is no atomicity to
    /// speak of: the loop is just repeated insertion, and every value of
    /// the batch is inserted.
    pub fn add_bulk(&mut self, items: &Vec<Value>)
        requires
            old(self).wf(),
        ensures
            final(self).wf(),
            final(self).spec_bits() == spec_insert_all(
                old(self).spec_bits(),
                items@,
                old(self).spec_hash_count(),
            ),
            final(self).spec_hash_count() == old(self).spec_hash_count(),
            final(self).spec_expected_items() == old(self).spec_expected_items(),
    {
        let ghost bits0 = self.spec_bits();
        let ghost k = self.spec_hash_count();
        proof {
            assert(items@.skip(0) =~= items@);
        }
        let mut i: usize = 0;
        while i < items.len()
            invariant
                self.wf(),
                i <= items@.len(),
                k == self.spec_hash_count(),
                self.spec_expected_items() == old(self).spec_expected_items(),
                spec_insert_all(bits0, items@, k) == spec_insert_all(
                    self.spec_bits(),
                    items@.skip(i as int),
                    k,
                ),
            decreases items@.len() - i,
        {
            proof {
                let rest = items@.skip(i as int);
                assert(rest[0] == items@[i as int]);
                assert(rest.drop_first() =~= items@.skip(i + 1));
            }
            self.add(&items[i]);
            i = i + 1;
        }
        proof {
            assert(items@.skip(items@.len() as int).len() == 0);
        }
    }

    /// Queries a byte buffer: false the moment an indexed bit is unset —
    /// the buffer was definitely never inserted since the last clear; true
    /// only when all `k` indexed bits are set — the buffer is possibly
    /// present.
    pub fn contains_bytes(&self, hash_bytes: &[u8]) -> (r: bool)
        requires
            self.wf(),
        ensures
            r == spec_query(self.spec_bits(), hash_bytes@, self.spec_hash_count()),
    {
        let k = self.count_of_hashes;
        let len = self.bit_array.len();
        let ghost m = self.spec_bits().len() as int;
        let mut i: usize = 0;
        while i < k
            invariant
                self.wf(),
                i <= k,
                k == self.count_of_hashes,
                len == self.spec_bits().len(),
                m == self.spec_bits().len() as int,
                forall|i2: int|
                    0 <= i2 < i ==> self.spec_bits()[#[trigger] spec_seed_index(hash_bytes@, i2, m)],
            decreases k - i,
        {
            let idx = index_for(hash_bytes, i as u32, len);
            proof {
                assert(idx == spec_seed_index(hash_bytes@, i as int, m));
            }
            if !self.bit_array.get(idx) {
                return false;
            }
            i = i + 1;
        }
        true
    }

    /// Queries a typed value: its canonical bytes are queried.
    pub fn contains(&self, item: &Value) -> (r: bool)
        requires
            self.wf(),
        ensures
            r == spec_query(
                self.spec_bits(),
                spec_canonical_bytes(*item),
                self.spec_hash_count(),
            ),
    {
        let serialized_item = canonical_bytes(item);
        self.contains_bytes(serialized_item.as_slice())
    }

    /// Clears the filter: every bit becomes false again; the bit count,
    /// seed count and expected item count stay as constructed, so the
    /// filter behaves like a freshly built one with the same parameters.
    pub fn clear(&mut self)
        requires
            old(self).wf(),
        ensures
            final(self).wf(),
            final(self).spec_bits().len() == old(self).spec_bits().len(),
            forall|j: int| 0 <= j < final(self).spec_bits().len() ==> !final(self).spec_bits()[j],
            final(self).spec_hash_count() == old(self).spec_hash_count(),
            final(self).spec_expected_items() == old(self).spec_expected_items(),
    {
        self.bit_array.reset_all();
    }

    /// Estimates the filter's false-positive rate, `(1 - e^(-k*n/m))^k`,
    /// in parts per billion, from the fixed seed count `k`, bit count `m`
    /// and construction-time expected item count `n` — not from the number
    /// of items actually inserted so far.
    pub fn estimate_false_positive_rate(&self) -> (r: u64)
        requires
            self.wf(),
        ensures
            r == spec_estimate_ppb(
                self.spec_hash_count(),
                self.spec_bits().len() as int,
                self.spec_expected_items(),
            ),
            r <= 1_000_000_000,
    {
        params::estimate_false_positive_rate(
            self.count_of_hashes,
            self.bit_array.len(),
            self.expected_n_items,
        )
    }

    /// The filter's full state as a snapshot byte buffer: hash count,
    /// expected item count, bit count, then the packed bits.
    pub fn serialize(&self) -> (r: Vec<u8>)
        requires
            self.wf(),
        ensures
            r@ == spec_bits_snapshot(
                self.spec_hash_count(),
                self.spec_expected_items(),
                self.spec_bits().len() as int,
                self.spec_payload(),
            ),
    {
        let mut out: Vec<u8> = Vec::new();
        push_u64_le(&mut out, self.count_of_hashes as u64);
        push_u64_le(&mut out, self.expected_n_items as u64);
        push_u64_le(&mut out, self.bit_array.len() as u64);
        let mut payload = self.bit_array.to_byte_vec();
        out.append(&mut payload);
        proof {
            assert(out@ =~= spec_bits_snapshot(
                self.spec_hash_count(),
                self.spec_expected_items(),
                self.spec_bits().len() as int,
                self.spec_payload(),
            ));
        }
        out
    }

    /// Rebuilds a filter from a snapshot buffer.  The bit count is taken
    /// from the snapshot itself, never recomputed from the expected item
    /// count and a rate; the rebuilt filter's bits, hash count and expected
    /// item count are exactly what the snapshot holds.  Fails with
    /// `DeserializationError` exactly when the buffer parses to nothing —
    /// and then no filter, partial or otherwise, is produced.
    pub fn deserialize(snapshot: &[u8]) -> (r: Result<BloomFilterRS, FilterError>)
        ensures
            match r {
                Ok(f) => {
                    &&& f.wf()
                    &&& spec_parse_bits_snapshot(snapshot@) == Some(
                        (
                            f.spec_hash_count(),
                            f.spec_expected_items(),
                            f.spec_bits().len() as int,
                            f.spec_payload(),
                        ),
                    )
                    &&& f.spec_bits() == Seq::new(
                        f.spec_bits().len(),
                        |i: int| spec_bit_at(f.spec_payload(), i),
                    )
                },
                Err(e) => e == FilterError::DeserializationError && spec_parse_bits_snapshot(
                    snapshot@,
                ) is None,
            },
    {
        let total = snapshot.len();
        if total < 24 {
            return Err(FilterError::DeserializationError);
        }
        let k64 = read_u64_le(snapshot, 0);
        let n64 = read_u64_le(snapshot, 8);
        let m64 = read_u64_le(snapshot, 16);
        if k64 == 0 || k64 > 0x1_0000_0000u64 || k64 > usize::MAX as u64 {
            return Err(FilterError::DeserializationError);
        }
        if n64 == 0 || n64 > 0x1_0000_0000u64 || n64 > usize::MAX as u64 {
            return Err(FilterError::DeserializationError);
        }
        if m64 == 0 || m64 > (usize::MAX - 7) as u64 {
            return Err(FilterError::DeserializationError);
        }
        let payload_slice = slice_subrange(snapshot, 24, total);
        let payload = slice_to_vec(payload_slice);
        match BitArray::from_bytes(payload, m64 as usize) {
            Some(bit_array) => {
                proof {
                    bit_array.lemma_view_from_bytes();
                }
                Ok(
                    BloomFilterRS {
                        bit_array,
                        count_of_hashes: k64 as usize,
                        expected_n_items: n64 as usize,
                    },
                )
            },
            None => Err(FilterError::DeserializationError),
        }
    }

    /// The number of hash seeds this filter uses.
    pub fn get_hash_count(&self) -> (r: usize)
        ensures
            r == self.spec_hash_count(),
    {
        self.count_of_hashes
    }

    /// The filter's memory size: the number of bits.
    pub fn get_bit_count(&self) -> (r: usize)
        ensures
            r == self.spec_bits().len(),
    {
        self.bit_array.len()
    }
}

/// Round-trip: a well-formed filter's snapshot parses back to exactly its
/// own state — the same bits, hash count and expected item count — so a
/// filter rebuilt from the snapshot answers every query, and reports every
/// diagnostic, as the original does.
pub proof fn lemma_snapshot_round_trip(f: &BloomFilterRS)
    requires
        f.wf(),
    ensures
        spec_parse_bits_snapshot(
            spec_bits_snapshot(
                f.spec_hash_count(),
                f.spec_expected_items(),
                f.spec_bits().len() as int,
                f.spec_payload(),
            ),
        ) == Some(
            (
                f.spec_hash_count(),
                f.spec_expected_items(),
                f.spec_bits().len() as int,
                f.spec_payload(),
            ),
        ),
        f.spec_bits() == Seq::new(
            f.spec_bits().len(),
            |i: int| spec_bit_at(f.spec_payload(), i),
        ),
{
    f.bit_array.lemma_wf_len();
    f.bit_array.lemma_view_from_bytes();
    lemma_bits_snapshot_round_trip(
        f.spec_hash_count(),
        f.spec_expected_items(),
        f.spec_bits().len() as int,
        f.spec_payload(),
    );
}

} // verus!
