//! The multi-hash indexer.
//!
//! One well-distributed 32-bit hash, parameterized by an integer seed, maps
//! a byte buffer to `k` array indices: seed `i` in `0..k` gives index
//! `hash(buffer, i) mod m`.  The seed sequence is fixed, never random, so
//! the same buffer always maps to the same indices, in this process and in
//! any later one — which is what lets a snapshot be restored and queried.

use std::io::Cursor;
use vstd::prelude::*;

verus! {

/// What `murmur3::murmur3_32` returns for a byte buffer and a seed.
pub uninterp spec fn murmur3_32_of(bytes: Seq<u8>, seed: u32) -> u32;

/// Relies on `murmur3::murmur3_32`: the 32-bit murmur3 hash of the buffer
/// under the seed, a deterministic function of the two alone.  The crate
/// reads the buffer through an in-memory cursor, which cannot fail, so the
/// call always returns a value.
#[verifier::external_body]
fn murmur3_32(bytes: &[u8], seed: u32) -> (r: u32)
    ensures
        r == murmur3_32_of(bytes@, seed),
{
    let mut reader = Cursor::new(bytes);
    murmur3::murmur3_32(&mut reader, seed).unwrap()
}

/// The index for one seed: the seeded hash of the buffer, reduced modulo
/// the array length.
pub open spec fn spec_index_of(bytes: Seq<u8>, seed: u32, m: int) -> int
    recommends
        1 <= m,
{
    (murmur3_32_of(bytes, seed) as int) % m
}

/// The index for seed number `i` of the fixed seed sequence `0..k`.
pub open spec fn spec_seed_index(bytes: Seq<u8>, i: int, m: int) -> int
    recommends
        0 <= i < 0x1_0000_0000,
        1 <= m,
{
    spec_index_of(bytes, i as u32, m)
}

/// The index of a seed is always a position of the array.
pub proof fn lemma_seed_index_in_range(bytes: Seq<u8>, i: int, m: int)
    requires
        1 <= m,
    ensures
        0 <= spec_seed_index(bytes, i, m) < m,
{
    vstd::arithmetic::div_mod::lemma_mod_division_less_than_divisor(
        murmur3_32_of(bytes, i as u32) as int,
        m,
    );
}

/// The array index for `bytes` under `seed`, always in `[0, m)`.
pub fn index_for(bytes: &[u8], seed: u32, m: usize) -> (r: usize)
    requires
        1 <= m,
    ensures
        r == spec_index_of(bytes@, seed, m as int),
        r < m,
{
    let h = murmur3_32(bytes, seed);
    (h as usize) % m
}

} // verus!
