//! The snapshot codec's byte layout.
//!
//! A snapshot carries a filter's full state, so that an equivalent filter
//! can be rebuilt later or elsewhere: the hash seed count, the expected
//! item count, and the raw bit or counter storage.  On restore the bit
//! count is taken from the snapshot itself, never recomputed from the
//! expected item count and a rate — the payload is authoritative.
//!
//! Standard filter: `k` and `n` and the bit count `m`, each eight bytes
//! little-endian, then the packed bit payload of `ceil(m / 8)` bytes.
//! Counting filter: `k`, eight bytes little-endian, then each counter as
//! four little-endian bytes.  A buffer that does not fit these shapes —
//! too short, a field out of the supported range, a payload length that
//! disagrees with the bit count, a stray bit beyond `m` — parses to
//! nothing, and the filters' `deserialize` then fails without building
//! anything.

use vstd::bytes::{
    lemma_auto_spec_u32_to_from_le_bytes, lemma_auto_spec_u64_to_from_le_bytes,
    spec_u32_from_le_bytes, spec_u32_to_le_bytes, spec_u64_from_le_bytes, spec_u64_to_le_bytes,
    u32_from_le_bytes, u64_from_le_bytes, u64_to_le_bytes,
};
use vstd::prelude::*;
use vstd::slice::slice_subrange;
use crate::bit_array::packed_ok;

verus! {

/// The snapshot of a standard filter: hash count, expected item count, bit
/// count, then the packed bit payload.
pub open spec fn spec_bits_snapshot(k: int, n: int, m: int, payload: Seq<u8>) -> Seq<u8> {
    spec_u64_to_le_bytes(k as u64) + spec_u64_to_le_bytes(n as u64) + spec_u64_to_le_bytes(
        m as u64,
    ) + payload
}

/// What a byte buffer holds as a standard-filter snapshot: the hash count,
/// expected item count, bit count and payload — or nothing, when a field is
/// out of the supported range or the payload does not pack exactly the
/// declared number of bits.
pub open spec fn spec_parse_bits_snapshot(s: Seq<u8>) -> Option<(int, int, int, Seq<u8>)> {
    if s.len() < 24 {
        None
    } else {
        let k = spec_u64_from_le_bytes(s.subrange(0, 8)) as int;
        let n = spec_u64_from_le_bytes(s.subrange(8, 16)) as int;
        let m = spec_u64_from_le_bytes(s.subrange(16, 24)) as int;
        let payload = s.subrange(24, s.len() as int);
        if 1 <= k <= 0x1_0000_0000 && k <= usize::MAX && 1 <= n <= 0x1_0000_0000 && n
            <= usize::MAX && 1 <= m <= usize::MAX - 7 && packed_ok(payload, m as nat) {
            Some((k, n, m, payload))
        } else {
            None
        }
    }
}

/// Round-trip of the standard layout: the snapshot built from a filter
/// state parses back to exactly that state.
pub proof fn lemma_bits_snapshot_round_trip(k: int, n: int, m: int, payload: Seq<u8>)
    requires
        1 <= k <= 0x1_0000_0000,
        k <= usize::MAX,
        1 <= n <= 0x1_0000_0000,
        n <= usize::MAX,
        1 <= m <= usize::MAX - 7,
        packed_ok(payload, m as nat),
    ensures
        spec_parse_bits_snapshot(spec_bits_snapshot(k, n, m, payload)) == Some(
            (k, n, m, payload),
        ),
{
    lemma_auto_spec_u64_to_from_le_bytes();
    let s = spec_bits_snapshot(k, n, m, payload);
    assert(s.subrange(0, 8) =~= spec_u64_to_le_bytes(k as u64));
    assert(s.subrange(8, 16) =~= spec_u64_to_le_bytes(n as u64));
    assert(s.subrange(16, 24) =~= spec_u64_to_le_bytes(m as u64));
    assert(s.subrange(24, s.len() as int) =~= payload);
}

/// Each counter as four little-endian bytes, in slot order.
pub open spec fn spec_counters_bytes(counters: Seq<u32>) -> Seq<u8>
    decreases counters.len(),
{
    if counters.len() == 0 {
        Seq::empty()
    } else {
        spec_u32_to_le_bytes(counters[0]) + spec_counters_bytes(counters.drop_first())
    }
}

/// The counters a byte buffer of whole four-byte groups holds.
pub open spec fn spec_counters_of_bytes(s: Seq<u8>) -> Seq<u32> {
    Seq::new((s.len() / 4) as nat, |i: int| spec_u32_from_le_bytes(s.subrange(4 * i, 4 * i + 4)))
}

/// The counter byte form grows four bytes per slot.
pub proof fn lemma_counters_bytes_len(counters: Seq<u32>)
    ensures
        spec_counters_bytes(counters).len() == 4 * counters.len(),
    decreases counters.len(),
{
    lemma_auto_spec_u32_to_from_le_bytes();
    if counters.len() > 0 {
        lemma_counters_bytes_len(counters.drop_first());
    }
}

/// Appending one counter appends its four bytes.
pub proof fn lemma_counters_bytes_snoc(counters: Seq<u32>, x: u32)
    ensures
        spec_counters_bytes(counters.push(x)) == spec_counters_bytes(counters)
            + spec_u32_to_le_bytes(x),
    decreases counters.len(),
{
    if counters.len() == 0 {
        assert(counters.push(x)[0] == x);
        assert(counters.push(x).drop_first() =~= counters);
        assert(spec_counters_bytes(counters.push(x)) =~= spec_counters_bytes(counters)
            + spec_u32_to_le_bytes(x));
    } else {
        assert(counters.push(x)[0] == counters[0]);
        assert(counters.push(x).drop_first() =~= counters.drop_first().push(x));
        lemma_counters_bytes_snoc(counters.drop_first(), x);
        assert(spec_counters_bytes(counters.push(x)) =~= spec_counters_bytes(counters)
            + spec_u32_to_le_bytes(x));
    }
}

/// Round-trip of the counter byte form: decoding the encoding of any
/// counter sequence gives the sequence back.
pub proof fn lemma_counters_bytes_round_trip(counters: Seq<u32>)
    ensures
        spec_counters_of_bytes(spec_counters_bytes(counters)) == counters,
    decreases counters.len(),
{
    lemma_auto_spec_u32_to_from_le_bytes();
    lemma_counters_bytes_len(counters);
    let s = spec_counters_bytes(counters);
    if counters.len() == 0 {
        assert(spec_counters_of_bytes(s) =~= counters);
    } else {
        let rest = counters.drop_first();
        lemma_counters_bytes_round_trip(rest);
        lemma_counters_bytes_len(rest);
        let srest = spec_counters_bytes(rest);
        assert forall|i: int| 0 <= i < counters.len() implies spec_counters_of_bytes(s)[i]
            == counters[i] by {
            if i == 0 {
                assert(s.subrange(0, 4) =~= spec_u32_to_le_bytes(counters[0]));
            } else {
                assert(s.subrange(4 * i, 4 * i + 4) =~= srest.subrange(
                    4 * (i - 1),
                    4 * (i - 1) + 4,
                ));
                assert(spec_counters_of_bytes(srest)[i - 1] == rest[i - 1]);
            }
        }
        assert(spec_counters_of_bytes(s) =~= counters);
    }
}

/// The snapshot of a counting filter: hash count, then the counter bytes.
pub open spec fn spec_counting_snapshot(k: int, counters: Seq<u32>) -> Seq<u8> {
    spec_u64_to_le_bytes(k as u64) + spec_counters_bytes(counters)
}

/// What a byte buffer holds as a counting-filter snapshot — or nothing,
/// when the hash count is out of range or the counter bytes do not form
/// whole slots.
pub open spec fn spec_parse_counting_snapshot(s: Seq<u8>) -> Option<(int, Seq<u32>)> {
    if s.len() < 12 {
        None
    } else {
        let k = spec_u64_from_le_bytes(s.subrange(0, 8)) as int;
        let body = s.subrange(8, s.len() as int);
        if 1 <= k <= u32::MAX && body.len() % 4 == 0 {
            Some((k, spec_counters_of_bytes(body)))
        } else {
            None
        }
    }
}

/// Round-trip of the counting layout.
pub proof fn lemma_counting_snapshot_round_trip(k: int, counters: Seq<u32>)
    requires
        1 <= k <= u32::MAX,
        1 <= counters.len(),
    ensures
        spec_parse_counting_snapshot(spec_counting_snapshot(k, counters)) == Some(
            (k, counters),
        ),
{
    lemma_auto_spec_u64_to_from_le_bytes();
    lemma_counters_bytes_len(counters);
    lemma_counters_bytes_round_trip(counters);
    let s = spec_counting_snapshot(k, counters);
    assert(s.subrange(0, 8) =~= spec_u64_to_le_bytes(k as u64));
    assert(s.subrange(8, s.len() as int) =~= spec_counters_bytes(counters));
    vstd::arithmetic::div_mod::lemma_mod_multiples_basic(counters.len() as int, 4);
}

/// Appends the eight little-endian bytes of `x`.
pub(crate) fn push_u64_le(out: &mut Vec<u8>, x: u64)
    ensures
        final(out)@ == old(out)@ + spec_u64_to_le_bytes(x),
{
    let mut b = u64_to_le_bytes(x);
    out.append(&mut b);
}

/// Reads eight little-endian bytes at `offset`.
pub(crate) fn read_u64_le(s: &[u8], offset: usize) -> (r: u64)
    requires
        offset + 8 <= s@.len(),
    ensures
        r == spec_u64_from_le_bytes(s@.subrange(offset as int, offset as int + 8)),
{
    let total = s.len();
    let sub = slice_subrange(s, offset, offset + 8);
    u64_from_le_bytes(sub)
}

/// Reads four little-endian bytes at `offset`.
pub(crate) fn read_u32_le(s: &[u8], offset: usize) -> (r: u32)
    requires
        offset + 4 <= s@.len(),
    ensures
        r == spec_u32_from_le_bytes(s@.subrange(offset as int, offset as int + 4)),
{
    let total = s.len();
    let sub = slice_subrange(s, offset, offset + 4);
    u32_from_le_bytes(sub)
}

} // verus!
