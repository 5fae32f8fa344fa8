//! The value canonicalizer.
//!
//! A filter hashes bytes; a caller holds typed values.  `Value` models the
//! shapes a host environment can hand over, and `canonical_bytes` maps each
//! to a deterministic byte sequence, so that equal values always hash alike
//! and distinct values collide only with the hash family's own probability.
//!
//! The rules, in priority order:
//! 1. integral and boolean values: the fixed-width two's-complement (or 0/1)
//!    bit pattern, never a textual form, so `1` and `"1"` stay distinct;
//! 2. floating-point values: the IEEE-754 bit pattern, supplied by the host
//!    as a `u64`, never a decimal rendering;
//! 3. text and structured collections: the canonical textual rendering
//!    (order-insensitive containers must be rendered by the host with a
//!    stable key order);
//! 4. temporal values: the ISO-8601 rendering;
//! 5. opaque values: the host environment's own identity-hash integer,
//!    encoded as bytes — a last resort so no value is refused outright.
//!
//! The mapping is total and pure: same `Value`, same bytes, in every
//! process.  Callers that already hold bytes skip this component and use
//! the byte-level filter operations directly.

use vstd::bytes::{spec_u64_to_le_bytes, u64_to_le_bytes};
use vstd::prelude::*;
use vstd::string::StrSliceExecFns;
use vstd::utf8::encode_utf8;

verus! {

/// A typed value reduced to one of the canonicalizable shapes.
pub enum Value {
    /// An integral value.
    Int(i64),
    /// A boolean.
    Bool(bool),
    /// A floating-point value, as its IEEE-754 bit pattern.
    FloatBits(u64),
    /// A text value, or the canonical textual rendering of a structured
    /// collection.
    Text(String),
    /// A temporal value, as its ISO-8601 rendering.
    Temporal(String),
    /// An opaque value, as the host environment's identity-hash integer.
    Opaque(i64),
}

/// The two's-complement bit pattern of a signed 64-bit value, as an
/// unsigned one.
pub open spec fn spec_i64_twos_complement(x: i64) -> u64 {
    if x >= 0 {
        x as u64
    } else {
        (x + 0x1_0000_0000_0000_0000) as u64
    }
}

/// The canonical byte sequence of a value.
pub open spec fn spec_canonical_bytes(v: Value) -> Seq<u8> {
    match v {
        Value::Int(x) => spec_u64_to_le_bytes(spec_i64_twos_complement(x)),
        Value::Bool(b) => seq![if b { 1u8 } else { 0u8 }],
        Value::FloatBits(u) => spec_u64_to_le_bytes(u),
        Value::Text(s) => encode_utf8(s@),
        Value::Temporal(s) => encode_utf8(s@),
        Value::Opaque(x) => spec_u64_to_le_bytes(spec_i64_twos_complement(x)),
    }
}

/// The two's-complement pattern of `x`, computed without leaving the
/// signed range.
fn i64_twos_complement(x: i64) -> (r: u64)
    ensures
        r == spec_i64_twos_complement(x),
{
    if x >= 0 {
        x as u64
    } else {
        // x + 2^64 == u64::MAX - (-(x + 1))
        let flipped = -(x + 1);
        u64::MAX - (flipped as u64)
    }
}

/// The canonical byte sequence of `v`: rule by rule, the first matching
/// shape decides the form.
pub fn canonical_bytes(v: &Value) -> (r: Vec<u8>)
    ensures
        r@ == spec_canonical_bytes(*v),
{
    match v {
        Value::Int(x) => u64_to_le_bytes(i64_twos_complement(*x)),
        Value::Bool(b) => {
            let mut out: Vec<u8> = Vec::new();
            if *b {
                out.push(1);
            } else {
                out.push(0);
            }
            proof {
                assert(out@ =~= spec_canonical_bytes(*v));
            }
            out
        },
        Value::FloatBits(u) => u64_to_le_bytes(*u),
        Value::Text(s) => s.as_str().as_bytes_vec(),
        Value::Temporal(s) => s.as_str().as_bytes_vec(),
        Value::Opaque(x) => u64_to_le_bytes(i64_twos_complement(*x)),
    }
}

} // verus!
