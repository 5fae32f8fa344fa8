//! Dense storage of a fixed number of single-bit flags.
//!
//! The flags are packed eight to a byte, least-significant bit first, so a
//! filter of `m` bits occupies `ceil(m / 8)` bytes.  The number of bits is
//! fixed at construction; there is no resizing.  The unused high bits of the
//! last byte are kept at zero, which makes the byte form canonical: two
//! arrays with the same flags have the same bytes, and the byte form can be
//! used directly as a snapshot payload.

use vstd::prelude::*;
use vstd::arithmetic::div_mod::{
    lemma_fundamental_div_mod, lemma_fundamental_div_mod_converse, lemma_hoist_over_denominator,
};

verus! {

/// True when bit `j` of byte `b` is set.
pub open spec fn byte_bit(b: u8, j: u8) -> bool
    recommends
        j < 8,
{
    (b >> j) & 1 == 1
}

/// The byte sequence `bytes` is a well-formed packing of `nbits` flags:
/// exactly `ceil(nbits / 8)` bytes, with the unused high bits of the last
/// byte zero.
pub open spec fn packed_ok(bytes: Seq<u8>, nbits: nat) -> bool {
    &&& bytes.len() == (nbits + 7) / 8
    &&& (nbits % 8 != 0 ==> bytes[bytes.len() - 1] >> ((nbits % 8) as u8) == 0)
}

/// The flag at position `i` of a packed byte sequence.
pub open spec fn spec_bit_at(bytes: Seq<u8>, i: int) -> bool {
    byte_bit(bytes[i / 8], (i % 8) as u8)
}

/// Setting one low bit leaves the high bits of a byte zero.
proof fn lemma_set_keeps_high_zero(b: u8, sh: u8, tr: u8)
    by (bit_vector)
    requires
        sh < tr < 8,
        b >> tr == 0,
    ensures
        (b | (1u8 << sh)) >> tr == 0,
{
}

/// After `b | (1 << sh)`, bit `jj` is set exactly when it was set before or
/// `jj == sh`.
proof fn lemma_set_bit(b: u8, sh: u8, jj: u8)
    by (bit_vector)
    requires
        sh < 8,
        jj < 8,
    ensures
        byte_bit(b | (1u8 << sh), jj) == (jj == sh || byte_bit(b, jj)),
{
}

/// The zero byte has no bit set.
proof fn lemma_zero_byte(jj: u8)
    by (bit_vector)
    requires
        jj < 8,
    ensures
        !byte_bit(0u8, jj),
        0u8 >> jj == 0,
{
}

/// Positions under `nbits` fall inside the packed byte vector, in the byte
/// given by division by eight.
proof fn lemma_bit_position(i: int, nbits: int)
    requires
        0 <= i < nbits,
    ensures
        0 <= i / 8 < (nbits + 7) / 8,
        0 <= i % 8 < 8,
        i / 8 == (nbits + 7) / 8 - 1 && nbits % 8 != 0 ==> i % 8 <= nbits % 8 - 1,
{
    lemma_fundamental_div_mod(i, 8);
    lemma_fundamental_div_mod(nbits - 1, 8);
    lemma_fundamental_div_mod(nbits, 8);
    lemma_hoist_over_denominator(nbits - 1, 1, 8);
    // i <= nbits - 1, so i / 8 <= (nbits - 1) / 8 = (nbits + 7) / 8 - 1
    vstd::arithmetic::div_mod::lemma_div_is_ordered(i, nbits - 1, 8);
    if nbits % 8 != 0 {
        // (nbits - 1) / 8 == nbits / 8 and (nbits - 1) % 8 == nbits % 8 - 1
        lemma_fundamental_div_mod_converse(nbits - 1, 8, nbits / 8, nbits % 8 - 1);
        if i / 8 == (nbits + 7) / 8 - 1 {
            // same byte as nbits - 1, so i % 8 <= (nbits - 1) % 8
        }
    }
}

/// Two positions in the same byte with the same bit offset are equal.
proof fn lemma_position_unique(i: int, j: int)
    requires
        0 <= i,
        0 <= j,
        i / 8 == j / 8,
        i % 8 == j % 8,
    ensures
        i == j,
{
    lemma_fundamental_div_mod(i, 8);
    lemma_fundamental_div_mod(j, 8);
}

/// A vector of `len` zero bytes.
fn zero_bytes(len: usize) -> (r: Vec<u8>)
    ensures
        r@.len() == len,
        forall|i: int| 0 <= i < len ==> r@[i] == 0u8,
{
    let mut v: Vec<u8> = Vec::new();
    let mut i: usize = 0;
    while i < len
        invariant
            i <= len,
            v@.len() == i,
            forall|j: int| 0 <= j < i ==> v@[j] == 0u8,
        decreases len - i,
    {
        v.push(0);
        i = i + 1;
    }
    v
}

/// Dense storage of `m` single-bit flags, packed eight to a byte.
pub struct BitArray {
    bytes: Vec<u8>,
    nbits: usize,
}

impl View for BitArray {
    type V = Seq<bool>;

    closed spec fn view(&self) -> Seq<bool> {
        Seq::new(self.nbits as nat, |i: int| spec_bit_at(self.bytes@, i))
    }
}

impl BitArray {
    /// The array's packing is consistent: the right byte count for its bit
    /// count, the unused high bits of the last byte zero, and a bit count
    /// that leaves room for the byte rounding.
    pub closed spec fn wf(&self) -> bool {
        &&& packed_ok(self.bytes@, self.nbits as nat)
        &&& self.nbits <= usize::MAX - 7
    }

    /// The machine bound a well-formed array keeps on its bit count.
    pub proof fn lemma_wf_len(&self)
        requires
            self.wf(),
        ensures
            self@.len() <= usize::MAX - 7,
            self.spec_bytes().len() == (self@.len() + 7) / 8,
    {
    }

    /// The packed byte form of the flags.
    pub closed spec fn spec_bytes(&self) -> Seq<u8> {
        self.bytes@
    }

    /// A well-formed array's flags are the bits of its byte form.
    pub proof fn lemma_view_from_bytes(&self)
        requires
            self.wf(),
        ensures
            packed_ok(self.spec_bytes(), self@.len()),
            self@ == Seq::new(self@.len(), |i: int| spec_bit_at(self.spec_bytes(), i)),
    {
        assert(self@ =~= Seq::new(self@.len(), |i: int| spec_bit_at(self.spec_bytes(), i)));
    }

    /// A fresh array of `nbits` flags, all false.
    pub fn new(nbits: usize) -> (r: BitArray)
        requires
            nbits <= usize::MAX - 7,
        ensures
            r.wf(),
            r@.len() == nbits,
            forall|i: int| 0 <= i < nbits ==> !r@[i],
    {
        let len = (nbits + 7) / 8;
        let bytes = zero_bytes(len);
        let r = BitArray { bytes, nbits };
        proof {
            assert forall|i: int| 0 <= i < nbits implies !r@[i] by {
                lemma_bit_position(i, nbits as int);
                lemma_zero_byte((i % 8) as u8);
            }
            if nbits % 8 != 0 {
                lemma_zero_byte(0);
                assert(r.bytes@[r.bytes@.len() - 1] == 0u8);
                assert(0u8 >> ((nbits % 8) as u8) == 0) by (bit_vector);
            }
        }
        r
    }

    /// The number of flags.
    pub fn len(&self) -> (r: usize)
        ensures
            r == self@.len(),
    {
        self.nbits
    }

    /// The flag at position `i`.
    pub fn get(&self, i: usize) -> (r: bool)
        requires
            self.wf(),
            i < self@.len(),
        ensures
            r == self@[i as int],
    {
        proof {
            lemma_bit_position(i as int, self.nbits as int);
        }
        let byte = self.bytes[i / 8];
        let sh = (i % 8) as u8;
        (byte >> sh) & 1 == 1
    }

    /// Sets the flag at position `i` to true; every other flag is unchanged.
    pub fn set(&mut self, i: usize)
        requires
            old(self).wf(),
            i < old(self)@.len(),
        ensures
            final(self).wf(),
            final(self)@ == old(self)@.update(i as int, true),
    {
        proof {
            lemma_bit_position(i as int, self.nbits as int);
        }
        let idx = i / 8;
        let sh = (i % 8) as u8;
        let b = self.bytes[idx];
        let nb = b | (1u8 << sh);
        self.bytes.set(idx, nb);
        proof {
            let prior = old(self);
            assert forall|j: int| 0 <= j < self.nbits implies self@[j] == prior@.update(
                i as int,
                true,
            )[j] by {
                lemma_bit_position(j, self.nbits as int);
                if j / 8 == idx {
                    lemma_set_bit(b, sh, (j % 8) as u8);
                    if j != i {
                        if j % 8 == i % 8 {
                            lemma_position_unique(j, i as int);
                        }
                    }
                }
            }
            assert(self@ =~= prior@.update(i as int, true));
            // the unused high bits of the last byte stay zero
            if self.nbits % 8 != 0 && idx == self.bytes@.len() - 1 {
                lemma_set_keeps_high_zero(b, sh, (self.nbits % 8) as u8);
            }
        }
    }

    /// Resets every flag to false; the length is unchanged.
    pub fn reset_all(&mut self)
        requires
            old(self).wf(),
        ensures
            final(self).wf(),
            final(self)@.len() == old(self)@.len(),
            forall|i: int| 0 <= i < final(self)@.len() ==> !final(self)@[i],
    {
        let len = self.bytes.len();
        self.bytes = zero_bytes(len);
        proof {
            assert forall|i: int| 0 <= i < self@.len() implies !self@[i] by {
                lemma_bit_position(i, self.nbits as int);
                lemma_zero_byte((i % 8) as u8);
            }
            if self.nbits % 8 != 0 {
                let shv = (self.nbits % 8) as u8;
                assert(0u8 >> shv == 0) by (bit_vector);
            }
        }
    }

    /// The packed byte form, as a fresh vector: the snapshot payload.
    pub fn to_byte_vec(&self) -> (r: Vec<u8>)
        ensures
            r@ == self.spec_bytes(),
    {
        let mut v: Vec<u8> = Vec::new();
        let mut i: usize = 0;
        while i < self.bytes.len()
            invariant
                i <= self.bytes@.len(),
                v@ == self.bytes@.subrange(0, i as int),
            decreases self.bytes@.len() - i,
        {
            v.push(self.bytes[i]);
            proof {
                assert(v@ =~= self.bytes@.subrange(0, i + 1));
            }
            i = i + 1;
        }
        proof {
            assert(v@ =~= self.bytes@);
        }
        v
    }

    /// Rebuilds an array of `nbits` flags from a packed byte form; `None`
    /// when the byte count does not match or an unused high bit is set.
    pub fn from_bytes(bytes: Vec<u8>, nbits: usize) -> (r: Option<BitArray>)
        requires
            nbits <= usize::MAX - 7,
        ensures
            match r {
                Some(b) => packed_ok(bytes@, nbits as nat) && b.wf() && b@.len() == nbits
                    && b.spec_bytes() == bytes@,
                None => !packed_ok(bytes@, nbits as nat),
            },
    {
        if bytes.len() != (nbits + 7) / 8 {
            return None;
        }
        if nbits % 8 != 0 {
            let last = bytes[bytes.len() - 1];
            let sh = (nbits % 8) as u8;
            if last >> sh != 0 {
                return None;
            }
        }
        Some(BitArray { bytes, nbits })
    }
}

} // verus!
