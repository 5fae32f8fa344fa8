//! Parameter derivation for the filters.
//!
//! The optimal bit count for `n` expected items at false-positive rate `p` is
//! `m = ceil(-n * ln(p) / (ln 2)^2)`, and the optimal hash count is
//! `k = ceil((m / n) * ln 2)`, clamped to at least one.  The closed-form
//! false-positive estimate for a configured filter is `(1 - e^(-k*n/m))^k`.
//!
//! All of it is computed in Q32 fixed point (a value `v` stands for the real
//! number `v / 2^32`): the rate is taken as a fraction `num / den`, logarithms
//! come from a binary shift-and-square expansion, and the exponential from
//! range reduction by `ln 2` followed by a Taylor series.  The spec functions
//! below define the arithmetic exactly, so every public result is pinned to
//! one deterministic integer.

use vstd::prelude::*;
use vstd::arithmetic::div_mod::{
    lemma_div_is_ordered, lemma_fundamental_div_mod, lemma_fundamental_div_mod_converse,
};
use vstd::arithmetic::mul::lemma_mul_inequality;
use vstd::arithmetic::power2::{
    lemma2_to64, lemma_pow2_pos, lemma_pow2_strictly_increases, lemma_pow2_unfold, pow2,
};
use crate::FilterError;

verus! {

/// `ln 2` in Q32 fixed point, rounded to the nearest integer.
pub const LN2_Q32: u64 = 2977044472;

/// `(ln 2)^2` in Q32 fixed point, rounded to the nearest integer.
pub const LN2_SQUARED_Q32: u64 = 2063529982;

/// The largest expected item count the derivation accepts; keeps the bit
/// count below 2^30, which fits every platform's `usize`.
pub const MAX_EXPECTED_ITEMS: usize = 0x100_0000;

/// The largest rate denominator the derivation accepts: rates as fine as
/// 2^-32 can be asked for.
pub const MAX_RATE_DENOMINATOR: u64 = 0x1_0000_0000;

/// The ceiling of `a / b`.
pub open spec fn ceil_div(a: int, b: int) -> int
    recommends
        0 <= a,
        1 <= b,
{
    if a % b == 0 {
        a / b
    } else {
        a / b + 1
    }
}

/// The ceiling quotient is bounded by `c` whenever `a <= c * b`.
pub proof fn lemma_ceil_div_bound(a: int, b: int, c: int)
    requires
        0 <= a,
        1 <= b,
        a <= c * b,
    ensures
        ceil_div(a, b) <= c,
{
    lemma_fundamental_div_mod(a, b);
    let q = a / b;
    let r = a % b;
    if r == 0 {
        if q > c {
            lemma_mul_inequality(c + 1, q, b);
            assert((c + 1) * b == c * b + b) by (nonlinear_arith);
            assert(false);
        }
    } else {
        if q + 1 > c {
            // then q >= c, so a == q*b + r >= c*b + 1 > a
            lemma_mul_inequality(c, q, b);
            assert(b * q == q * b) by (nonlinear_arith);
            assert(0 <= r) by {
                vstd::arithmetic::div_mod::lemma_remainder_lower(a, b);
                assert(a - b * (a / b) == a % b) by {
                    lemma_fundamental_div_mod(a, b);
                }
            }
            assert(false);
        }
    }
}

/// A positive dividend has a positive ceiling quotient.
pub proof fn lemma_ceil_div_pos(a: int, b: int)
    requires
        1 <= a,
        1 <= b,
    ensures
        1 <= ceil_div(a, b),
{
    lemma_fundamental_div_mod(a, b);
    lemma_div_is_ordered(0, a, b);
    if a % b == 0 && a / b == 0 {
        assert(a == (a / b) * b + a % b);
        assert(false);
    }
}

/// Ceiling division on unsigned 128-bit values.
fn ceil_div_u128(a: u128, b: u128) -> (r: u128)
    requires
        1 <= b,
    ensures
        r as int == ceil_div(a as int, b as int),
{
    let q = a / b;
    let rem = a % b;
    if rem == 0 {
        q
    } else {
        proof {
            lemma_fundamental_div_mod(a as int, b as int);
            lemma_mul_inequality(1, b as int, q as int);
        }
        q + 1
    }
}

/// The floor of the base-2 logarithm of `den / num`, for `1 <= num <= den`.
pub open spec fn spec_log2_floor(num: int, den: int) -> int
    decreases den - num when 1 <= num <= den
{
    if 2 * num <= den {
        1 + spec_log2_floor(2 * num, den)
    } else {
        0
    }
}

/// The floor `e` of `log2(den / num)`, together with `num * 2^e`.
fn log2_floor(num: u64, den: u64) -> (r: (u64, u64))
    requires
        1 <= num <= den,
        den <= 0x1_0000_0000,
    ensures
        r.0 == spec_log2_floor(num as int, den as int),
        r.1 == num * pow2(r.0 as nat),
        num <= r.1 <= den,
        den < 2 * r.1,
        r.0 <= 32,
{
    let mut e: u64 = 0;
    let mut cur: u64 = num;
    proof {
        lemma2_to64();
        assert(cur == num * pow2(0));
    }
    while 2 * cur <= den
        invariant
            1 <= num <= den <= 0x1_0000_0000,
            num <= cur <= den,
            cur == num * pow2(e as nat),
            spec_log2_floor(num as int, den as int) == e + spec_log2_floor(
                cur as int,
                den as int,
            ),
            e <= 32,
        decreases den - cur,
    {
        proof {
            lemma_pow2_unfold((e + 1) as nat);
            assert(num * (2 * pow2(e as nat)) == 2 * (num * pow2(e as nat)))
                by (nonlinear_arith);
            if e + 1 > 32 {
                lemma_pow2_strictly_increases(32, (e + 1) as nat);
                lemma2_to64();
                lemma_mul_inequality(1, num as int, pow2((e + 1) as nat) as int);
                assert(num * pow2((e + 1) as nat) >= pow2((e + 1) as nat))
                    by (nonlinear_arith)
                    requires num >= 1,
                ;
                assert(false);
            }
        }
        cur = 2 * cur;
        e = e + 1;
    }
    (e, cur)
}

/// The binary fraction bits of `log2(x / 2^32)` for `x` in `[2^32, 2^33)`,
/// produced most-significant first by `rounds` squarings in Q32.
pub open spec fn spec_frac_bits(x: int, rounds: nat) -> int
    decreases rounds,
{
    if rounds == 0 {
        0
    } else {
        let sq = (x * x) / 0x1_0000_0000;
        if sq >= 0x2_0000_0000 {
            pow2((rounds - 1) as nat) + spec_frac_bits(sq / 2, (rounds - 1) as nat)
        } else {
            spec_frac_bits(sq, (rounds - 1) as nat)
        }
    }
}

/// The 32 fraction bits of `log2(x0 / 2^32)`, as one Q32 fraction.
fn frac_bits(x0: u64) -> (f: u64)
    requires
        0x1_0000_0000 <= x0 < 0x2_0000_0000,
    ensures
        f == spec_frac_bits(x0 as int, 32),
        f < 0x1_0000_0000,
{
    let mut x: u64 = x0;
    let mut f: u64 = 0;
    let mut i: u64 = 0;
    proof {
        lemma2_to64();
    }
    while i < 32
        invariant
            0x1_0000_0000 <= x < 0x2_0000_0000,
            i <= 32,
            f < pow2(i as nat),
            spec_frac_bits(x0 as int, 32) == f * pow2((32 - i) as nat) + spec_frac_bits(
                x as int,
                (32 - i) as nat,
            ),
        decreases 32 - i,
    {
        proof {
            assert((x as int) * (x as int) < 0x2_0000_0000 * 0x2_0000_0000) by (nonlinear_arith)
                requires x < 0x2_0000_0000,
            ;
            assert((x as int) * (x as int) >= 0x1_0000_0000 * 0x1_0000_0000) by (nonlinear_arith)
                requires x >= 0x1_0000_0000,
            ;
            lemma_div_is_ordered(
                0x1_0000_0000int * 0x1_0000_0000,
                (x as int) * (x as int),
                0x1_0000_0000,
            );
        }
        let sq: u64 = ((x as u128 * x as u128) / 0x1_0000_0000) as u64;
        proof {
            lemma2_to64();
            if i < 31 {
                lemma_pow2_strictly_increases(i as nat, 31);
            }
            lemma_pow2_unfold((32 - i) as nat);
            lemma_pow2_unfold((i + 1) as nat);
            let rest = pow2((31 - i) as nat) as int;
            assert(f * (2 * rest) == (2 * f) * rest) by (nonlinear_arith);
            assert((2 * f + 1) * rest == (2 * f) * rest + rest) by (nonlinear_arith);
        }
        if sq >= 0x2_0000_0000 {
            f = 2 * f + 1;
            x = sq / 2;
        } else {
            f = 2 * f;
            x = sq;
        }
        i = i + 1;
    }
    proof {
        lemma2_to64();
        assert(f * pow2(0) == f) by (nonlinear_arith)
            requires pow2(0) == 1,
        ;
    }
    f
}

/// `ln(den / num)` in Q32 fixed point, floored, with a floor of one so the
/// result is positive whenever `num < den`.
pub open spec fn spec_ln_recip_q32(num: int, den: int) -> int
    recommends
        1 <= num < den,
{
    let e = spec_log2_floor(num, den);
    let x0 = (den * 0x1_0000_0000) / (num * pow2(e as nat));
    let f = spec_frac_bits(x0, 32);
    let raw = ((e * 0x1_0000_0000 + f) * (LN2_Q32 as int)) / 0x1_0000_0000;
    if raw == 0 {
        1
    } else {
        raw
    }
}

/// `ln(den / num)` in Q32, for a rate `num / den` in (0, 1).
fn ln_recip_q32(num: u64, den: u64) -> (r: u64)
    requires
        1 <= num < den,
        den <= 0x1_0000_0000,
    ensures
        r == spec_ln_recip_q32(num as int, den as int),
        1 <= r < 33 * (LN2_Q32 as int),
{
    let (e, scaled) = log2_floor(num, den);
    proof {
        lemma_pow2_pos(e as nat);
        // den * 2^32 / scaled lies in [2^32, 2^33)
        lemma_mul_inequality(scaled as int, den as int, 0x1_0000_0000);
        lemma_div_is_ordered(
            (scaled as int) * 0x1_0000_0000,
            (den as int) * 0x1_0000_0000,
            scaled as int,
        );
        assert(((scaled as int) * 0x1_0000_0000) / (scaled as int) == 0x1_0000_0000)
            by (nonlinear_arith)
            requires scaled >= 1,
        ;
        assert((den as int) * 0x1_0000_0000 < (scaled as int) * 0x2_0000_0000)
            by (nonlinear_arith)
            requires den < 2 * scaled,
        ;
        assert(((den as int) * 0x1_0000_0000) / (scaled as int) < 0x2_0000_0000)
            by (nonlinear_arith)
            requires
                (den as int) * 0x1_0000_0000 < (scaled as int) * 0x2_0000_0000,
                scaled >= 1,
        ;
    }
    let x0: u64 = ((den as u128 * 0x1_0000_0000) / (scaled as u128)) as u64;
    let f = frac_bits(x0);
    let log2fp: u64 = e * 0x1_0000_0000 + f;
    proof {
        assert(log2fp < 33 * 0x1_0000_0000);
        assert((log2fp as int) * (LN2_Q32 as int) < (33 * 0x1_0000_0000) * (LN2_Q32 as int))
            by (nonlinear_arith)
            requires log2fp < 33 * 0x1_0000_0000,
        ;
        assert(((log2fp as int) * (LN2_Q32 as int)) / 0x1_0000_0000 < 33 * (LN2_Q32 as int))
            by (nonlinear_arith)
            requires
                (log2fp as int) * (LN2_Q32 as int) < (33 * 0x1_0000_0000) * (LN2_Q32 as int),
        ;
    }
    let raw: u64 = ((log2fp as u128 * LN2_Q32 as u128) / 0x1_0000_0000) as u64;
    if raw == 0 {
        1
    } else {
        raw
    }
}

/// The optimal bit count `ceil(n * ln(den/num) / (ln 2)^2)`, in the
/// library's Q32 arithmetic.
pub open spec fn spec_optimal_bits(n: int, num: int, den: int) -> int {
    ceil_div(n * spec_ln_recip_q32(num, den), LN2_SQUARED_Q32 as int)
}

/// The optimal hash count `ceil((m / n) * ln 2)`, clamped to at least one,
/// in the library's Q32 arithmetic.
pub open spec fn spec_optimal_hashes(m: int, n: int) -> int {
    let k = ceil_div(m * (LN2_Q32 as int), n * 0x1_0000_0000);
    if k == 0 {
        1
    } else {
        k
    }
}

/// Calculates the optimal number of bits to use for a filter:
/// `m = ceil(-n * ln(p) / (ln 2)^2)` for `n` expected items and a desired
/// false-positive rate `p = rate_num / rate_den`.
///
/// Fails with `InvalidParameter` when `n < 1` or the rate is outside (0, 1).
pub fn calc_optimal_number_of_bits(
    expected_number_of_items: usize,
    rate_num: u64,
    rate_den: u64,
) -> (r: Result<usize, FilterError>)
    requires
        expected_number_of_items <= MAX_EXPECTED_ITEMS,
        rate_den <= MAX_RATE_DENOMINATOR,
    ensures
        match r {
            Ok(m) => 1 <= expected_number_of_items && 1 <= rate_num < rate_den && m
                == spec_optimal_bits(
                expected_number_of_items as int,
                rate_num as int,
                rate_den as int,
            ) && 1 <= m <= 0x4000_0000,
            Err(e) => e == FilterError::InvalidParameter && (expected_number_of_items == 0
                || rate_num == 0 || rate_num >= rate_den),
        },
{
    if expected_number_of_items == 0 || rate_num == 0 || rate_num >= rate_den {
        return Err(FilterError::InvalidParameter);
    }
    let lnfp = ln_recip_q32(rate_num, rate_den);
    let n = expected_number_of_items as u64;
    proof {
        assert(1 <= (n as int) * (lnfp as int) <= 0x100_0000int * (33 * (LN2_Q32 as int)))
            by (nonlinear_arith)
            requires
                1 <= n <= 0x100_0000,
                1 <= lnfp < 33 * (LN2_Q32 as int),
        ;
    }
    let a: u128 = (n as u128) * (lnfp as u128);
    let m = ceil_div_u128(a, LN2_SQUARED_Q32 as u128);
    proof {
        lemma_ceil_div_pos(a as int, LN2_SQUARED_Q32 as int);
        assert(0x100_0000int * (33 * (LN2_Q32 as int)) <= 0x4000_0000int * (
        LN2_SQUARED_Q32 as int));
        lemma_ceil_div_bound(a as int, LN2_SQUARED_Q32 as int, 0x4000_0000);
    }
    Ok(m as usize)
}

/// Calculates the optimal number of hashes for a filter:
/// `k = ceil((m / n) * ln 2)` for `m` bits and `n` expected items, clamped
/// to at least one.
///
/// Fails with `InvalidParameter` when `n < 1`.
pub fn calculate_optimal_number_of_hashes(
    bit_array_size: usize,
    expected_number_of_items: usize,
) -> (r: Result<usize, FilterError>)
    ensures
        match r {
            Ok(k) => 1 <= expected_number_of_items && k == spec_optimal_hashes(
                bit_array_size as int,
                expected_number_of_items as int,
            ) && 1 <= k && (k <= bit_array_size || k == 1),
            Err(e) => e == FilterError::InvalidParameter && expected_number_of_items == 0,
        },
{
    if expected_number_of_items == 0 {
        return Err(FilterError::InvalidParameter);
    }
    let a: u128 = (bit_array_size as u128) * (LN2_Q32 as u128);
    let b: u128 = (expected_number_of_items as u128) * 0x1_0000_0000;
    let k = ceil_div_u128(a, b);
    proof {
        let mi = bit_array_size as int;
        let ni = expected_number_of_items as int;
        assert(mi * (LN2_Q32 as int) <= mi * (ni * 0x1_0000_0000)) by (nonlinear_arith)
            requires
                1 <= ni,
                0 <= mi,
        ;
        lemma_ceil_div_bound(a as int, b as int, mi);
        if k != 0 {
            lemma_ceil_div_pos(a as int, b as int);
        }
    }
    if k == 0 {
        Ok(1)
    } else {
        Ok(k as usize)
    }
}

/// Adjacent-term pairs of the Taylor series of `e^(-r)`: with `t` the term
/// `r^j / j!` in Q32, the sum of `pairs` further differences
/// `t_j - t_{j+1}` of consecutive terms.
pub open spec fn spec_exp_pairs(t: int, r: int, j: int, pairs: nat) -> int
    decreases pairs,
{
    if pairs == 0 {
        0
    } else {
        let b = ((t * r) / 0x1_0000_0000) / (j + 1);
        let t2 = ((b * r) / 0x1_0000_0000) / (j + 2);
        (t - b) + spec_exp_pairs(t2, r, j + 2, (pairs - 1) as nat)
    }
}

/// `e^(-x)` for `x >= 0` in Q32: range reduction `x = q * ln2 + r`, a
/// 20-term Taylor series on `r`, then a halving for each multiple of `ln 2`.
pub open spec fn spec_exp_neg_q32(x: int) -> int {
    let q = x / (LN2_Q32 as int);
    let r = x % (LN2_Q32 as int);
    let s = spec_exp_pairs(0x1_0000_0000, r, 0, 10);
    if q >= 64 {
        0
    } else {
        s / (pow2(q as nat) as int)
    }
}

/// `base^k` in Q32 (base and result both scaled by 2^32).
pub open spec fn spec_pow_q32(base: int, k: nat) -> int
    decreases k,
{
    if k == 0 {
        0x1_0000_0000
    } else {
        (base * spec_pow_q32(base, (k - 1) as nat)) / 0x1_0000_0000
    }
}

/// `(1 - e^(-k*n/m))^k` in Q32, rescaled to parts per billion.
pub open spec fn spec_estimate_ppb(k: int, m: int, n: int) -> int {
    let x = (k * n * 0x1_0000_0000) / m;
    let e = spec_exp_neg_q32(x);
    let base = 0x1_0000_0000 - e;
    (spec_pow_q32(base, k as nat) * 1_000_000_000) / 0x1_0000_0000
}

/// Multiplying by a Q32 factor of at most one and rescaling does not grow
/// a non-negative value.
proof fn lemma_q32_mul_div_le(t: int, r: int)
    requires
        0 <= t,
        0 <= r <= 0x1_0000_0000,
    ensures
        0 <= (t * r) / 0x1_0000_0000 <= t,
{
    lemma_mul_inequality(r, 0x1_0000_0000, t);
    assert(t * r == r * t) by (nonlinear_arith);
    assert(0x1_0000_0000 * t == t * 0x1_0000_0000) by (nonlinear_arith);
    vstd::arithmetic::div_mod::lemma_div_by_multiple(t, 0x1_0000_0000);
    lemma_div_is_ordered(t * r, t * 0x1_0000_0000, 0x1_0000_0000);
    vstd::arithmetic::div_mod::lemma_div_pos_is_pos(t * r, 0x1_0000_0000);
    vstd::arithmetic::mul::lemma_mul_nonnegative(t, r);
}

/// `e^(-x)` in Q32 for a Q32 argument.
fn exp_neg_q32(x: u128) -> (r: u64)
    ensures
        r == spec_exp_neg_q32(x as int),
        r <= 0x1_0000_0000,
{
    let q: u128 = x / (LN2_Q32 as u128);
    let rem: u64 = (x % (LN2_Q32 as u128)) as u64;
    let mut s: u64 = 0;
    let mut t: u64 = 0x1_0000_0000;
    let mut j: u64 = 0;
    let mut p: u64 = 0;
    while p < 10
        invariant
            rem < LN2_Q32,
            j == 2 * p,
            p <= 10,
            t <= 0x1_0000_0000,
            s + t <= 0x1_0000_0000,
            spec_exp_pairs(0x1_0000_0000, rem as int, 0, 10) == s + spec_exp_pairs(
                t as int,
                rem as int,
                j as int,
                (10 - p) as nat,
            ),
        decreases 10 - p,
    {
        proof {
            lemma_q32_mul_div_le(t as int, rem as int);
            vstd::arithmetic::div_mod::lemma_div_nonincreasing(
                ((t as int) * (rem as int)) / 0x1_0000_0000,
                (j + 1) as int,
            );
            vstd::arithmetic::div_mod::lemma_div_pos_is_pos(
                ((t as int) * (rem as int)) / 0x1_0000_0000,
                (j + 1) as int,
            );
        }
        let b: u64 = ((((t as u128) * (rem as u128)) / 0x1_0000_0000) / ((j + 1) as u128)) as u64;
        proof {
            lemma_q32_mul_div_le(b as int, rem as int);
            vstd::arithmetic::div_mod::lemma_div_nonincreasing(
                ((b as int) * (rem as int)) / 0x1_0000_0000,
                (j + 2) as int,
            );
            vstd::arithmetic::div_mod::lemma_div_pos_is_pos(
                ((b as int) * (rem as int)) / 0x1_0000_0000,
                (j + 2) as int,
            );
        }
        let t2: u64 = ((((b as u128) * (rem as u128)) / 0x1_0000_0000) / ((j + 2) as u128)) as u64;
        proof {
            assert(spec_exp_pairs(t as int, rem as int, j as int, (10 - p) as nat) == ((t
                - b) as int) + spec_exp_pairs(
                t2 as int,
                rem as int,
                (j + 2) as int,
                (9 - p) as nat,
            ));
        }
        s = s + (t - b);
        t = t2;
        j = j + 2;
        p = p + 1;
    }
    if q >= 64 {
        0
    } else {
        let qq = q as u64;
        proof {
            vstd::bits::lemma_u64_shr_is_div(s, qq);
            lemma_pow2_pos(qq as nat);
            vstd::arithmetic::div_mod::lemma_div_nonincreasing(s as int, pow2(qq as nat) as int);
            vstd::arithmetic::div_mod::lemma_div_pos_is_pos(s as int, pow2(qq as nat) as int);
        }
        s >> qq
    }
}

/// Estimates the false-positive rate of a filter configured with `n_hashes`
/// hash seeds and `n_bits` bits that was sized for `expected_n_of_items`
/// items: `(1 - e^(-k*n/m))^k`, returned in parts per billion.
///
/// The estimate uses the construction-time expected item count, not the
/// number of items actually inserted so far.
pub fn estimate_false_positive_rate(
    n_hashes: usize,
    n_bits: usize,
    expected_n_of_items: usize,
) -> (r: u64)
    requires
        1 <= n_hashes <= 0x1_0000_0000,
        1 <= n_bits,
        1 <= expected_n_of_items <= 0x1_0000_0000,
    ensures
        r == spec_estimate_ppb(n_hashes as int, n_bits as int, expected_n_of_items as int),
        r <= 1_000_000_000,
{
    proof {
        assert((n_hashes as int) * (expected_n_of_items as int) <= 0x1_0000_0000int
            * 0x1_0000_0000) by (nonlinear_arith)
            requires
                n_hashes <= 0x1_0000_0000,
                expected_n_of_items <= 0x1_0000_0000,
                0 <= n_hashes,
                0 <= expected_n_of_items,
        ;
    }
    let kn: u128 = (n_hashes as u128) * (expected_n_of_items as u128);
    let x: u128 = (kn * 0x1_0000_0000) / (n_bits as u128);
    let e = exp_neg_q32(x);
    let base: u64 = 0x1_0000_0000 - e;
    let mut acc: u64 = 0x1_0000_0000;
    let mut i: usize = 0;
    while i < n_hashes
        invariant
            base <= 0x1_0000_0000,
            acc <= 0x1_0000_0000,
            i <= n_hashes,
            n_hashes <= 0x1_0000_0000,
            acc == spec_pow_q32(base as int, i as nat),
        decreases n_hashes - i,
    {
        proof {
            lemma_q32_mul_div_le(acc as int, base as int);
            assert((acc as int) * (base as int) == (base as int) * (acc as int))
                by (nonlinear_arith);
            assert(spec_pow_q32(base as int, (i + 1) as nat) == ((base as int)
                * spec_pow_q32(base as int, i as nat)) / 0x1_0000_0000);
        }
        acc = (((acc as u128) * (base as u128)) / 0x1_0000_0000) as u64;
        i = i + 1;
    }
    proof {
        lemma_q32_mul_div_le(1_000_000_000, acc as int);
        assert((acc as int) * 1_000_000_000int == 1_000_000_000int * (acc as int))
            by (nonlinear_arith);
    }
    (((acc as u128) * 1_000_000_000) / 0x1_0000_0000) as u64
}

} // verus!
