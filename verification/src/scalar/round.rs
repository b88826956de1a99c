//! Rounding of an exact value to the nearest binary64 number, ties to even.
use vstd::prelude::*;
use vstd::arithmetic::power2::*;
use vstd::arithmetic::mul::*;
use vstd::arithmetic::div_mod::*;
use vstd::bits::*;
use crate::scalar::{Scalar, INF_BITS, HIDDEN_BIT};

verus! {

pub const TWO_64: u128 = 0x1_0000_0000_0000_0000;

pub const TWO_127: u128 = 0x8000_0000_0000_0000_0000_0000_0000_0000;

/// The number of places by which `n` is shifted left to bring its leading
/// bit to position 127; 0 for 0 and for what has a bit at or above it.
pub open spec fn lead(n: nat) -> nat
    decreases (if 0 < n < TWO_127 { TWO_127 - n } else { 0 }),
{
    if 0 < n < TWO_127 {
        1 + lead(2 * n)
    } else {
        0
    }
}

/// The magnitude of the binary64 number nearest to a value that lies between
/// `q * 2^x` and `(q + 1) * 2^x`, where `2^63 <= q < 2^64`. The value is
/// `q * 2^x` itself unless `sticky`. A tie goes to the even significand, and
/// what lies beyond the largest finite number becomes infinity.
#[verifier::opaque]
pub open spec fn rounded_magnitude(q: nat, x: int, sticky: bool) -> nat {
    let e: int = x + 1086;
    let shift: nat = if e >= 1 {
        11
    } else if e >= -53 {
        (12 - e) as nat
    } else {
        65
    };
    let p: nat = pow2(shift);
    let m: nat = q / p;
    let rem: nat = q % p;
    let half: nat = p / 2;
    let up: bool = rem > half || (rem == half && (sticky || m % 2 == 1));
    let m2: nat = if up { (m + 1) as nat } else { m };
    let base: nat = if e >= 1 { (e - 1) as nat } else { 0 };
    let mag: nat = (base * HIDDEN_BIT + m2) as nat;
    if mag >= INF_BITS {
        INF_BITS as nat
    } else {
        mag
    }
}

/// The binary64 number nearest to a value that lies between `n * 2^x` and
/// `(n + 1) * 2^x`, for `0 < n < 2^128`: the value is `n * 2^x` itself
/// unless `sticky`, in which case `n` has at least 54 bits.
#[verifier::opaque]
pub open spec fn rounded(negative: bool, n: nat, x: int, sticky: bool) -> Scalar {
    let k: nat = lead(n);
    let t: nat = n * pow2(k);
    Scalar::with_sign(
        rounded_magnitude(t / (TWO_64 as nat), x - k + 64, sticky || t % (TWO_64 as nat) != 0),
        negative,
    )
}

proof fn lemma_scale_step(n: nat, k: nat, s: nat)
    ensures
        n * pow2(k) * pow2(s) == n * pow2(k + s),
{
    lemma_pow2_adds(k, s);
    lemma_mul_is_associative(n as int, pow2(k) as int, pow2(s) as int);
}

pub proof fn lemma_lead_unique(n: nat, k: nat)
    requires
        TWO_127 <= n * pow2(k) < 2 * TWO_127,
    ensures
        lead(n) == k,
    decreases k,
{
    lemma_pow2_pos(k);
    if k == 0 {
        lemma2_to64();
        assert(n * pow2(0) == n);
    } else {
        lemma_pow2_unfold(k);
        let p: nat = pow2((k - 1) as nat);
        lemma_pow2_pos((k - 1) as nat);
        assert(n * (2 * p) == (2 * n) * p) by (nonlinear_arith);
        assert(n > 0) by (nonlinear_arith)
            requires
                n * pow2(k) > 0,
        ;
        assert(2 * n <= (2 * n) * p) by (nonlinear_arith)
            requires
                p >= 1,
        ;
        lemma_lead_unique(2 * n, (k - 1) as nat);
    }
}

/// Shifted by its lead, a number below `2^128` that is not zero has its
/// leading bit at position 127.
pub proof fn lemma_lead_bounds(n: nat)
    requires
        0 < n < 2 * TWO_127,
    ensures
        lead(n) <= 127,
        TWO_127 <= n * pow2(lead(n)) < 2 * TWO_127,
    decreases 2 * TWO_127 - n,
{
    if n < TWO_127 {
        lemma_lead_bounds(2 * n);
        let k: nat = lead(2 * n);
        lemma_pow2_unfold(k + 1);
        assert(n * (2 * pow2(k)) == (2 * n) * pow2(k)) by (nonlinear_arith);
        lemma_pow2_pos(k);
        assert(k < 127) by {
            if k >= 127 {
                lemma_pow2_values();
                if k > 127 {
                    lemma_pow2_strictly_increases(127, k);
                }
                assert((2 * n) * pow2(k) >= 2 * TWO_127) by (nonlinear_arith)
                    requires
                        2 * n >= 2,
                        pow2(k) >= TWO_127,
                ;
            }
        }
    } else {
        lemma2_to64();
        assert(n * pow2(0) == n);
    }
}

/// `2^127`, `2^64` and the small powers as literals.
pub proof fn lemma_pow2_values()
    ensures
        pow2(0) == 1,
        pow2(1) == 2,
        pow2(2) == 4,
        pow2(4) == 16,
        pow2(8) == 0x100,
        pow2(11) == 0x800,
        pow2(12) == 0x1000,
        pow2(16) == 0x1_0000,
        pow2(32) == 0x1_0000_0000,
        pow2(52) == 0x10_0000_0000_0000,
        pow2(53) == 0x20_0000_0000_0000,
        pow2(63) == 0x8000_0000_0000_0000,
        pow2(64) == 0x1_0000_0000_0000_0000,
        pow2(65) == 0x2_0000_0000_0000_0000,
        pow2(127) == TWO_127,
{
    lemma2_to64();
    lemma2_to64_rest();
    lemma_pow2_adds(63, 64);
    lemma_pow2_adds(1, 64);
}

/// Scales `n` by the power of two that brings its leading bit to position 127.
pub(crate) fn normalize(n: u128) -> (r: (u128, u32))
    requires
        n > 0,
    ensures
        r.1 == lead(n as nat),
        r.0 == n * pow2(lead(n as nat)),
        r.0 >= TWO_127,
        r.1 <= 127,
{
    let mut t: u128 = n;
    let mut k: u32 = 0;
    proof {
        lemma_pow2_values();
        assert(t == n * pow2(0));
    }
    if t < 0x1_0000_0000_0000_0000 {
        proof {
            lemma_scale_step(n as nat, k as nat, 64);
        }
        t = t * 0x1_0000_0000_0000_0000;
        k = k + 64;
    }
    if t < 0x1_0000_0000_0000_0000_0000_0000 {
        proof {
            lemma_scale_step(n as nat, k as nat, 32);
        }
        t = t * 0x1_0000_0000;
        k = k + 32;
    }
    if t < 0x1_0000_0000_0000_0000_0000_0000_0000 {
        proof {
            lemma_scale_step(n as nat, k as nat, 16);
        }
        t = t * 0x1_0000;
        k = k + 16;
    }
    if t < 0x100_0000_0000_0000_0000_0000_0000_0000 {
        proof {
            lemma_scale_step(n as nat, k as nat, 8);
        }
        t = t * 0x100;
        k = k + 8;
    }
    if t < 0x1000_0000_0000_0000_0000_0000_0000_0000 {
        proof {
            lemma_scale_step(n as nat, k as nat, 4);
        }
        t = t * 16;
        k = k + 4;
    }
    if t < 0x4000_0000_0000_0000_0000_0000_0000_0000 {
        proof {
            lemma_scale_step(n as nat, k as nat, 2);
        }
        t = t * 4;
        k = k + 2;
    }
    if t < 0x8000_0000_0000_0000_0000_0000_0000_0000 {
        proof {
            lemma_scale_step(n as nat, k as nat, 1);
        }
        t = t * 2;
        k = k + 1;
    }
    proof {
        lemma_lead_unique(n as nat, k as nat);
    }
    (t, k)
}

/// `2^k` for an exponent below 128.
pub(crate) fn power_of_two(k: u32) -> (r: u128)
    requires
        k <= 127,
    ensures
        r == pow2(k as nat),
        r > 0,
{
    let s: u128 = (127 - k) as u128;
    proof {
        lemma_pow2_values();
        lemma_u128_shr_is_div(TWO_127, s);
        lemma_pow2_subtracts(s as nat, 127);
    }
    TWO_127 >> s
}

pub(crate) fn round_magnitude(q: u64, x: i64, sticky: bool) -> (r: u64)
    requires
        q >= 0x8000_0000_0000_0000,
        -0x200_0000_0000 <= x <= 0x200_0000_0000,
    ensures
        r == rounded_magnitude(q as nat, x as int, sticky),
        r <= INF_BITS,
{
    reveal(rounded_magnitude);
    let e: i64 = x + 1086;
    let shift: u32 = if e >= 1 {
        11
    } else if e >= -53 {
        (12 - e) as u32
    } else {
        65
    };
    let p: u128 = power_of_two(shift);
    let wide: u128 = q as u128;
    let m: u128 = wide / p;
    let rem: u128 = wide % p;
    let half: u128 = p / 2;
    let up: bool = rem > half || (rem == half && (sticky || m % 2 == 1));
    proof {
        lemma_div_nonincreasing(wide as int, p as int);
    }
    let m2: u128 = if up { m + 1 } else { m };
    if e >= 2048 {
        proof {
            lemma_pow2_values();
        }
        return INF_BITS;
    }
    let base: u128 = if e >= 1 { (e - 1) as u128 } else { 0 };
    let mag: u128 = base * (HIDDEN_BIT as u128) + m2;
    if mag >= INF_BITS as u128 {
        INF_BITS
    } else {
        mag as u64
    }
}

/// Rounds a value between `n * 2^x` and `(n + 1) * 2^x` to the nearest number.
pub(crate) fn round(negative: bool, n: u128, x: i64, sticky: bool) -> (r: Scalar)
    requires
        n > 0,
        -0x100_0000_0000 <= x <= 0x100_0000_0000,
    ensures
        r == rounded(negative, n as nat, x as int, sticky),
        !r.nan(),
        r.negative() == negative,
{
    reveal(rounded);
    let (t, k) = normalize(n);
    let q: u64 = (t / TWO_64) as u64;
    let st: bool = sticky || t % TWO_64 != 0;
    let mag: u64 = round_magnitude(q, x - (k as i64) + 64, st);
    Scalar::signed(mag, negative)
}

/// What rounding gives has the sign that was asked for, and is no NaN.
pub proof fn lemma_rounded_has_sign(negative: bool, n: nat, x: int, sticky: bool)
    ensures
        rounded(negative, n, x, sticky).negative() == negative,
        !rounded(negative, n, x, sticky).nan(),
{
    reveal(rounded);
    reveal(rounded_magnitude);
}

} // verus!
