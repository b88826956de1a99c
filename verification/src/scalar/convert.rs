//! Conversions between integers and binary64 numbers.
use vstd::prelude::*;
use vstd::arithmetic::power2::*;
use vstd::arithmetic::div_mod::*;
use crate::scalar::Scalar;
use crate::scalar::round::{rounded, round, power_of_two, lemma_pow2_values};

verus! {

/// The pattern of `2^62`, beyond which no floor is taken.
pub const FLOOR_LIMIT_BITS: u64 = 0x43D0_0000_0000_0000;

/// The pattern of 256, from which on a byte saturates.
pub const BYTE_LIMIT_BITS: u64 = 0x4070_0000_0000_0000;

impl Scalar {
    /// The number nearest to an integer below `2^128` in magnitude.
    #[verifier::opaque]
    pub open spec fn of_int(n: int) -> Scalar {
        if n == 0 {
            Scalar { bits: 0 }
        } else if n < 0 {
            rounded(true, (-n) as nat, 0, false)
        } else {
            rounded(false, n as nat, 0, false)
        }
    }

    /// The whole number `a` times `2^x`, rounded: zero for zero.
    pub open spec fn scaled_whole(a: nat, x: int) -> Scalar {
        if a == 0 {
            Scalar { bits: 0 }
        } else {
            rounded(false, a, x, false)
        }
    }

    /// The number that stands for a 32-bit integer, which has its value.
    pub fn from_u32(n: u32) -> (r: Scalar)
        ensures
            r == Scalar::of_int(n as int),
    {
        reveal(Scalar::of_int);
        if n == 0 {
            Scalar { bits: 0 }
        } else {
            round(false, n as u128, 0, false)
        }
    }

    /// The number nearest to a 64-bit integer.
    pub fn from_i64(n: i64) -> (r: Scalar)
        ensures
            r == Scalar::of_int(n as int),
    {
        reveal(Scalar::of_int);
        if n == 0 {
            Scalar { bits: 0 }
        } else if n < 0 {
            round(true, (-(n as i128)) as u128, 0, false)
        } else {
            round(false, n as u128, 0, false)
        }
    }

    /// The number in `[0, 1)` that the upper 53 bits of `x` stand for: those
    /// bits as an integer, times `2^-53`.
    #[verifier::opaque]
    pub open spec fn unit_of(x: u64) -> Scalar {
        if x / 2048 == 0 {
            Scalar { bits: 0 }
        } else {
            rounded(false, (x / 2048) as nat, -53, false)
        }
    }

    /// Maps 64 uniform bits to a number in `[0, 1)`.
    pub fn unit_from(x: u64) -> (r: Scalar)
        ensures
            r == Scalar::unit_of(x),
    {
        reveal(Scalar::unit_of);
        let v: u64 = x / 2048;
        if v == 0 {
            Scalar { bits: 0 }
        } else {
            round(false, v as u128, -53, false)
        }
    }

    /// The largest integer at or below the magnitude of a finite number.
    pub open spec fn mag_floor(self) -> nat {
        if self.exp() >= 0 {
            self.sig() * pow2(self.exp() as nat)
        } else {
            self.sig() / pow2((-self.exp()) as nat)
        }
    }

    /// Whether a finite number is an integer.
    pub open spec fn integral(self) -> bool {
        self.exp() >= 0 || self.sig() % pow2((-self.exp()) as nat) == 0
    }

    /// The largest integer at or below a finite number.
    pub open spec fn spec_floor(self) -> int {
        if !self.negative() {
            self.mag_floor() as int
        } else if self.integral() {
            -(self.mag_floor() as int)
        } else {
            -(self.mag_floor() as int) - 1
        }
    }

    /// The magnitude's integer part, and whether nothing is left beside it.
    fn split(self) -> (r: (u64, bool))
        requires
            self.mag() < FLOOR_LIMIT_BITS,
        ensures
            r.0 == self.mag_floor(),
            r.1 == self.integral(),
            r.0 < 0x4000_0000_0000_0000,
    {
        let e: i64 = self.exponent();
        let s: u64 = self.significand();
        proof {
            lemma_pow2_values();
        }
        if e >= 0 {
            let p: u128 = power_of_two(e as u32);
            proof {
                if e < 9 {
                    lemma_pow2_strictly_increases(e as nat, 9);
                }
                lemma2_to64();
            }
            assert(s * p < 0x4000_0000_0000_0000) by (nonlinear_arith)
                requires
                    s < 0x20_0000_0000_0000,
                    p <= 512,
            ;
            ((s as u128 * p) as u64, true)
        } else if e <= -64 {
            proof {
                lemma_pow2_strictly_increases(53, (-e) as nat);
                lemma_small_mod(s as nat, pow2((-e) as nat));
                lemma_basic_div(s as int, pow2((-e) as nat) as int);
            }
            (0, s == 0)
        } else {
            let p: u128 = power_of_two((-e) as u32);
            proof {
                lemma_div_nonincreasing(s as int, p as int);
            }
            ((s as u128 / p) as u64, s as u128 % p == 0)
        }
    }

    /// The floor of a number below `2^62` in magnitude, and nothing for
    /// any other.
    pub fn floor(self) -> (r: Option<i64>)
        ensures
            r.is_some() == (self.mag() < FLOOR_LIMIT_BITS),
            r.is_some() ==> r.unwrap() == self.spec_floor(),
            r.is_some() ==> -0x4000_0000_0000_0000 <= r.unwrap() < 0x4000_0000_0000_0000,
    {
        if self.magnitude() >= FLOOR_LIMIT_BITS {
            return None;
        }
        let (v, whole) = self.split();
        if !self.is_negative() {
            Some(v as i64)
        } else if whole {
            Some(-(v as i64))
        } else {
            Some(-(v as i64) - 1)
        }
    }

    /// The byte that a number becomes: NaN and what is negative give 0,
    /// what is 256 or more gives 255, and the rest loses its fraction.
    pub open spec fn spec_to_byte(self) -> u8 {
        if self.nan() || self.negative() {
            0
        } else if self.mag() >= BYTE_LIMIT_BITS {
            255
        } else {
            self.mag_floor() as u8
        }
    }

    /// Converts to a byte, saturating at both ends.
    #[verifier::when_used_as_spec(spec_to_byte)]
    pub fn to_byte(self) -> (r: u8)
        ensures
            r == self.spec_to_byte(),
    {
        if self.is_nan() || self.is_negative() {
            0
        } else if self.magnitude() >= BYTE_LIMIT_BITS {
            255
        } else {
            let (v, _whole) = self.split();
            proof {
                lemma_byte_range(self);
            }
            v as u8
        }
    }
}

proof fn lemma_byte_range(a: Scalar)
    requires
        a.mag() < BYTE_LIMIT_BITS,
    ensures
        a.mag_floor() < 256,
{
    lemma2_to64_rest();
    let k: nat = (-a.exp()) as nat;
    assert(k >= 45);
    if k > 45 {
        lemma_pow2_strictly_increases(45, k);
    }
    lemma_div_is_ordered_by_denominator(a.sig() as int, pow2(45) as int, pow2(k) as int);
}

} // verus!
