//! The arithmetic of binary64 numbers: each result is the exact result
//! rounded to the nearest number, ties to even.
use vstd::prelude::*;
use vstd::arithmetic::power2::*;
use vstd::arithmetic::div_mod::*;
use crate::scalar::{Scalar, INF_BITS, NAN_BITS, ONE_BITS};
use crate::scalar::round::{rounded, rounded_magnitude, round, lead, normalize, power_of_two, lemma_pow2_values, lemma_lead_bounds, lemma_lead_unique, TWO_127};

verus! {

impl Scalar {
    /// The product: the exact product of the two significands, rounded.
    #[verifier::opaque]
    pub open spec fn spec_times(self, rhs: Scalar) -> Scalar {
        let negative: bool = self.negative() != rhs.negative();
        if self.nan() || rhs.nan() {
            Scalar { bits: NAN_BITS }
        } else if self.infinite() || rhs.infinite() {
            if self.zero() || rhs.zero() {
                Scalar { bits: NAN_BITS }
            } else {
                Scalar::with_sign(INF_BITS as nat, negative)
            }
        } else if self.zero() || rhs.zero() {
            Scalar::with_sign(0, negative)
        } else {
            rounded(negative, self.sig() * rhs.sig(), self.exp() + rhs.exp(), false)
        }
    }

    /// Multiplies two numbers.
    #[verifier::when_used_as_spec(spec_times)]
    pub fn times(self, rhs: Scalar) -> (r: Scalar)
        ensures
            r == self.spec_times(rhs),
    {
        reveal(Scalar::spec_times);
        let negative: bool = self.is_negative() != rhs.is_negative();
        if self.is_nan() || rhs.is_nan() {
            Scalar::nan_value()
        } else if self.is_infinite() || rhs.is_infinite() {
            if self.is_zero() || rhs.is_zero() {
                Scalar::nan_value()
            } else {
                Scalar::signed(INF_BITS, negative)
            }
        } else if self.is_zero() || rhs.is_zero() {
            Scalar::signed(0, negative)
        } else {
            let a: u128 = self.significand() as u128;
            let b: u128 = rhs.significand() as u128;
            assert(0 < a * b < 0x1_0000_0000_0000_0000_0000_0000_0000) by (nonlinear_arith)
                requires
                    0 < a < 0x20_0000_0000_0000,
                    0 < b < 0x20_0000_0000_0000,
            ;
            round(negative, a * b, self.exponent() + rhs.exponent(), false)
        }
    }
}


/// Whether `s` is the integer square root of `n`.
pub open spec fn is_isqrt(s: nat, n: nat) -> bool {
    s * s <= n < (s + 1) * (s + 1)
}

/// The integer square root: the one `s` with `s * s <= n < (s + 1) * (s + 1)`.
pub open spec fn isqrt(n: nat) -> nat {
    choose|s: nat| is_isqrt(s, n)
}

pub proof fn lemma_isqrt_unique(n: nat, r: nat)
    requires
        r * r <= n < (r + 1) * (r + 1),
    ensures
        isqrt(n) == r,
{
    let s: nat = isqrt(n);
    assert(is_isqrt(r, n));
    assert(is_isqrt(s, n));
    assert(s == r) by (nonlinear_arith)
        requires
            s * s <= n < (s + 1) * (s + 1),
            r * r <= n < (r + 1) * (r + 1),
    ;
}

/// The integer square root by bisection on the bits of the result.
pub(crate) fn integer_sqrt(n: u128) -> (r: u128)
    ensures
        r == isqrt(n as nat),
        r * r <= n < (r + 1) * (r + 1),
        r < 0x1_0000_0000_0000_0000,
{
    let mut s: u128 = 0;
    let mut w: u128 = 0x1_0000_0000_0000_0000;
    let ghost mut j: nat = 64;
    proof {
        lemma_pow2_values();
        assert(n < (s + w) * (s + w)) by (nonlinear_arith)
            requires
                s == 0,
                w == 0x1_0000_0000_0000_0000,
                n < 0x1_0000_0000_0000_0000_0000_0000_0000_0000,
        ;
    }
    while w > 1
        invariant
            w == pow2(j),
            w >= 1,
            s + w <= 0x1_0000_0000_0000_0000,
            s * s <= n < (s + w) * (s + w),
        decreases w,
    {
        proof {
            if j == 0 {
                lemma_pow2_values();
            }
            lemma_pow2_unfold(j);
        }
        let b: u128 = w / 2;
        let t: u128 = s + b;
        assert(t * t < 0x1_0000_0000_0000_0000_0000_0000_0000_0000) by (nonlinear_arith)
            requires
                t < 0x1_0000_0000_0000_0000,
        ;
        if t * t <= n {
            s = t;
        }
        w = b;
        proof {
            j = (j - 1) as nat;
        }
    }
    proof {
        lemma_isqrt_unique(n as nat, s as nat);
    }
    s
}

impl Scalar {
    /// The quotient: the significand of the dividend, scaled to 128 bits,
    /// over that of the divisor, rounded; what is left over makes it inexact.
    #[verifier::opaque]
    pub open spec fn spec_over(self, rhs: Scalar) -> Scalar {
        let negative: bool = self.negative() != rhs.negative();
        if self.nan() || rhs.nan() {
            Scalar { bits: NAN_BITS }
        } else if self.infinite() {
            if rhs.infinite() {
                Scalar { bits: NAN_BITS }
            } else {
                Scalar::with_sign(INF_BITS as nat, negative)
            }
        } else if rhs.infinite() {
            Scalar::with_sign(0, negative)
        } else if rhs.zero() {
            if self.zero() {
                Scalar { bits: NAN_BITS }
            } else {
                Scalar::with_sign(INF_BITS as nat, negative)
            }
        } else if self.zero() {
            Scalar::with_sign(0, negative)
        } else {
            let k: nat = lead(self.sig());
            let a: nat = self.sig() * pow2(k);
            rounded(negative, a / rhs.sig(), self.exp() - k - rhs.exp(), a % rhs.sig() != 0)
        }
    }

    /// Divides one number by another.
    #[verifier::when_used_as_spec(spec_over)]
    pub fn over(self, rhs: Scalar) -> (r: Scalar)
        ensures
            r == self.spec_over(rhs),
    {
        reveal(Scalar::spec_over);
        let negative: bool = self.is_negative() != rhs.is_negative();
        if self.is_nan() || rhs.is_nan() {
            Scalar::nan_value()
        } else if self.is_infinite() {
            if rhs.is_infinite() {
                Scalar::nan_value()
            } else {
                Scalar::signed(INF_BITS, negative)
            }
        } else if rhs.is_infinite() {
            Scalar::signed(0, negative)
        } else if rhs.is_zero() {
            if self.is_zero() {
                Scalar::nan_value()
            } else {
                Scalar::signed(INF_BITS, negative)
            }
        } else if self.is_zero() {
            Scalar::signed(0, negative)
        } else {
            let (a, k) = normalize(self.significand() as u128);
            let b: u128 = rhs.significand() as u128;
            proof {
                lemma_div_non_zero(a as int, b as int);
            }
            round(negative, a / b, self.exponent() - (k as i64) - rhs.exponent(), a % b != 0)
        }
    }

    /// The same number with the opposite sign.
    pub open spec fn spec_negated(self) -> Scalar {
        Scalar::with_sign(self.mag(), !self.negative())
    }

    /// Flips the sign.
    #[verifier::when_used_as_spec(spec_negated)]
    pub fn negated(self) -> (r: Scalar)
        ensures
            r == self.spec_negated(),
    {
        Scalar::signed(self.magnitude(), !self.is_negative())
    }

    /// The same number with the sign cleared.
    pub open spec fn spec_abs(self) -> Scalar {
        Scalar { bits: self.mag() as u64 }
    }

    /// The absolute value.
    #[verifier::when_used_as_spec(spec_abs)]
    pub fn abs(self) -> (r: Scalar)
        ensures
            r == self.spec_abs(),
    {
        Scalar { bits: self.magnitude() }
    }

    /// The sum of two finite numbers that are not zero, the first of them
    /// at least as large in magnitude as the second. Up to 64 places apart
    /// the exact sum is rounded. Further apart, the smaller one lies below
    /// the last place of the larger shifted by twelve places, and only
    /// makes the result inexact: the sum lies between that significand,
    /// or the one before it, and the next.
    #[verifier::opaque]
    pub open spec fn sum_ordered(hi: Scalar, lo: Scalar) -> Scalar {
        let d: int = hi.exp() - lo.exp();
        let same: bool = hi.negative() == lo.negative();
        if d <= 64 {
            let big: nat = hi.sig() * pow2(d as nat);
            let n: int = if same { (big + lo.sig()) as int } else { big - lo.sig() };
            if n == 0 {
                Scalar { bits: 0 }
            } else {
                rounded(hi.negative(), n as nat, lo.exp(), false)
            }
        } else {
            let n: int = if same { (4096 * hi.sig()) as int } else { 4096 * hi.sig() - 1 };
            rounded(hi.negative(), n as nat, hi.exp() - 12, true)
        }
    }

    /// The sum: the exact sum, rounded. Opposite infinities give NaN, and
    /// two zeros give the negative zero only if both are negative.
    #[verifier::opaque]
    pub open spec fn spec_plus(self, rhs: Scalar) -> Scalar {
        if self.nan() || rhs.nan() {
            Scalar { bits: NAN_BITS }
        } else if self.infinite() {
            if rhs.infinite() && self.negative() != rhs.negative() {
                Scalar { bits: NAN_BITS }
            } else {
                self
            }
        } else if rhs.infinite() {
            rhs
        } else if self.zero() && rhs.zero() {
            Scalar::with_sign(0, self.negative() && rhs.negative())
        } else if self.zero() {
            rhs
        } else if rhs.zero() {
            self
        } else if self.mag() < rhs.mag() {
            Scalar::sum_ordered(rhs, self)
        } else {
            Scalar::sum_ordered(self, rhs)
        }
    }

    fn add_ordered(hi: Scalar, lo: Scalar) -> (r: Scalar)
        requires
            hi.finite(),
            lo.finite(),
            !lo.zero(),
            hi.mag() >= lo.mag(),
        ensures
            r == Scalar::sum_ordered(hi, lo),
    {
        reveal(Scalar::sum_ordered);
        let d: i64 = hi.exponent() - lo.exponent();
        let same: bool = hi.is_negative() == lo.is_negative();
        let a: u128 = hi.significand() as u128;
        let b: u128 = lo.significand() as u128;
        if d <= 64 {
            let p: u128 = power_of_two(d as u32);
            proof {
                lemma_pow2_values();
                if d < 64 {
                    lemma_pow2_strictly_increases(d as nat, 64);
                }
                if d > 0 {
                    lemma_pow2_strictly_increases(0, d as nat);
                }
            }
            assert(a * p < 0x20_0000_0000_0000_0000_0000_0000_0000 && (d > 0 ==> a * p >= 2 * a)
                && (d == 0 ==> a * p == a)) by (nonlinear_arith)
                requires
                    a < 0x20_0000_0000_0000,
                    1 <= p <= 0x1_0000_0000_0000_0000,
                    d > 0 ==> p >= 2,
                    d == 0 ==> p == 1,
            ;
            let big: u128 = a * p;
            if same {
                round(hi.is_negative(), big + b, lo.exponent(), false)
            } else if big == b {
                Scalar { bits: 0 }
            } else {
                round(hi.is_negative(), big - b, lo.exponent(), false)
            }
        } else {
            if same {
                round(hi.is_negative(), 4096 * a, hi.exponent() - 12, true)
            } else {
                round(hi.is_negative(), 4096 * a - 1, hi.exponent() - 12, true)
            }
        }
    }

    /// Adds two numbers.
    #[verifier::when_used_as_spec(spec_plus)]
    pub fn plus(self, rhs: Scalar) -> (r: Scalar)
        ensures
            r == self.spec_plus(rhs),
    {
        reveal(Scalar::spec_plus);
        if self.is_nan() || rhs.is_nan() {
            Scalar::nan_value()
        } else if self.is_infinite() {
            if rhs.is_infinite() && self.is_negative() != rhs.is_negative() {
                Scalar::nan_value()
            } else {
                self
            }
        } else if rhs.is_infinite() {
            rhs
        } else if self.is_zero() && rhs.is_zero() {
            Scalar::signed(0, self.is_negative() && rhs.is_negative())
        } else if self.is_zero() {
            rhs
        } else if rhs.is_zero() {
            self
        } else if self.magnitude() < rhs.magnitude() {
            Scalar::add_ordered(rhs, self)
        } else {
            Scalar::add_ordered(self, rhs)
        }
    }

    /// The difference: the sum with the negated subtrahend.
    pub open spec fn spec_minus(self, rhs: Scalar) -> Scalar {
        self.spec_plus(rhs.spec_negated())
    }

    /// Subtracts one number from another.
    #[verifier::when_used_as_spec(spec_minus)]
    pub fn minus(self, rhs: Scalar) -> (r: Scalar)
        ensures
            r == self.spec_minus(rhs),
    {
        self.plus(rhs.negated())
    }

    /// The square root: the integer square root of the significand, scaled
    /// to 127 or 128 bits so that the exponent is even, rounded; it is
    /// inexact where the significand is no perfect square.
    #[verifier::opaque]
    pub open spec fn spec_sqrt(self) -> Scalar {
        if self.nan() {
            Scalar { bits: NAN_BITS }
        } else if self.zero() {
            self
        } else if self.negative() {
            Scalar { bits: NAN_BITS }
        } else if self.infinite() {
            self
        } else {
            let k: nat = lead(self.sig());
            let a: nat = self.sig() * pow2(k);
            let x: int = self.exp() - k;
            let even: bool = x % 2 == 0;
            let n: nat = if even { a } else { a / 2 };
            let xe: int = if even { x } else { x + 1 };
            let s: nat = isqrt(n);
            rounded(false, s, xe / 2, s * s != n)
        }
    }

    /// The square root.
    #[verifier::when_used_as_spec(spec_sqrt)]
    pub fn sqrt(self) -> (r: Scalar)
        ensures
            r == self.spec_sqrt(),
    {
        reveal(Scalar::spec_sqrt);
        if self.is_nan() {
            Scalar::nan_value()
        } else if self.is_zero() {
            self
        } else if self.is_negative() {
            Scalar::nan_value()
        } else if self.is_infinite() {
            self
        } else {
            let (a, k) = normalize(self.significand() as u128);
            let x: i64 = self.exponent() - (k as i64);
            let even: bool = (x + 2000) % 2 == 0;
            let n: u128 = if even { a } else { a / 2 };
            let xe: i64 = if even { x } else { x + 1 };
            let s: u128 = integer_sqrt(n);
            assert(s > 0) by (nonlinear_arith)
                requires
                    n >= 1,
                    n < (s + 1) * (s + 1),
            ;
            let half: i64 = (xe + 2000) / 2 - 1000;
            round(false, s, half, s * s != n)
        }
    }
}

/// A finite number that is not zero, over itself, is 1.
pub proof fn lemma_over_self_is_one(m: Scalar)
    requires
        m.finite(),
        !m.zero(),
    ensures
        m.spec_over(m) == (Scalar { bits: ONE_BITS }),
{
    reveal(Scalar::spec_over);
    reveal(rounded);
    reveal(rounded_magnitude);
    lemma_pow2_values();
    let s: nat = m.sig();
    let k: nat = lead(s);
    lemma_lead_bounds(s);
    let p: nat = pow2(k);
    lemma_pow2_pos(k);
    assert(s * p == p * s) by (nonlinear_arith);
    lemma_div_multiples_vanish(p as int, s as int);
    lemma_mod_multiples_basic(p as int, s as int);
    assert((s * p) / s == p);
    assert((s * p) % s == 0);
    // the quotient is a power of two: shifted to the top it is 2^127
    lemma_pow2_adds(k, (127 - k) as nat);
    lemma_lead_unique(p, (127 - k) as nat);
    assert(lead(p) == 127 - k);
    assert(p * pow2((127 - k) as nat) == TWO_127);
}

} // verus!
