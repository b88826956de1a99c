//! IEEE 754 binary64 numbers held as bit patterns, and their arithmetic in
//! integers.
//!
//! A [`Scalar`] is the 64-bit pattern of a binary64 number: one sign bit,
//! eleven exponent bits and fifty-two fraction bits. Every finite pattern
//! stands for the rational `sig * 2^exp`, with `sig` below `2^53`.
//!
//! Sum, difference, product, quotient and square root are each the exact
//! result, rounded once to the nearest number, ties to even. What each
//! returns is stated as a function of the patterns; the laws of `value`
//! and `nearest` say what that means for the values: that numbers are
//! ordered as their values are, and that no finite number is nearer to
//! the exact sum, difference, product, quotient or square root than the
//! one returned, nor to a decimal number than the one read for it. Sine,
//! cosine and arc cosine are fixed sequences of these
//! operations, near to the functions they are named after but not the
//! nearest numbers to them.
use vstd::prelude::*;

pub mod round;
pub mod arith;
pub mod order;
pub mod convert;
pub mod trig;
pub mod same;
pub mod decimal;
pub mod value;
pub mod nearest;
pub mod wide;

verus! {

/// The sign bit of a pattern.
pub const SIGN_MASK: u64 = 0x8000_0000_0000_0000;

/// The pattern of positive infinity: all exponent bits set, no fraction bit.
pub const INF_BITS: u64 = 0x7FF0_0000_0000_0000;

/// The pattern of the quiet not-a-number that every invalid operation returns.
pub const NAN_BITS: u64 = 0x7FF8_0000_0000_0000;

/// The implicit leading bit of a normal number's significand, `2^52`.
pub const HIDDEN_BIT: u64 = 0x0010_0000_0000_0000;

/// The pattern of 1.
pub const ONE_BITS: u64 = 0x3FF0_0000_0000_0000;

/// The pattern of -1.
pub const NEG_ONE_BITS: u64 = 0xBFF0_0000_0000_0000;

/// The pattern of 2.
pub const TWO_BITS: u64 = 0x4000_0000_0000_0000;

/// The pattern of 4.
pub const FOUR_BITS: u64 = 0x4010_0000_0000_0000;

/// The pattern of 0.5.
pub const HALF_BITS: u64 = 0x3FE0_0000_0000_0000;

/// The pattern of the number nearest to pi.
pub const PI_BITS: u64 = 0x4009_21FB_5444_2D18;

/// The pattern of the number nearest to pi / 2.
pub const HALF_PI_BITS: u64 = 0x3FF9_21FB_5444_2D18;

/// A binary64 number, held as its bit pattern.
#[derive(Clone, Copy, Debug)]
pub struct Scalar {
    pub bits: u64,
}

impl Scalar {
    /// The pattern without its sign bit.
    pub open spec fn mag(self) -> nat {
        (self.bits % SIGN_MASK) as nat
    }

    /// Whether the sign bit is set.
    pub open spec fn negative(self) -> bool {
        self.bits >= SIGN_MASK
    }

    /// Whether the pattern is a not-a-number.
    pub open spec fn nan(self) -> bool {
        self.mag() > INF_BITS
    }

    /// Whether the pattern is an infinity.
    pub open spec fn infinite(self) -> bool {
        self.mag() == INF_BITS
    }

    /// Whether the pattern is a zero of either sign.
    pub open spec fn zero(self) -> bool {
        self.mag() == 0
    }

    /// Whether the pattern stands for a rational number.
    pub open spec fn finite(self) -> bool {
        self.mag() < INF_BITS
    }

    /// The significand of a finite pattern: the fraction bits, with the
    /// implicit leading bit unless the exponent field is zero.
    pub open spec fn sig(self) -> nat {
        if self.mag() < HIDDEN_BIT {
            self.mag()
        } else {
            (self.mag() % (HIDDEN_BIT as nat) + HIDDEN_BIT) as nat
        }
    }

    /// The exponent of a finite pattern, so that its value is `sig * 2^exp`.
    pub open spec fn exp(self) -> int {
        if self.mag() < HIDDEN_BIT {
            -1074
        } else {
            self.mag() / (HIDDEN_BIT as nat) - 1075
        }
    }

    /// The signed pattern by which two numbers that are not NaN are ordered:
    /// both zeros give 0, and a larger number gives a larger key.
    pub open spec fn key(self) -> int {
        if self.negative() {
            -(self.mag() as int)
        } else {
            self.mag() as int
        }
    }

    /// The same magnitude with the given sign.
    pub open spec fn with_sign(mag: nat, negative: bool) -> Scalar {
        Scalar { bits: (if negative { mag + SIGN_MASK } else { mag as int }) as u64 }
    }

    /// The number with this bit pattern.
    pub open spec fn spec_from_bits(bits: u64) -> Scalar {
        Scalar { bits }
    }

    /// The number with this bit pattern.
    #[verifier::when_used_as_spec(spec_from_bits)]
    pub fn from_bits(bits: u64) -> (r: Scalar)
        ensures
            r == Scalar::spec_from_bits(bits),
    {
        Scalar { bits }
    }

    /// The bit pattern of the number.
    pub fn to_bits(self) -> (r: u64)
        ensures
            r == self.bits,
    {
        self.bits
    }

    /// The quiet not-a-number.
    pub fn nan_value() -> (r: Scalar)
        ensures
            r.bits == NAN_BITS,
            r.nan(),
    {
        Scalar { bits: NAN_BITS }
    }

    pub(crate) fn magnitude(self) -> (r: u64)
        ensures
            r == self.mag(),
            r < SIGN_MASK,
    {
        self.bits % SIGN_MASK
    }

    pub(crate) fn signed(mag: u64, negative: bool) -> (r: Scalar)
        requires
            mag < SIGN_MASK,
        ensures
            r == Scalar::with_sign(mag as nat, negative),
            r.mag() == mag,
            r.negative() == negative,
    {
        if negative {
            Scalar { bits: mag + SIGN_MASK }
        } else {
            Scalar { bits: mag }
        }
    }

    pub(crate) fn significand(self) -> (r: u64)
        ensures
            r == self.sig(),
            r < 2 * HIDDEN_BIT,
            self.mag() != 0 && self.finite() ==> r > 0,
    {
        let m: u64 = self.magnitude();
        if m < HIDDEN_BIT {
            m
        } else {
            m % HIDDEN_BIT + HIDDEN_BIT
        }
    }

    pub(crate) fn exponent(self) -> (r: i64)
        ensures
            r == self.exp(),
            -1074 <= r <= 972,
    {
        let m: u64 = self.magnitude();
        if m < HIDDEN_BIT {
            -1074
        } else {
            (m / HIDDEN_BIT) as i64 - 1075
        }
    }

    /// Whether the sign bit is set.
    pub fn is_negative(self) -> (r: bool)
        ensures
            r == self.negative(),
    {
        self.bits >= SIGN_MASK
    }

    /// Whether the number is a not-a-number.
    pub fn is_nan(self) -> (r: bool)
        ensures
            r == self.nan(),
    {
        self.magnitude() > INF_BITS
    }

    /// Whether the number is an infinity.
    pub fn is_infinite(self) -> (r: bool)
        ensures
            r == self.infinite(),
    {
        self.magnitude() == INF_BITS
    }

    /// Whether the number is neither an infinity nor a not-a-number.
    pub fn is_finite(self) -> (r: bool)
        ensures
            r == self.finite(),
    {
        self.magnitude() < INF_BITS
    }

    /// Whether the number is a zero of either sign.
    pub fn is_zero(self) -> (r: bool)
        ensures
            r == self.zero(),
    {
        self.magnitude() == 0
    }
}

} // verus!
