//! The order of binary64 numbers: NaN is unordered, the two zeros are equal,
//! and every other pair is ordered as the signed magnitudes are.
use vstd::prelude::*;
use crate::scalar::Scalar;

verus! {

impl Scalar {
    /// Strictly less: false as soon as either side is NaN.
    pub open spec fn spec_less(self, rhs: Scalar) -> bool {
        !self.nan() && !rhs.nan() && self.key() < rhs.key()
    }

    /// Less or equal: false as soon as either side is NaN.
    pub open spec fn spec_less_eq(self, rhs: Scalar) -> bool {
        !self.nan() && !rhs.nan() && self.key() <= rhs.key()
    }

    /// Equal as numbers: a NaN equals nothing, and the zeros equal each other.
    pub open spec fn spec_equals(self, rhs: Scalar) -> bool {
        !self.nan() && !rhs.nan() && self.key() == rhs.key()
    }

    /// Strictly greater: false as soon as either side is NaN.
    pub open spec fn spec_greater(self, rhs: Scalar) -> bool {
        rhs.spec_less(self)
    }

    /// Greater or equal: false as soon as either side is NaN.
    pub open spec fn spec_greater_eq(self, rhs: Scalar) -> bool {
        rhs.spec_less_eq(self)
    }

    /// The larger of two numbers; a NaN gives way to the other side.
    pub open spec fn spec_max(self, rhs: Scalar) -> Scalar {
        if self.nan() {
            rhs
        } else if rhs.nan() {
            self
        } else if self.key() < rhs.key() {
            rhs
        } else {
            self
        }
    }

    pub(crate) fn order_key(self) -> (r: i64)
        ensures
            r == self.key(),
    {
        let m: u64 = self.magnitude();
        if self.is_negative() {
            -(m as i64)
        } else {
            m as i64
        }
    }

    /// Whether `self < rhs`.
    #[verifier::when_used_as_spec(spec_less)]
    pub fn less(self, rhs: Scalar) -> (r: bool)
        ensures
            r == self.spec_less(rhs),
    {
        !self.is_nan() && !rhs.is_nan() && self.order_key() < rhs.order_key()
    }

    /// Whether `self <= rhs`.
    #[verifier::when_used_as_spec(spec_less_eq)]
    pub fn less_eq(self, rhs: Scalar) -> (r: bool)
        ensures
            r == self.spec_less_eq(rhs),
    {
        !self.is_nan() && !rhs.is_nan() && self.order_key() <= rhs.order_key()
    }

    /// Whether `self == rhs` as numbers.
    #[verifier::when_used_as_spec(spec_equals)]
    pub fn equals(self, rhs: Scalar) -> (r: bool)
        ensures
            r == self.spec_equals(rhs),
    {
        !self.is_nan() && !rhs.is_nan() && self.order_key() == rhs.order_key()
    }

    /// Whether `self > rhs`.
    #[verifier::when_used_as_spec(spec_greater)]
    pub fn greater(self, rhs: Scalar) -> (r: bool)
        ensures
            r == self.spec_greater(rhs),
    {
        rhs.less(self)
    }

    /// Whether `self >= rhs`.
    #[verifier::when_used_as_spec(spec_greater_eq)]
    pub fn greater_eq(self, rhs: Scalar) -> (r: bool)
        ensures
            r == self.spec_greater_eq(rhs),
    {
        rhs.less_eq(self)
    }

    /// The larger of two numbers.
    #[verifier::when_used_as_spec(spec_max)]
    pub fn max(self, rhs: Scalar) -> (r: Scalar)
        ensures
            r == self.spec_max(rhs),
    {
        if self.is_nan() {
            rhs
        } else if rhs.is_nan() {
            self
        } else if self.order_key() < rhs.order_key() {
            rhs
        } else {
            self
        }
    }
}

} // verus!
