//! `+` and `*` on colors.
use vstd::prelude::*;
use vstd::std_specs::ops::{AddSpecImpl, MulSpecImpl};
use core::ops::{Add, Mul};
use crate::scalar::Scalar;
use crate::scene::object::material::Color;

verus! {

impl Add<Color> for Color {
    type Output = Color;

    fn add(self, rhs: Color) -> (r: Color) {
        self.plus(rhs)
    }
}

impl AddSpecImpl<Color> for Color {
    open spec fn obeys_add_spec() -> bool {
        true
    }

    open spec fn add_req(self, rhs: Color) -> bool {
        true
    }

    open spec fn add_spec(self, rhs: Color) -> Color {
        self.spec_plus(rhs)
    }
}

impl Mul<Color> for Color {
    type Output = Color;

    fn mul(self, rhs: Color) -> (r: Color) {
        self.times(rhs)
    }
}

impl MulSpecImpl<Color> for Color {
    open spec fn obeys_mul_spec() -> bool {
        true
    }

    open spec fn mul_req(self, rhs: Color) -> bool {
        true
    }

    open spec fn mul_spec(self, rhs: Color) -> Color {
        self.spec_times(rhs)
    }
}

impl Mul<Scalar> for Color {
    type Output = Color;

    fn mul(self, rhs: Scalar) -> (r: Color) {
        self.scaled(rhs)
    }
}

impl MulSpecImpl<Scalar> for Color {
    open spec fn obeys_mul_spec() -> bool {
        true
    }

    open spec fn mul_req(self, rhs: Scalar) -> bool {
        true
    }

    open spec fn mul_spec(self, rhs: Scalar) -> Color {
        self.spec_scaled(rhs)
    }
}

impl Mul<Color> for Scalar {
    type Output = Color;

    fn mul(self, rhs: Color) -> (r: Color) {
        rhs.scaled(self)
    }
}

impl MulSpecImpl<Color> for Scalar {
    open spec fn obeys_mul_spec() -> bool {
        true
    }

    open spec fn mul_req(self, rhs: Color) -> bool {
        true
    }

    open spec fn mul_spec(self, rhs: Color) -> Color {
        rhs.spec_scaled(self)
    }
}

} // verus!
