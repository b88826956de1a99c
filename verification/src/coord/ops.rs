//! `+`, `-`, `*` and `/` on points and directions.
use vstd::prelude::*;
use vstd::std_specs::ops::{AddSpecImpl, SubSpecImpl, MulSpecImpl, DivSpecImpl};
use core::ops::{Add, Sub, Mul, Div};
use crate::coord::Vec3d;
use crate::scalar::Scalar;

verus! {

impl Add<&Vec3d> for &Vec3d {
    type Output = Vec3d;

    fn add(self, rhs: &Vec3d) -> (r: Vec3d) {
        self.plus(*rhs)
    }
}

impl AddSpecImpl<&Vec3d> for &Vec3d {
    open spec fn obeys_add_spec() -> bool {
        true
    }

    open spec fn add_req(self, rhs: &Vec3d) -> bool {
        true
    }

    open spec fn add_spec(self, rhs: &Vec3d) -> Vec3d {
        self.spec_plus(*rhs)
    }
}

impl Sub<&Vec3d> for &Vec3d {
    type Output = Vec3d;

    fn sub(self, rhs: &Vec3d) -> (r: Vec3d) {
        self.minus(*rhs)
    }
}

impl SubSpecImpl<&Vec3d> for &Vec3d {
    open spec fn obeys_sub_spec() -> bool {
        true
    }

    open spec fn sub_req(self, rhs: &Vec3d) -> bool {
        true
    }

    open spec fn sub_spec(self, rhs: &Vec3d) -> Vec3d {
        self.spec_minus(*rhs)
    }
}

impl Mul<Scalar> for &Vec3d {
    type Output = Vec3d;

    fn mul(self, rhs: Scalar) -> (r: Vec3d) {
        self.times(rhs)
    }
}

impl MulSpecImpl<Scalar> for &Vec3d {
    open spec fn obeys_mul_spec() -> bool {
        true
    }

    open spec fn mul_req(self, rhs: Scalar) -> bool {
        true
    }

    open spec fn mul_spec(self, rhs: Scalar) -> Vec3d {
        self.spec_times(rhs)
    }
}

impl Mul<&Vec3d> for Scalar {
    type Output = Vec3d;

    fn mul(self, rhs: &Vec3d) -> (r: Vec3d) {
        rhs.times(self)
    }
}

impl MulSpecImpl<&Vec3d> for Scalar {
    open spec fn obeys_mul_spec() -> bool {
        true
    }

    open spec fn mul_req(self, rhs: &Vec3d) -> bool {
        true
    }

    open spec fn mul_spec(self, rhs: &Vec3d) -> Vec3d {
        rhs.spec_times(self)
    }
}

impl Div<Scalar> for &Vec3d {
    type Output = Vec3d;

    fn div(self, rhs: Scalar) -> (r: Vec3d) {
        self.over(rhs)
    }
}

impl DivSpecImpl<Scalar> for &Vec3d {
    open spec fn obeys_div_spec() -> bool {
        true
    }

    open spec fn div_req(self, rhs: Scalar) -> bool {
        true
    }

    open spec fn div_spec(self, rhs: Scalar) -> Vec3d {
        self.spec_over(rhs)
    }
}

} // verus!
