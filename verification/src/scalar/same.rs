//! `==` on binary64 numbers: equality as numbers, not as patterns.
use vstd::prelude::*;
use vstd::std_specs::cmp::PartialEqSpecImpl;
use crate::scalar::Scalar;

verus! {

impl PartialEq for Scalar {
    fn eq(&self, other: &Scalar) -> (r: bool) {
        self.equals(*other)
    }
}

impl PartialEqSpecImpl for Scalar {
    open spec fn obeys_eq_spec() -> bool {
        true
    }

    open spec fn eq_spec(&self, other: &Scalar) -> bool {
        self.spec_equals(*other)
    }
}

} // verus!
