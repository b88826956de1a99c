//! Light sources.
use vstd::prelude::*;
use crate::coord::Vec3d;
use crate::scalar::Scalar;
use crate::scene::object::material::Color;

verus! {

/// Where a light is: everywhere, or at a point.
#[derive(Debug, Clone, Copy)]
pub enum LightType {
    AmbiantLight,
    PointLight { pos: Vec3d },
}

/// A light: its color, its intensity, and where it is.
#[derive(Debug, Clone, Copy)]
pub struct Light {
    pub color: Color,
    pub intensity: Scalar,
    pub light_type: LightType,
}

impl Light {
    /// What the light sends out: its color times its intensity.
    pub open spec fn spec_radiance(&self) -> Color {
        self.color.spec_scaled(self.intensity)
    }

    /// What the light sends out: its color times its intensity.
    #[verifier::when_used_as_spec(spec_radiance)]
    pub fn radiance(&self) -> (r: Color)
        ensures
            r == self.spec_radiance(),
    {
        self.color.scaled(self.intensity)
    }
}

} // verus!
