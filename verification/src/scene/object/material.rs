//! Colors and the materials of surfaces.
use vstd::prelude::*;
use crate::scalar::{Scalar, ONE_BITS};

pub mod ops;

verus! {

/// A color: three channels that are free to leave `[0, 1]` while light is
/// summed up.
#[derive(Debug, PartialEq, Clone, Copy)]
pub struct Color {
    pub r: Scalar,
    pub g: Scalar,
    pub b: Scalar,
}

/// How a surface answers light. `reflectivity` is the share of the light,
/// between 0 and 1, that goes to reflection and highlight instead of the
/// diffuse term; `roughness`, above 0, widens both the highlight and the
/// cone in which a reflected ray is scattered.
#[derive(Debug, PartialEq, Clone, Copy)]
pub struct Material {
    pub diffuse: Color,
    pub specular: Color,
    pub reflectivity: Scalar,
    pub roughness: Scalar,
}

impl Color {
    /// No light at all.
    pub open spec fn spec_black() -> Color {
        Color { r: Scalar { bits: 0 }, g: Scalar { bits: 0 }, b: Scalar { bits: 0 } }
    }

    /// No light at all.
    #[verifier::when_used_as_spec(spec_black)]
    pub fn black() -> (r: Color)
        ensures
            r == Color::spec_black(),
    {
        Color { r: Scalar { bits: 0 }, g: Scalar { bits: 0 }, b: Scalar { bits: 0 } }
    }

    /// The sum, channel by channel.
    pub open spec fn spec_plus(self, other: Color) -> Color {
        Color { r: self.r.plus(other.r), g: self.g.plus(other.g), b: self.b.plus(other.b) }
    }

    /// The sum of two colors.
    #[verifier::when_used_as_spec(spec_plus)]
    pub fn plus(self, other: Color) -> (r: Color)
        ensures
            r == self.spec_plus(other),
    {
        Color { r: self.r.plus(other.r), g: self.g.plus(other.g), b: self.b.plus(other.b) }
    }

    /// The product, channel by channel.
    pub open spec fn spec_times(self, other: Color) -> Color {
        Color { r: self.r.times(other.r), g: self.g.times(other.g), b: self.b.times(other.b) }
    }

    /// A color seen through another: the product channel by channel.
    #[verifier::when_used_as_spec(spec_times)]
    pub fn times(self, other: Color) -> (r: Color)
        ensures
            r == self.spec_times(other),
    {
        Color { r: self.r.times(other.r), g: self.g.times(other.g), b: self.b.times(other.b) }
    }

    /// Each channel times `k`.
    pub open spec fn spec_scaled(self, k: Scalar) -> Color {
        Color { r: self.r.times(k), g: self.g.times(k), b: self.b.times(k) }
    }

    /// The color at `k` times its strength.
    #[verifier::when_used_as_spec(spec_scaled)]
    pub fn scaled(self, k: Scalar) -> (r: Color)
        ensures
            r == self.spec_scaled(k),
    {
        Color { r: self.r.times(k), g: self.g.times(k), b: self.b.times(k) }
    }
}

impl Material {
    /// A black surface that reflects nothing, of roughness 1.
    pub fn default() -> (r: Material)
        ensures
            r.diffuse == Color::spec_black(),
            r.specular == Color::spec_black(),
            r.reflectivity.bits == 0,
            r.roughness.bits == ONE_BITS,
    {
        Material {
            diffuse: Color::black(),
            specular: Color::black(),
            reflectivity: Scalar { bits: 0 },
            roughness: Scalar { bits: ONE_BITS },
        }
    }
}

} // verus!
