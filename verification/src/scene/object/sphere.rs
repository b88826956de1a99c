//! Spheres.
use vstd::prelude::*;
use crate::coord::Vec3d;
use crate::error::GeometryError;
use crate::scalar::{Scalar, TWO_BITS, FOUR_BITS};
use crate::scene::camera::Ray;
use crate::scene::object::Intersect;
use crate::scene::object::material::Material;

verus! {

/// A sphere: its centre, its radius and its material.
#[derive(Debug, Clone, Copy)]
pub struct Sphere {
    pub center: Vec3d,
    pub radius: Scalar,
    pub material: Material,
}

/// The root of `a x^2 + b x + c = 0` that `solve_quadratic` returns: the
/// lower root where it is not negative, else the upper one where that is
/// not negative; the two swap places where `a` is not above zero. Nothing
/// where the discriminant is negative or both roots are.
#[verifier::opaque]
pub open spec fn quadratic_root(a: Scalar, b: Scalar, c: Scalar) -> Option<Scalar> {
    let zero: Scalar = Scalar { bits: 0 };
    let delta: Scalar = b.times(b).minus(Scalar::from_bits(FOUR_BITS).times(a).times(c));
    let root: Scalar = delta.sqrt();
    let twice: Scalar = Scalar::from_bits(TWO_BITS).times(a);
    let below: Scalar = b.negated().minus(root).over(twice);
    let above: Scalar = b.negated().plus(root).over(twice);
    let first: Scalar = if a.greater(zero) { below } else { above };
    let second: Scalar = if a.greater(zero) { above } else { below };
    if delta.less(zero) {
        None
    } else if first.greater_eq(zero) {
        Some(first)
    } else if second.less(zero) {
        None
    } else {
        Some(second)
    }
}

/// Solves `a x^2 + b x + c = 0` for the smallest root that is not negative.
pub fn solve_quadratic(a: Scalar, b: Scalar, c: Scalar) -> (r: Option<Scalar>)
    ensures
        r == quadratic_root(a, b, c),
{
    reveal(quadratic_root);
    let zero: Scalar = Scalar { bits: 0 };
    let delta: Scalar = b.times(b).minus(Scalar::from_bits(FOUR_BITS).times(a).times(c));
    if delta.less(zero) {
        return None;
    }
    let root: Scalar = delta.sqrt();
    let twice: Scalar = Scalar::from_bits(TWO_BITS).times(a);
    let below: Scalar = b.negated().minus(root).over(twice);
    let above: Scalar = b.negated().plus(root).over(twice);
    let first: Scalar = if a.greater(zero) { below } else { above };
    if first.greater_eq(zero) {
        Some(first)
    } else {
        let second: Scalar = if a.greater(zero) { above } else { below };
        if second.less(zero) {
            None
        } else {
            Some(second)
        }
    }
}

impl Sphere {
    /// Builds a sphere. It is refused where a coordinate of the centre or
    /// the radius is NaN, and else where the radius is not above zero.
    pub fn new(center: Vec3d, radius: Scalar, material: Material) -> (r: Result<
        Sphere,
        GeometryError,
    >)
        ensures
            center.has_nan() || radius.nan() ==> r == Err::<Sphere, GeometryError>(
                GeometryError::NotANumber,
            ),
            !center.has_nan() && !radius.nan() && !radius.greater(Scalar { bits: 0 }) ==> r == Err::<
                Sphere,
                GeometryError,
            >(GeometryError::NonPositiveRadius),
            !center.has_nan() && radius.greater(Scalar { bits: 0 }) ==> r == Ok::<
                Sphere,
                GeometryError,
            >(Sphere { center, radius, material }),
    {
        if center.has_nan() || radius.is_nan() {
            Err(GeometryError::NotANumber)
        } else if !radius.greater(Scalar { bits: 0 }) {
            Err(GeometryError::NonPositiveRadius)
        } else {
            Ok(Sphere { center, radius, material })
        }
    }

    /// Where the ray meets the sphere. With `o` the start of the ray less
    /// the centre and `d` its direction, the distance is the root of
    /// `|d|^2 k^2 + 2 (o . d) k + |o|^2 - r^2 = 0` that `quadratic_root`
    /// gives. There is no hit where there is no such root, where it is not
    /// above zero, or where the point it gives is the centre itself.
    #[verifier::opaque]
    pub open spec fn spec_intersect(&self, ray: &Ray) -> Option<Intersect> {
        let from_center: Vec3d = ray.start.minus(self.center);
        let a: Scalar = ray.dir.normsq();
        let b: Scalar = Scalar::from_bits(TWO_BITS).times(from_center.dot(ray.dir));
        let c: Scalar = from_center.normsq().minus(self.radius.times(self.radius));
        match quadratic_root(a, b, c) {
            None => None,
            Some(dist) => {
                let pos: Vec3d = ray.start.plus(ray.dir.times(dist));
                match pos.minus(self.center).normalize() {
                    Some(normal) if dist.greater(Scalar { bits: 0 }) => Some(
                        Intersect { pos, dist, normal, material: self.material },
                    ),
                    _ => None,
                }
            },
        }
    }

    /// The nearest point, strictly ahead of its start, where the ray meets
    /// the sphere.
    #[verifier::when_used_as_spec(spec_intersect)]
    pub fn intersect(&self, ray: &Ray) -> (r: Option<Intersect>)
        ensures
            r == self.spec_intersect(ray),
            r.is_some() ==> r.unwrap().dist.greater(Scalar { bits: 0 }) && r.unwrap().material
                == self.material,
    {
        reveal(Sphere::spec_intersect);
        let from_center: Vec3d = ray.start.minus(self.center);
        let a: Scalar = ray.dir.normsq();
        let b: Scalar = Scalar::from_bits(TWO_BITS).times(from_center.dot(ray.dir));
        let c: Scalar = from_center.normsq().minus(self.radius.times(self.radius));
        match solve_quadratic(a, b, c) {
            None => None,
            Some(dist) => {
                if !dist.greater(Scalar { bits: 0 }) {
                    return None;
                }
                let pos: Vec3d = ray.start.plus(ray.dir.times(dist));
                match pos.minus(self.center).normalize() {
                    Some(normal) => Some(Intersect { pos, dist, normal, material: self.material }),
                    None => None,
                }
            },
        }
    }
}

/// A hit on a sphere lies strictly ahead of the start of the ray, and has
/// the material of the sphere.
pub proof fn lemma_sphere_hit_ahead(sphere: &Sphere, ray: &Ray)
    ensures
        sphere.spec_intersect(ray) matches Some(h) ==> h.dist.greater(Scalar { bits: 0 })
            && h.material == sphere.material,
{
    reveal(Sphere::spec_intersect);
}

} // verus!
