//! Triangular faces, seen from their front side only.
use vstd::prelude::*;
use crate::coord::Vec3d;
use crate::error::GeometryError;
use crate::scalar::Scalar;
use crate::scene::camera::Ray;
use crate::scene::object::Intersect;
use crate::scene::object::material::{Color, Material};
use crate::scalar::ONE_BITS;

verus! {

/// A triangle: its corners `a`, `b`, `c`, its unit normal, and for each
/// edge the vector in the plane of the triangle, orthogonal to the edge,
/// that points to the inside.
#[derive(Debug, Clone, Copy)]
pub struct Face {
    pub a: Vec3d,
    pub b: Vec3d,
    pub c: Vec3d,
    pub normal: Vec3d,
    pub inside_ab: Vec3d,
    pub inside_bc: Vec3d,
    pub inside_ca: Vec3d,
}

impl Face {
    /// The unit normal of the triangle `a`, `b`, `c`: the vector product of
    /// `b - a` and `b - c`, at length one.
    pub open spec fn spec_compute_normal(a: Vec3d, b: Vec3d, c: Vec3d) -> Option<Vec3d> {
        b.minus(a).cross(b.minus(c)).normalize()
    }

    /// The unit normal of the triangle `a`, `b`, `c`; a triangle without
    /// area has none.
    #[verifier::when_used_as_spec(spec_compute_normal)]
    pub fn compute_normal(a: Vec3d, b: Vec3d, c: Vec3d) -> (r: Option<Vec3d>)
        ensures
            r == Face::spec_compute_normal(a, b, c),
    {
        b.minus(a).cross(b.minus(c)).normalize()
    }

    /// The face with corners `a`, `b`, `c` and unit normal `normal`.
    pub open spec fn with_normal(a: Vec3d, b: Vec3d, c: Vec3d, normal: Vec3d) -> Face {
        Face {
            a,
            b,
            c,
            normal,
            inside_ab: b.minus(a).cross(normal),
            inside_bc: c.minus(b).cross(normal),
            inside_ca: a.minus(c).cross(normal),
        }
    }

    /// Builds the face with corners `a`, `b`, `c`. It is refused where a
    /// coordinate of a corner is NaN, and else as degenerate where the
    /// triangle has no normal.
    pub fn new(a: Vec3d, b: Vec3d, c: Vec3d) -> (r: Result<Face, GeometryError>)
        ensures
            a.has_nan() || b.has_nan() || c.has_nan() ==> r == Err::<Face, GeometryError>(
                GeometryError::NotANumber,
            ),
            !a.has_nan() && !b.has_nan() && !c.has_nan() ==> match Face::spec_compute_normal(a, b, c) {
                Some(n) => r == Ok::<Face, GeometryError>(Face::with_normal(a, b, c, n)),
                None => r == Err::<Face, GeometryError>(GeometryError::Degenerate),
            },
    {
        if a.has_nan() || b.has_nan() || c.has_nan() {
            return Err(GeometryError::NotANumber);
        }
        match Face::compute_normal(a, b, c) {
            Some(normal) => Ok(
                Face {
                    a,
                    b,
                    c,
                    normal,
                    inside_ab: b.minus(a).cross(normal),
                    inside_bc: c.minus(b).cross(normal),
                    inside_ca: a.minus(c).cross(normal),
                },
            ),
            None => Err(GeometryError::Degenerate),
        }
    }

    /// The material that a face gives to a hit before the mesh puts its own
    /// in its place.
    pub open spec fn blank() -> Material {
        Material {
            diffuse: Color::spec_black(),
            specular: Color::spec_black(),
            reflectivity: Scalar { bits: 0 },
            roughness: Scalar { bits: ONE_BITS },
        }
    }

    /// The distance along the ray at which it meets the plane of the face.
    pub open spec fn plane_distance(&self, ray: &Ray) -> Scalar {
        self.normal.dot(self.a.minus(ray.start)).over(self.normal.dot(ray.dir))
    }

    /// Whether `p`, a point of the plane of the face, lies in the triangle,
    /// its edges included.
    pub open spec fn holds(&self, p: Vec3d) -> bool {
        let zero: Scalar = Scalar { bits: 0 };
        self.inside_ab.dot(p.minus(self.a)).greater_eq(zero) && self.inside_bc.dot(
            p.minus(self.b),
        ).greater_eq(zero) && self.inside_ca.dot(p.minus(self.c)).greater_eq(zero)
    }

    /// Where the ray meets the face. There is a hit where the ray runs
    /// against the normal, meets the plane strictly ahead of its start, and
    /// does so in the triangle.
    #[verifier::opaque]
    pub open spec fn spec_intersect(&self, ray: &Ray) -> Option<Intersect> {
        let zero: Scalar = Scalar { bits: 0 };
        let dist: Scalar = self.plane_distance(ray);
        let pos: Vec3d = ray.start.plus(ray.dir.times(dist));
        if ray.dir.dot(self.normal).less(zero) && dist.greater(zero) && self.holds(pos) {
            Some(Intersect { pos, dist, normal: self.normal, material: Face::blank() })
        } else {
            None
        }
    }

    /// The point where the ray meets the front side of the face. A ray
    /// that does not run against the normal, and so would meet the face
    /// from behind or not at all, has no hit.
    #[verifier::when_used_as_spec(spec_intersect)]
    pub fn intersect(&self, ray: &Ray) -> (r: Option<Intersect>)
        ensures
            r == self.spec_intersect(ray),
            r.is_some() ==> r.unwrap().dist.greater(Scalar { bits: 0 }),
            !ray.dir.dot(self.normal).less(Scalar { bits: 0 }) ==> r.is_none(),
    {
        reveal(Face::spec_intersect);
        let zero: Scalar = Scalar { bits: 0 };
        if !ray.dir.dot(self.normal).less(zero) {
            return None;
        }
        let dist: Scalar = self.normal.dot(self.a.minus(ray.start)).over(self.normal.dot(ray.dir));
        if !dist.greater(zero) {
            return None;
        }
        let pos: Vec3d = ray.start.plus(ray.dir.times(dist));
        let ab_side: Scalar = self.inside_ab.dot(pos.minus(self.a));
        let bc_side: Scalar = self.inside_bc.dot(pos.minus(self.b));
        let ca_side: Scalar = self.inside_ca.dot(pos.minus(self.c));
        if ab_side.greater_eq(zero) && bc_side.greater_eq(zero) && ca_side.greater_eq(zero) {
            Some(Intersect { pos, dist, normal: self.normal, material: Material::default() })
        } else {
            None
        }
    }
}

/// A hit on a face lies strictly ahead of the start of the ray, and only a
/// ray that runs against the normal of the face has one: a face is not
/// seen from behind.
pub proof fn lemma_face_hit_ahead(face: &Face, ray: &Ray)
    ensures
        face.spec_intersect(ray) matches Some(h) ==> h.dist.greater(Scalar { bits: 0 }),
        face.spec_intersect(ray).is_some() ==> ray.dir.dot(face.normal).less(Scalar { bits: 0 }),
{
    reveal(Face::spec_intersect);
}

} // verus!
