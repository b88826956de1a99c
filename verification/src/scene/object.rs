//! What a ray can hit.
use vstd::prelude::*;
use crate::coord::Vec3d;
use crate::scalar::Scalar;
use crate::scene::camera::Ray;
use crate::scene::object::material::Material;
use crate::scene::object::rasterized::Rasterized;
use crate::scene::object::sphere::Sphere;

pub mod material;
pub mod rasterized;
pub mod sphere;

verus! {

/// Where a ray meets a surface: the point, its distance along the ray,
/// the unit normal there, and the material.
#[derive(Debug, PartialEq, Clone, Copy)]
pub struct Intersect {
    pub pos: Vec3d,
    pub dist: Scalar,
    pub normal: Vec3d,
    pub material: Material,
}

/// A thing in the scene: a sphere or a mesh.
pub enum Object {
    Sphere(Sphere),
    Rasterized(Rasterized),
}

impl Object {
    /// Where the ray meets the object, by its kind.
    pub open spec fn spec_intersect(&self, ray: &Ray) -> Option<Intersect> {
        match self {
            Object::Sphere(s) => s.spec_intersect(ray),
            Object::Rasterized(m) => m.spec_intersect(ray),
        }
    }

    /// Where the ray meets the object.
    #[verifier::when_used_as_spec(spec_intersect)]
    pub fn intersect(&self, ray: &Ray) -> (r: Option<Intersect>)
        ensures
            r == self.spec_intersect(ray),
            r.is_some() ==> r.unwrap().dist.greater(Scalar { bits: 0 }),
    {
        match self {
            Object::Sphere(s) => s.intersect(ray),
            Object::Rasterized(m) => m.intersect(ray),
        }
    }
}

/// A hit on an object lies strictly ahead of the start of the ray.
pub proof fn lemma_object_hit_ahead(object: &Object, ray: &Ray)
    ensures
        object.spec_intersect(ray) matches Some(h) ==> h.dist.greater(Scalar { bits: 0 }),
{
    match object {
        Object::Sphere(s) => crate::scene::object::sphere::lemma_sphere_hit_ahead(s, ray),
        Object::Rasterized(m) => crate::scene::object::rasterized::lemma_mesh_hit_ahead(m, ray),
    }
}

} // verus!
