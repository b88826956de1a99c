//! Meshes of triangular faces.
use vstd::prelude::*;
use crate::scalar::Scalar;
use crate::scene::camera::Ray;
use crate::scene::object::Intersect;
use crate::scene::object::material::Material;
use crate::scene::object::rasterized::face::{Face, lemma_face_hit_ahead};

pub mod face;

verus! {

/// A mesh: its faces, and the one material they share.
pub struct Rasterized {
    pub faces: Vec<Face>,
    pub material: Material,
}

/// The nearer of two hits, the first where they are equally near.
pub open spec fn nearer(first: Option<Intersect>, second: Option<Intersect>) -> Option<Intersect> {
    match (first, second) {
        (None, _) => second,
        (Some(_), None) => first,
        (Some(p), Some(c)) => if p.dist.less_eq(c.dist) {
            first
        } else {
            second
        },
    }
}

/// The nearest hit of the ray among the first `n` faces, the first of them
/// where several are equally near.
pub open spec fn nearest_face_hit(faces: Seq<Face>, ray: &Ray, n: nat) -> Option<Intersect>
    decreases n,
{
    if n == 0 {
        None
    } else {
        nearer(nearest_face_hit(faces, ray, (n - 1) as nat), faces[n - 1].spec_intersect(ray))
    }
}

impl Rasterized {
    /// The nearest hit among the faces, with the material of the mesh.
    pub open spec fn spec_intersect(&self, ray: &Ray) -> Option<Intersect> {
        match nearest_face_hit(self.faces@, ray, self.faces@.len()) {
            Some(i) => Some(
                Intersect { pos: i.pos, dist: i.dist, normal: i.normal, material: self.material },
            ),
            None => None,
        }
    }

    /// Where the ray meets the mesh: the hit of the face that it meets
    /// first, with the material of the mesh. Of faces met at the same
    /// distance the one that comes first in the list counts.
    #[verifier::when_used_as_spec(spec_intersect)]
    pub fn intersect(&self, ray: &Ray) -> (r: Option<Intersect>)
        ensures
            r == self.spec_intersect(ray),
            r.is_none() <==> forall|k: int|
                0 <= k < self.faces@.len() ==> (#[trigger] self.faces@[k]).spec_intersect(ray).is_none(),
            r.is_some() ==> r.unwrap().material == self.material && r.unwrap().dist.greater(
                Scalar { bits: 0 },
            ),
            r.is_some() ==> exists|j: int|
                0 <= j < self.faces@.len() && hit_of(self.faces@, ray, j, r.unwrap()) && first_nearest(
                    self.faces@,
                    ray,
                    j,
                ),
    {
        let mut best: Option<Intersect> = None;
        let ghost mut at: int = 0;
        let mut k: usize = 0;
        while k < self.faces.len()
            invariant
                0 <= k <= self.faces@.len(),
                best == nearest_face_hit(self.faces@, ray, k as nat),
                best.is_none() <==> forall|i: int|
                    0 <= i < k ==> (#[trigger] self.faces@[i]).spec_intersect(ray).is_none(),
                best.is_some() ==> 0 <= at < k && self.faces@[at].spec_intersect(ray) == best
                    && best.unwrap().dist.greater(Scalar { bits: 0 }) && first_nearest_among(
                    self.faces@,
                    ray,
                    at,
                    k as int,
                ),
            decreases self.faces@.len() - k,
        {
            let hit: Option<Intersect> = self.faces[k].intersect(ray);
            match (best, hit) {
                (Some(p), Some(c)) => {
                    if !p.dist.less_eq(c.dist) {
                        best = hit;
                        proof {
                            at = k as int;
                        }
                    }
                },
                (None, Some(_)) => {
                    best = hit;
                    proof {
                        at = k as int;
                    }
                },
                _ => {},
            }
            k = k + 1;
        }
        match best {
            Some(i) => {
                let r: Intersect = Intersect {
                    pos: i.pos,
                    dist: i.dist,
                    normal: i.normal,
                    material: self.material,
                };
                proof {
                    assert(hit_of(self.faces@, ray, at, r));
                    assert(first_nearest(self.faces@, ray, at));
                }
                Some(r)
            },
            None => None,
        }
    }
}

/// Whether `hit` is what face `j` gives, but for the material.
pub open spec fn hit_of(faces: Seq<Face>, ray: &Ray, j: int, hit: Intersect) -> bool {
    match faces[j].spec_intersect(ray) {
        Some(h) => hit.pos == h.pos && hit.dist == h.dist && hit.normal == h.normal,
        None => false,
    }
}

/// Whether, among the faces before `n`, face `j` is hit, no face is hit
/// nearer, and no earlier face is hit as near.
pub open spec fn first_nearest_among(faces: Seq<Face>, ray: &Ray, j: int, n: int) -> bool {
    match faces[j].spec_intersect(ray) {
        Some(h) => forall|k: int|
            0 <= k < n ==> match (#[trigger] faces[k]).spec_intersect(ray) {
                Some(other) => h.dist.less_eq(other.dist) && (k < j ==> h.dist.less(other.dist)),
                None => true,
            },
        None => false,
    }
}

/// Whether face `j` is hit, no face is hit nearer, and no earlier face is
/// hit as near.
pub open spec fn first_nearest(faces: Seq<Face>, ray: &Ray, j: int) -> bool {
    first_nearest_among(faces, ray, j, faces.len() as int)
}

/// The nearest hit among faces is a hit of one of them: it lies strictly
/// ahead of the start of the ray, and no face is hit nearer.
pub proof fn lemma_nearest_face_hit(faces: Seq<Face>, ray: &Ray, n: nat)
    requires
        n <= faces.len(),
    ensures
        match nearest_face_hit(faces, ray, n) {
            Some(b) => b.dist.greater(Scalar { bits: 0 }) && forall|k: int|
                0 <= k < n ==> match (#[trigger] faces[k]).spec_intersect(ray) {
                    Some(h) => b.dist.less_eq(h.dist),
                    None => true,
                },
            None => forall|k: int| 0 <= k < n ==> (#[trigger] faces[k]).spec_intersect(ray).is_none(),
        },
    decreases n,
{
    if n > 0 {
        lemma_nearest_face_hit(faces, ray, (n - 1) as nat);
        lemma_face_hit_ahead(&faces[n - 1], ray);
    }
}

/// A hit on a mesh lies strictly ahead of the start of the ray.
pub proof fn lemma_mesh_hit_ahead(mesh: &Rasterized, ray: &Ray)
    ensures
        mesh.spec_intersect(ray) matches Some(h) ==> h.dist.greater(Scalar { bits: 0 }),
{
    lemma_nearest_face_hit(mesh.faces@, ray, mesh.faces@.len());
}

} // verus!
