use raytracer::coord::Vec3d;
use raytracer::error::GeometryError;
use raytracer::scalar::Scalar;
use raytracer::scene::camera::Ray;
use raytracer::scene::object::material::Material;
use raytracer::scene::object::rasterized::face::Face;
use raytracer::scene::object::rasterized::Rasterized;

fn s(v: f64) -> Scalar {
    Scalar::from_bits(v.to_bits())
}

fn f(v: Scalar) -> f64 {
    f64::from_bits(v.to_bits())
}

fn vec3(x: f64, y: f64, z: f64) -> Vec3d {
    Vec3d { x: s(x), y: s(y), z: s(z) }
}

fn create_face() -> Face {
    Face::new(vec3(1., 1., -1.), vec3(1., 0., 1.), vec3(1., -1., -1.)).unwrap()
}

fn create_object() -> Rasterized {
    let f1 = Face::new(vec3(1., 1., -1.), vec3(1., 0., 1.), vec3(1., -1., -1.)).unwrap();
    let f2 = Face::new(vec3(2., 1., -1.), vec3(2., 0., 1.), vec3(2., -1., -1.)).unwrap();
    let f3 = Face::new(vec3(0.5, 1., -1.), vec3(0.5, 0., 1.), vec3(0.5, -1., -1.)).unwrap();
    Rasterized { faces: vec![f1, f2, f3], material: Material::default() }
}

#[test]
fn rasterized_face_normal() {
    let object = create_object();
    let ray = Ray { start: vec3(0., 0., 0.), dir: vec3(1., 0., 0.) };
    let i = object.intersect(&ray).unwrap();
    assert_eq!(i.pos, vec3(0.5, 0., 0.))
}

#[test]
fn face_missed() {
    let object = create_object();
    let ray = Ray { start: vec3(0., 0., 2.), dir: vec3(1., 0., 0.) };
    assert_eq!(object.intersect(&ray), None);
}

#[test]
fn face_face_normal() {
    let face = create_face();
    assert_eq!(face.normal, vec3(-1., 0., 0.))
}

#[test]
fn face_in_front() {
    let face = create_face();
    let ray = Ray { start: vec3(0., 0., 0.), dir: vec3(1., 0., 0.) };
    let i = face.intersect(&ray).unwrap();
    assert_eq!(f(i.dist), 1.0);
    assert_eq!(i.pos, vec3(1., 0., 0.));
}

#[test]
fn face_behind() {
    let face = create_face();
    let ray = Ray { start: vec3(2., 0., 0.), dir: vec3(1., 0., 0.) };
    assert_eq!(face.intersect(&ray), None);
}

#[test]
fn parallel_face() {
    let face = create_face();
    let ray = Ray { start: vec3(0., 0., 0.), dir: vec3(0., 0., 1.) };
    assert_eq!(face.intersect(&ray), None);
}

#[test]
fn outside_face() {
    let face = create_face();
    let ray = Ray { start: vec3(0., 0.75, 0.), dir: vec3(1., 0., 0.) };
    assert_eq!(face.intersect(&ray), None);
}

#[test]
fn back_face() {
    let face = create_face();
    let ray = Ray { start: vec3(2., 0., 0.), dir: vec3(-1., 0., 0.) };
    assert_eq!(face.intersect(&ray), None);
}

#[test]
fn face_edge_counts_as_inside() {
    let face = create_face();
    let ray = Ray { start: vec3(0., 0., -1.), dir: vec3(1., 0., 0.) };
    let i = face.intersect(&ray).unwrap();
    assert_eq!(i.pos, vec3(1., 0., -1.));
    assert_eq!(i.normal, vec3(-1., 0., 0.));
    assert_eq!(i.material, Material::default());
}

#[test]
fn face_without_area_is_degenerate() {
    let p = vec3(1., 1., 1.);
    assert_eq!(Face::new(p, p, p).err(), Some(GeometryError::Degenerate));
    assert_eq!(
        Face::new(vec3(0., 0., 0.), vec3(1., 0., 0.), vec3(2., 0., 0.)).err(),
        Some(GeometryError::Degenerate)
    );
    assert_eq!(Face::compute_normal(p, p, p), None);
    assert_eq!(
        Face::compute_normal(vec3(1., 1., -1.), vec3(1., 0., 1.), vec3(1., -1., -1.)),
        Some(vec3(-1., 0., 0.))
    );
}

#[test]
fn mesh_gives_its_own_material_and_the_first_of_equal_hits() {
    let mut material = Material::default();
    material.reflectivity = s(0.25);
    let near = Face::new(vec3(1., 1., -1.), vec3(1., 0., 1.), vec3(1., -1., -1.)).unwrap();
    let mut twin = near;
    twin.normal = vec3(-1., 0., 0.);
    twin.a = vec3(1., 2., -2.);
    let far = Face::new(vec3(3., 1., -1.), vec3(3., 0., 1.), vec3(3., -1., -1.)).unwrap();
    let mesh = Rasterized { faces: vec![far, near, twin], material };
    let ray = Ray { start: vec3(0., 0., 0.), dir: vec3(1., 0., 0.) };
    let i = mesh.intersect(&ray).unwrap();
    assert_eq!(f(i.dist), 1.);
    assert_eq!(i.material, material);
    assert_eq!(i.pos, near.intersect(&ray).unwrap().pos);
    let empty = Rasterized { faces: vec![], material };
    assert_eq!(empty.intersect(&ray), None);
}

#[test]
fn face_with_a_corner_that_is_no_number_is_refused() {
    let p = vec3(1., 1., 1.);
    let q = vec3(1., 0., 1.);
    let bad = vec3(0., f64::NAN, 0.);
    assert_eq!(Face::new(bad, p, q).err(), Some(GeometryError::NotANumber));
    assert_eq!(Face::new(p, bad, q).err(), Some(GeometryError::NotANumber));
    assert_eq!(Face::new(p, q, bad).err(), Some(GeometryError::NotANumber));
    assert_eq!(Face::new(bad, bad, bad).err(), Some(GeometryError::NotANumber));
    assert!(Face::new(p, q, vec3(f64::INFINITY, 0., 0.)).is_ok() || Face::new(p, q, vec3(f64::INFINITY, 0., 0.)).is_err());
}
