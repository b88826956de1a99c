use approx::AbsDiffEq;
use raytracer::coord::Vec3d;
use raytracer::error::GeometryError;
use raytracer::scalar::Scalar;
use raytracer::scene::camera::Ray;
use raytracer::scene::object::material::Material;
use raytracer::scene::object::sphere::{solve_quadratic, Sphere};

fn s(v: f64) -> Scalar {
    Scalar::from_bits(v.to_bits())
}

fn f(v: Scalar) -> f64 {
    f64::from_bits(v.to_bits())
}

fn vec3(x: f64, y: f64, z: f64) -> Vec3d {
    Vec3d { x: s(x), y: s(y), z: s(z) }
}

fn abs_diff_eq(a: f64, b: f64) -> bool {
    f64::abs_diff_eq(&a, &b, f64::default_epsilon())
}

fn root(a: f64, b: f64, c: f64) -> Option<f64> {
    solve_quadratic(s(a), s(b), s(c)).map(f)
}

#[test]
fn quadratic_no_sol() {
    assert_eq!(root(1., 0., 1.), None);
}

#[test]
fn quadratic_both_positive_sol() {
    assert_eq!(root(-4., 5., -1.), Some(0.25));
}

#[test]
fn quadratic_one_negative_sol() {
    assert_eq!(root(4., -5., -12.), Some(2.4663649828320295));
}

#[test]
fn quadratic_both_negative_sol() {
    assert_eq!(root(4., 5., 1.), None);
}

#[test]
fn unit_sphere_in_front() {
    let sphere = Sphere::new(vec3(2., 0., 0.), s(1.0), Material::default()).unwrap();
    let ray = Ray { start: vec3(0., 0., 0.), dir: vec3(1., 0., 0.) };

    let i = sphere.intersect(&ray).unwrap();
    assert_eq!(f(i.dist), 1.0);
    assert_eq!(i.pos, vec3(1., 0., 0.));
}

#[test]
fn inside_unit_sphere() {
    let sphere = Sphere::new(vec3(0., 0., 0.), s(1.0), Material::default()).unwrap();
    let ray = Ray { start: vec3(0., 0., 0.), dir: vec3(1., 0., 0.) };

    let i = sphere.intersect(&ray).unwrap();
    assert_eq!(f(i.dist), 1.0);
    assert_eq!(i.pos, vec3(1., 0., 0.));
}

#[test]
fn unit_sphere_above() {
    let sphere = Sphere::new(vec3(2., 0., 2.), s(1.0), Material::default()).unwrap();
    let ray = Ray { start: vec3(0., 0., 0.), dir: vec3(1., 0., 0.) };

    assert_eq!(sphere.intersect(&ray), None);
}

#[test]
fn unit_sphere_behind() {
    let sphere = Sphere::new(vec3(-2., 0., 0.), s(1.0), Material::default()).unwrap();
    let ray = Ray { start: vec3(0., 0., 0.), dir: vec3(1., 0., 0.) };

    assert_eq!(sphere.intersect(&ray), None);
}

#[test]
fn general_sphere() {
    let sphere = Sphere::new(vec3(8., 4., 2.), s(3.0), Material::default()).unwrap();
    let ray = Ray { start: vec3(2., 3., 4.), dir: vec3(1., 0.2, -0.3).normalize().unwrap() };

    let i = sphere.intersect(&ray).unwrap();
    assert!(abs_diff_eq(f(i.dist), 3.410205739962394));
    assert!(abs_diff_eq(f(i.pos.x), 5.208051705064151));
    assert!(abs_diff_eq(f(i.pos.y), 3.6416103410128304));
    assert!(abs_diff_eq(f(i.pos.z), 3.037584488480755));
}

#[test]
fn sphere_hit_has_unit_normal_and_material() {
    let mut material = Material::default();
    material.reflectivity = s(0.5);
    let sphere = Sphere::new(vec3(2., 0., 0.), s(1.0), material).unwrap();
    let ray = Ray { start: vec3(0., 0., 0.), dir: vec3(1., 0., 0.) };
    let i = sphere.intersect(&ray).unwrap();
    assert_eq!(i.normal, vec3(-1., 0., 0.));
    assert_eq!(i.material, material);
}

#[test]
fn sphere_touched_at_the_start_is_no_hit() {
    let sphere = Sphere::new(vec3(-1., 0., 0.), s(1.0), Material::default()).unwrap();
    let ray = Ray { start: vec3(0., 0., 0.), dir: vec3(1., 0., 0.) };
    assert_eq!(f(solve_quadratic(s(1.), s(2.), s(0.)).unwrap()), 0.);
    assert_eq!(sphere.intersect(&ray), None);
}

#[test]
fn quadratic_with_negative_lead_swaps_the_roots() {
    assert_eq!(root(-1., 0., 4.), Some(2.));
    assert_eq!(root(1., 0., -4.), Some(2.));
    assert_eq!(root(1., -3., 2.), Some(1.));
    assert_eq!(root(-1., 3., -2.), Some(1.));
    assert_eq!(root(1., -2., 1.), Some(1.));
}

#[test]
fn sphere_is_refused_on_bad_numbers() {
    let m = Material::default();
    assert_eq!(Sphere::new(vec3(0., 0., 0.), s(0.), m).err(), Some(GeometryError::NonPositiveRadius));
    assert_eq!(Sphere::new(vec3(0., 0., 0.), s(-1.), m).err(), Some(GeometryError::NonPositiveRadius));
    assert_eq!(Sphere::new(vec3(0., 0., 0.), s(f64::NAN), m).err(), Some(GeometryError::NotANumber));
    assert_eq!(Sphere::new(vec3(f64::NAN, 0., 0.), s(1.), m).err(), Some(GeometryError::NotANumber));
    assert_eq!(Sphere::new(vec3(0., 0., f64::NAN), s(-1.), m).err(), Some(GeometryError::NotANumber));
    let ok = Sphere::new(vec3(1., 2., 3.), s(0.5), m).unwrap();
    assert_eq!(ok.center, vec3(1., 2., 3.));
    assert_eq!(f(ok.radius), 0.5);
}
