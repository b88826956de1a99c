use approx::{AbsDiffEq, RelativeEq};
use raytracer::coord::Vec3d;
use raytracer::scalar::Scalar;

fn s(v: f64) -> Scalar {
    Scalar::from_bits(v.to_bits())
}

fn f(v: Scalar) -> f64 {
    f64::from_bits(v.to_bits())
}

fn vec3(x: f64, y: f64, z: f64) -> Vec3d {
    Vec3d { x: s(x), y: s(y), z: s(z) }
}

fn relative_eq(a: f64, b: f64) -> bool {
    f64::relative_eq(&a, &b, f64::default_epsilon(), f64::default_max_relative())
}

#[test]
fn access_vec_coord() {
    let pt = vec3(1., 2., 3.);
    assert_eq!(f(pt.x), 1.);
    assert_eq!(f(pt.y), 2.);
    assert_eq!(f(pt.z), 3.);
}

#[test]
fn add_vec() {
    let pt = vec3(1., 2., 3.);
    let vec = vec3(-3., 5., 7.);
    assert_eq!(&pt + &vec, vec3(-2., 7., 10.));
}

#[test]
fn sub_vec() {
    let pt = vec3(1., 2., 3.);
    let vec = vec3(-3., 5., 7.);
    assert_eq!(&pt - &vec, vec3(4., -3., -4.));
}

#[test]
fn mult_vec() {
    let vec = vec3(1., 2., 3.);
    assert_eq!(s(2.) * &vec, vec3(2., 4., 6.));
    assert_eq!(s(2.) * &vec, &vec * s(2.));
}

#[test]
fn div_vec() {
    let vec = vec3(1., 2., 3.);
    assert_eq!(&vec / s(2.), vec3(0.5, 1., 1.5));
}

#[test]
fn normsq_vec() {
    let vec = vec3(1., 2., 3.);
    assert_eq!(f(vec.normsq()), 14.);
}

#[test]
fn norm_vec() {
    let vec = vec3(1., 2., 3.);
    assert!(relative_eq(f(vec.norm()), 3.7416573867739413));
}

#[test]
fn normalized_vec() {
    let vec = vec3(1., 2., 3.);
    let unit = vec.normalize().unwrap();
    assert!(relative_eq(f(unit.x), 0.2672612419124244));
    assert!(relative_eq(f(unit.y), 0.5345224838248488));
    assert!(relative_eq(f(unit.z), 0.8017837257372732));
}

#[test]
fn normalized_null_vec() {
    let vec = vec3(0., 0., 0.);
    assert_eq!(vec.normalize(), None);
}

#[test]
fn dot_vec_gene() {
    let vec1 = vec3(1., 2., 3.);
    let vec2 = vec3(-3., 5., 7.);
    assert_eq!(f(vec1.dot(vec2)), 28.);
}

#[test]
fn dot_ortho() {
    let vec1 = vec3(1., 0., 0.);
    let vec2 = vec3(0., 1., 0.);
    assert_eq!(f(vec1.dot(vec2)), 0.);
}

#[test]
fn cross_ortho() {
    let vec1 = vec3(1., 0., 0.);
    let vec2 = vec3(0., 1., 0.);
    assert_eq!(vec1.cross(vec2), vec3(0., 0., 1.));
}

#[test]
fn named_operations_agree_with_operators() {
    let a = vec3(1.5, -2.25, 3.);
    let b = vec3(-0.5, 4., 7.125);
    assert_eq!(a.plus(b), &a + &b);
    assert_eq!(a.minus(b), &a - &b);
    assert_eq!(a.times(s(3.)), &a * s(3.));
    assert_eq!(a.over(s(3.)), &a / s(3.));
}

#[test]
fn operations_match_hardware() {
    let (ax, ay, az) = (0.1f64, -2.7f64, 3.3f64);
    let (bx, by, bz) = (5.5f64, 0.3f64, -1.9f64);
    let a = vec3(ax, ay, az);
    let b = vec3(bx, by, bz);
    assert_eq!(f(a.dot(b)), ax * bx + ay * by + az * bz);
    assert_eq!(f(a.normsq()), ax * ax + ay * ay + az * az);
    assert_eq!(f(a.norm()), (ax * ax + ay * ay + az * az).sqrt());
    let c = a.cross(b);
    assert_eq!(f(c.x), ay * bz - by * az);
    assert_eq!(f(c.y), az * bx - bz * ax);
    assert_eq!(f(c.z), ax * by - bx * ay);
    let n = (ax * ax + ay * ay + az * az).sqrt();
    assert_eq!(a.normalize().unwrap(), vec3(ax / n, ay / n, az / n));
}

#[test]
fn reflect_mirrors_about_the_plane() {
    let v = vec3(1., -1., 0.);
    let n = vec3(0., 1., 0.);
    assert_eq!(v.reflect(n), vec3(1., 1., 0.));
    assert_eq!(vec3(0.3, 0.4, -2.).reflect(vec3(0., 0., 1.)), vec3(0.3, 0.4, 2.));
}

#[test]
fn reflect_twice_gives_the_vector_back() {
    let normals = [vec3(1., 2., 3.), vec3(-0.3, 0.9, 0.1), vec3(0., 0., 1.), vec3(5., -1., 0.2)];
    let vectors = [vec3(0.1, -2.7, 3.3), vec3(1., 0., 0.), vec3(-4., 4., 0.5), vec3(1e-3, 2e3, -7.)];
    for n in normals.iter() {
        let n = n.normalize().unwrap();
        for v in vectors.iter() {
            let back = v.reflect(n).reflect(n);
            assert!(f64::abs_diff_eq(&f(back.x), &f(v.x), 1e-12 * f(v.norm())));
            assert!(f64::abs_diff_eq(&f(back.y), &f(v.y), 1e-12 * f(v.norm())));
            assert!(f64::abs_diff_eq(&f(back.z), &f(v.z), 1e-12 * f(v.norm())));
        }
    }
}

#[test]
fn a_vector_that_holds_nan_says_so() {
    assert!(vec3(0., f64::NAN, 1.).has_nan());
    assert!(!vec3(0., f64::INFINITY, 1.).has_nan());
}

#[test]
fn reflect_twice_about_an_axis_plane_gives_the_vector_back_exactly() {
    let axes = [vec3(1., 0., 0.), vec3(0., 1., 0.), vec3(0., 0., 1.), vec3(1., -0., 0.)];
    let vectors = [
        vec3(0.1, -2.7, 3.3),
        vec3(1e-320, 2e300, -7.),
        vec3(0., -0., 5e-324),
        vec3(-1.5e308 / 2., 0.3, 1e-9),
    ];
    for n in axes.iter() {
        for v in vectors.iter() {
            assert_eq!(v.reflect(*n).reflect(*n), *v);
        }
    }
    assert_eq!(vec3(0.1, -2.7, 3.3).reflect(vec3(0., 1., 0.)), vec3(0.1, 2.7, 3.3));
}

#[test]
fn reflect_about_an_axis_plane_does_not_ask_for_the_sense_of_the_normal() {
    let axes = [vec3(-1., 0., 0.), vec3(0., -1., 0.), vec3(0., 0., -1.), vec3(-0., 0., -1.)];
    let vectors = [vec3(0.1, -2.7, 3.3), vec3(1e-320, 2e300, -7.), vec3(-1.5e308 / 2., 0.3, 1e-9)];
    for n in axes.iter() {
        let opposite = vec3(-f(n.x), -f(n.y), -f(n.z));
        for v in vectors.iter() {
            let once = v.reflect(*n);
            let other = v.reflect(opposite);
            assert!(once.x.equals(other.x) && once.y.equals(other.y) && once.z.equals(other.z));
            let back = once.reflect(*n);
            assert!(back.x.equals(v.x) && back.y.equals(v.y) && back.z.equals(v.z));
        }
    }
    assert_eq!(vec3(0.1, -2.7, 3.3).reflect(vec3(0., -1., 0.)), vec3(0.1, 2.7, 3.3));
}
