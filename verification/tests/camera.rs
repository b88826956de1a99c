use approx::AbsDiffEq;
use raytracer::coord::Vec3d;
use raytracer::error::GeometryError;
use raytracer::scalar::Scalar;
use raytracer::scene::camera::Camera;

fn s(v: f64) -> Scalar {
    Scalar::from_bits(v.to_bits())
}

fn f(v: Scalar) -> f64 {
    f64::from_bits(v.to_bits())
}

fn vec3(x: f64, y: f64, z: f64) -> Vec3d {
    Vec3d { x: s(x), y: s(y), z: s(z) }
}

fn abs_diff_eq(a: f64, b: f64) -> bool {
    f64::abs_diff_eq(&a, &b, f64::default_epsilon())
}

fn vec_abs_diff_eq(a: Vec3d, b: Vec3d) -> bool {
    abs_diff_eq(f(a.x), f(b.x)) && abs_diff_eq(f(a.y), f(b.y)) && abs_diff_eq(f(a.z), f(b.z))
}

#[test]
fn create_default_camera() {
    let pos = vec3(1., 2., 3.);
    let dir = vec3(5., 0.3, -1.);
    let cam = Camera::new(pos, dir, None, None, None).unwrap();
    assert_eq!(cam.pos, pos);
    assert!(vec_abs_diff_eq(cam.dir, dir.normalize().unwrap()));
    assert_eq!(cam.width(), 1024);
    assert_eq!(cam.height(), 768);

    assert!(abs_diff_eq(f(cam.dir.dot(cam.px_down)), 0.));
    assert!(abs_diff_eq(f(cam.dir.dot(cam.px_left)), 0.));
    assert!(abs_diff_eq(f(cam.px_left.dot(cam.px_down)), 0.));
    assert!(vec_abs_diff_eq(
        cam.px_down,
        vec3(-0.0002997799304577759, -1.7986795827466556e-5, -0.0015042956910371193)
    ));
    assert!(vec_abs_diff_eq(
        cam.px_left,
        vec3(-9.187362331913159e-5, 0.00153122705531886, -2.6610324844426207e-21)
    ));
}

#[test]
fn create_ray() {
    let pos = vec3(1., 2., 3.);
    let dir = vec3(5., 0.3, -1.);
    let cam = Camera::new(pos, dir, None, None, None).unwrap();
    let ray = cam.ray((s(40.), s(60.))).unwrap();
    assert!(vec_abs_diff_eq(
        ray.dir,
        vec3(0.8410810520952884, -0.49454226181177513, 0.2191132471768342)
    ));
    assert_eq!(ray.start, pos);
}

#[test]
fn camera_steps_match_hardware() {
    let pos = vec3(1., 2., 3.);
    let cam = Camera::new(pos, vec3(5., 0.3, -1.), None, None, None).unwrap();
    assert_eq!(f(cam.px_down.x), -0.0002997799304577759);
    assert_eq!(f(cam.px_down.y), -1.7986795827466556e-5);
    assert_eq!(f(cam.px_down.z), -0.0015042956910371193);
    assert_eq!(f(cam.px_left.x), -9.187362331913159e-5);
    assert_eq!(f(cam.px_left.y), 0.00153122705531886);
}

#[test]
fn camera_takes_what_is_given() {
    let cam = Camera::new(
        vec3(0., 0., 0.),
        vec3(2., 0., 0.),
        Some(vec3(0., 3., 0.)),
        Some((4, 2)),
        Some(s(180.)),
    )
    .unwrap();
    assert_eq!(cam.width(), 4);
    assert_eq!(cam.height(), 2);
    assert_eq!(cam.dir, vec3(1., 0., 0.));
    let step = -(180.0f64 * std::f64::consts::PI / 180.) / 4.;
    assert_eq!(cam.px_down, vec3(0., step, 0.));
    assert_eq!(cam.px_left, vec3(0., 0., step));
    let centre = cam.ray((s(2.), s(1.))).unwrap();
    assert_eq!(centre.dir, vec3(1., 0., 0.));
    assert_eq!(centre.start, vec3(0., 0., 0.));
}

#[test]
fn camera_without_direction_is_degenerate() {
    let zero = vec3(0., 0., 0.);
    let x = vec3(1., 0., 0.);
    assert_eq!(Camera::new(zero, zero, None, None, None).err(), Some(GeometryError::Degenerate));
    assert_eq!(Camera::new(zero, x, Some(zero), None, None).err(), Some(GeometryError::Degenerate));
    assert_eq!(
        Camera::new(zero, x, Some(vec3(-3., 0., 0.)), None, None).err(),
        Some(GeometryError::Degenerate)
    );
    assert_eq!(
        Camera::new(zero, vec3(0., 0., 2.), None, None, None).err(),
        Some(GeometryError::Degenerate)
    );
}

#[test]
fn ray_without_direction_is_degenerate() {
    let zero = vec3(0., 0., 0.);
    let cam = Camera { pos: zero, dir: zero, px_down: zero, px_left: zero, resolution: (2, 2) };
    assert_eq!(cam.ray((s(0.), s(0.))).err(), Some(GeometryError::Degenerate));
}
