use approx::AbsDiffEq;
use raytracer::scalar::Scalar;
use raytracer::scene::object::material::{Color, Material};

fn s(v: f64) -> Scalar {
    Scalar::from_bits(v.to_bits())
}

fn f(v: Scalar) -> f64 {
    f64::from_bits(v.to_bits())
}

fn color(r: f64, g: f64, b: f64) -> Color {
    Color { r: s(r), g: s(g), b: s(b) }
}

fn abs_diff_eq(a: Color, b: Color) -> bool {
    let eps = f64::default_epsilon();
    f64::abs_diff_eq(&f(a.r), &f(b.r), eps) && f64::abs_diff_eq(&f(a.g), &f(b.g), eps)
        && f64::abs_diff_eq(&f(a.b), &f(b.b), eps)
}

#[test]
fn default_material() {
    let _ = Material::default();
}

#[test]
fn add_color() {
    let light1 = color(0.1, 0.2, 0.3);
    let light2 = color(0.4, 0.6, 0.8);
    assert_eq!(light1 + light2, color(0.5, 0.8, 1.1));
}

#[test]
fn mul_colors() {
    let surface = color(0.1, 0.2, 0.3);
    let light = color(0.4, 0.6, 0.8);
    assert!(abs_diff_eq(surface * light, color(0.04, 0.12, 0.24)));
}

#[test]
fn light_intensity() {
    let light = color(0.4, 0.6, 0.8);
    let intensity = s(2.0);
    assert!(abs_diff_eq(intensity * light, color(0.8, 1.2, 1.6)));
    assert!(abs_diff_eq(intensity * light, light * intensity));
}

#[test]
fn default_material_is_black_matte_and_of_roughness_one() {
    let m = Material::default();
    assert_eq!(m.diffuse, color(0., 0., 0.));
    assert_eq!(m.specular, color(0., 0., 0.));
    assert_eq!(f(m.reflectivity), 0.);
    assert_eq!(f(m.roughness), 1.);
}

#[test]
fn black_is_all_zero() {
    assert_eq!(Color::black(), color(0., 0., 0.));
    assert_eq!(color(0.25, 0.5, 1.).plus(Color::black()), color(0.25, 0.5, 1.));
    assert_eq!(color(0.25, 0.5, 1.).times(color(2., 2., 0.5)), color(0.5, 1., 0.5));
    assert_eq!(color(0.25, 0.5, 1.).scaled(s(4.)), color(1., 2., 4.));
}
