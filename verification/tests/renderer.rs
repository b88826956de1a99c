use raytracer::coord::Vec3d;
use raytracer::error::RenderError;
use raytracer::scalar::Scalar;
use raytracer::scene::camera::{Camera, Ray};
use raytracer::scene::light::{Light, LightType};
use raytracer::scene::object::material::{Color, Material};
use raytracer::scene::object::sphere::Sphere;
use raytracer::scene::object::{Intersect, Object};
use raytracer::scene::{RenderConfig, Scene};

fn s(v: f64) -> Scalar {
    Scalar::from_bits(v.to_bits())
}

fn f(v: Scalar) -> f64 {
    f64::from_bits(v.to_bits())
}

fn vec3(x: f64, y: f64, z: f64) -> Vec3d {
    Vec3d { x: s(x), y: s(y), z: s(z) }
}

fn color(r: f64, g: f64, b: f64) -> Color {
    Color { r: s(r), g: s(g), b: s(b) }
}

fn frame(values: &[f64]) -> Vec<Scalar> {
    values.iter().map(|v| s(*v)).collect()
}

fn floats(values: Vec<Scalar>) -> Vec<f64> {
    values.into_iter().map(f).collect()
}

fn create_empty_scene() -> Scene {
    let camera =
        Camera::new(vec3(0., 0., 0.), vec3(1., 0., 0.), None, Some((1, 1)), None).unwrap();
    let ambiant_light =
        Light { color: color(1., 0., 0.), intensity: s(1.), light_type: LightType::AmbiantLight };
    Scene { camera, ambiant_light, lights: vec![], objects: vec![] }
}

#[test]
fn test_normalize() {
    let vec = frame(&[0., 2., 1.]);
    assert_eq!(floats(Scene::normalize(vec).unwrap()), vec![0., 1., 0.5]);
}

#[test]
fn test_monothread() {
    let scene = create_empty_scene();
    let colors = scene.render_monothread(&RenderConfig::default()).unwrap();
    assert_eq!(f(colors[0]), 1.);
    assert_eq!(f(colors[1]), 0.);
    assert_eq!(f(colors[2]), 0.);
}

#[test]
fn test_multithread() {
    let scene = create_empty_scene();
    let colors = scene.render_multithread(&RenderConfig::default()).unwrap();
    assert_eq!(f(colors[0]), 1.);
    assert_eq!(f(colors[1]), 0.);
    assert_eq!(f(colors[2]), 0.);
}

#[test]
fn test_rayon() {
    let scene = create_empty_scene();
    let colors = scene.render_rayon(&RenderConfig::default()).unwrap();
    assert_eq!(f(colors[0]), 1.);
    assert_eq!(f(colors[1]), 0.);
    assert_eq!(f(colors[2]), 0.);
}

#[test]
fn test_diffuse() {
    let mut scene = create_empty_scene();
    scene.lights.push(Light {
        color: color(0., 1., 1.),
        intensity: s(1.),
        light_type: LightType::PointLight { pos: vec3(-1., 0., 0.) },
    });
    let mut sphere_material = Material::default();
    sphere_material.diffuse.g = s(1.);
    sphere_material.reflectivity = s(0.);
    scene.objects.push(Object::Sphere(Sphere {
        center: vec3(1., 0., 0.),
        material: sphere_material.clone(),
        radius: s(1.),
    }));
    let intersect = Intersect {
        dist: s(1.),
        pos: vec3(0., 0., 0.),
        normal: vec3(1., 0., 0.),
        material: sphere_material.clone(),
    };
    let color = scene.compute_diffuse(&intersect);
    assert_eq!(f(color.r), 0.);
    assert_eq!(f(color.g), 0.);
    assert_eq!(f(color.b), 0.);
}

#[test]
fn normalize_refuses_a_frame_without_positive_maximum() {
    assert_eq!(Scene::normalize(vec![]).err(), Some(RenderError::NoPositiveMaximum));
    assert_eq!(Scene::normalize(frame(&[0., 0.])).err(), Some(RenderError::NoPositiveMaximum));
    assert_eq!(Scene::normalize(frame(&[-1., -2.])).err(), Some(RenderError::NoPositiveMaximum));
    assert_eq!(Scene::normalize(frame(&[f64::NAN])).err(), Some(RenderError::NoPositiveMaximum));
    assert_eq!(floats(Scene::normalize(frame(&[f64::NAN, 4., 1.])).unwrap())[1..], [1., 0.25]);
}

#[test]
fn normalize_divides_by_the_maximum() {
    let values = [0.3, 7.1, 0.0, 2.5, 7.1, 1e-3];
    let out = floats(Scene::normalize(frame(&values)).unwrap());
    for k in 0..values.len() {
        assert_eq!(out[k], values[k] / 7.1);
    }
    assert_eq!(out[1], 1.);
    assert!(out.iter().all(|v| *v <= 1.));
}

#[test]
fn empty_scene_gives_the_same_frame_whatever_the_driver() {
    let mut scene = create_empty_scene();
    scene.camera = Camera::new(vec3(0., 0., 0.), vec3(1., 0., 0.), None, Some((3, 2)), None).unwrap();
    scene.ambiant_light.color = color(0.5, 0.25, 1.);
    scene.ambiant_light.intensity = s(3.);
    let config = RenderConfig { max_bounces: 2, samples: 5, workers: 3 };
    let mono = floats(scene.render_monothread(&config).unwrap());
    let pool = floats(scene.render_multithread(&config).unwrap());
    let rayon = floats(scene.render_rayon(&config).unwrap());
    assert_eq!(mono.len(), 18);
    assert_eq!(mono, pool);
    assert_eq!(mono, rayon);
    for p in 0..6 {
        assert_eq!(mono[3 * p..3 * p + 3], [0.5, 0.25, 1.]);
    }
}

#[test]
fn pool_without_workers_is_refused() {
    let scene = create_empty_scene();
    let config = RenderConfig { max_bounces: 3, samples: 2, workers: 0 };
    assert_eq!(scene.render_multithread(&config).err(), Some(RenderError::NoWorkers));
}

#[test]
fn dark_scene_is_refused() {
    let mut scene = create_empty_scene();
    scene.ambiant_light.intensity = s(0.);
    let config = RenderConfig { max_bounces: 3, samples: 2, workers: 2 };
    assert_eq!(scene.render_monothread(&config).err(), Some(RenderError::NoPositiveMaximum));
    assert_eq!(scene.render_multithread(&config).err(), Some(RenderError::NoPositiveMaximum));
    assert_eq!(scene.render_rayon(&config).err(), Some(RenderError::NoPositiveMaximum));
}

#[test]
fn default_config_has_three_bounces() {
    let config = RenderConfig::default();
    assert_eq!(config.max_bounces, 3);
    assert_eq!(config.samples, 100);
    assert_eq!(config.workers, 4);
}

fn lit_scene() -> (Scene, Material) {
    let mut scene = create_empty_scene();
    scene.ambiant_light = Light {
        color: color(1., 1., 1.),
        intensity: s(0.5),
        light_type: LightType::AmbiantLight,
    };
    scene.lights.push(Light {
        color: color(1., 0.5, 0.25),
        intensity: s(8.),
        light_type: LightType::PointLight { pos: vec3(0., 0., 0.) },
    });
    let mut material = Material::default();
    material.diffuse = color(0.5, 1., 1.);
    scene.objects.push(Object::Sphere(Sphere {
        center: vec3(3., 0., 0.),
        material,
        radius: s(1.),
    }));
    (scene, material)
}

#[test]
fn nearest_hit_is_the_first_of_the_nearest() {
    let (mut scene, material) = lit_scene();
    let mut other = material;
    other.reflectivity = s(1.);
    scene.objects.push(Object::Sphere(Sphere { center: vec3(3., 0., 0.), material: other, radius: s(1.) }));
    scene.objects.push(Object::Sphere(Sphere { center: vec3(2.5, 0., 0.), material: other, radius: s(1.) }));
    let ray = Ray { start: vec3(0., 0., 0.), dir: vec3(1., 0., 0.) };
    let hit = scene.get_intersect(ray).unwrap();
    assert_eq!(f(hit.dist), 1.5);
    assert_eq!(hit.material, other);
    scene.objects.pop();
    let hit = scene.get_intersect(ray).unwrap();
    assert_eq!(f(hit.dist), 2.);
    assert_eq!(hit.material, material);
    let away = Ray { start: vec3(0., 0., 0.), dir: vec3(-1., 0., 0.) };
    assert_eq!(scene.get_intersect(away), None);
}

#[test]
fn diffuse_light_follows_the_formula() {
    let (scene, material) = lit_scene();
    let ray = Ray { start: vec3(0., 0., 0.), dir: vec3(1., 0., 0.) };
    let hit = scene.get_intersect(ray).unwrap();
    assert_eq!(hit.pos, vec3(2., 0., 0.));
    assert!(scene.reaches(vec3(0., 0., 0.), hit.pos));
    let got = scene.compute_diffuse(&hit);
    // ambient: diffuse * 1 * 0.5; light: diffuse * color * 8 * (2 / 4)
    assert_eq!(got, color(0.25 + 0.5 * 8. * 0.5, 0.5 + 0.5 * 8. * 0.5, 0.5 + 0.25 * 8. * 0.5));
    let traced = scene.send_ray(ray, 3);
    assert_eq!(traced, got);
    assert_eq!(material.reflectivity, s(0.));
}

#[test]
fn a_sphere_in_the_way_takes_the_light_away() {
    let (mut scene, _material) = lit_scene();
    let ray = Ray { start: vec3(0., 0., 0.), dir: vec3(1., 0., 0.) };
    let hit = scene.get_intersect(ray).unwrap();
    scene.lights[0].light_type = LightType::PointLight { pos: vec3(-4., 0., 0.) };
    let lit = scene.compute_diffuse(&hit);
    assert!(f(lit.r) > 0.25);
    scene.objects.push(Object::Sphere(Sphere {
        center: vec3(-1., 0., 0.),
        material: Material::default(),
        radius: s(0.5),
    }));
    assert!(!scene.reaches(vec3(-4., 0., 0.), hit.pos));
    assert_eq!(scene.compute_diffuse(&hit), color(0.25, 0.5, 0.5));
}

#[test]
fn a_light_that_meets_nothing_is_skipped() {
    let (mut scene, material) = lit_scene();
    scene.objects.clear();
    let hit = Intersect { pos: vec3(2., 0., 0.), dist: s(2.), normal: vec3(-1., 0., 0.), material };
    assert!(!scene.reaches(vec3(0., 0., 0.), hit.pos));
    assert_eq!(scene.compute_diffuse(&hit), color(0.25, 0.5, 0.5));
    assert_eq!(scene.compute_specular(Ray { start: vec3(0., 0., 0.), dir: vec3(1., 0., 0.) }, &hit), color(0., 0., 0.));
}

#[test]
fn depth_zero_and_a_miss_give_the_ambient_light() {
    let (scene, _material) = lit_scene();
    let ray = Ray { start: vec3(0., 0., 0.), dir: vec3(1., 0., 0.) };
    assert_eq!(scene.send_ray(ray, 0), color(0.5, 0.5, 0.5));
    let away = Ray { start: vec3(0., 0., 0.), dir: vec3(0., 1., 0.) };
    assert_eq!(scene.send_ray(away, 3), color(0.5, 0.5, 0.5));
    assert_eq!(scene.trace(away, 3, &vec![1, 2, 3]), color(0.5, 0.5, 0.5));
}

#[test]
fn highlight_follows_the_formula() {
    let (mut scene, mut material) = lit_scene();
    material.specular = color(1., 1., 0.5);
    material.reflectivity = s(0.5);
    material.roughness = s(2.);
    scene.objects[0] = Object::Sphere(Sphere { center: vec3(3., 0., 0.), material, radius: s(1.) });
    let ray = Ray { start: vec3(0., 0., 0.), dir: vec3(1., 0., 0.) };
    let hit = scene.get_intersect(ray).unwrap();
    let got = scene.compute_specular(ray, &hit);
    // the ray comes straight from the light: the mirrored direction, negated, points back at it
    let factor = 1.0f64;
    let angle = factor.acos() / 2.;
    let k = angle.cos() / (2. * 2. * 2.);
    assert_eq!(got, color(0.5 + 1. * 8. * k, 0.5 + 0.5 * 8. * k, 0.25 + 0.25 * 0.5 * 8. * k));
}

#[test]
fn trace_is_a_function_of_its_draws() {
    let (mut scene, mut material) = lit_scene();
    material.specular = color(1., 1., 0.5);
    material.reflectivity = s(0.5);
    material.roughness = s(0.5);
    scene.objects[0] = Object::Sphere(Sphere { center: vec3(3., 0., 0.), material, radius: s(1.) });
    let ray = Ray { start: vec3(0., 0.2, 0.), dir: vec3(1., 0., 0.) };
    let draws: Vec<u64> = vec![11, 22, 0x8000_0000_0000_0000, 0x4000_0000_0000_0000, 5, 6, 7, 8];
    let first = scene.trace(ray, 3, &draws);
    let second = scene.trace(ray, 3, &draws);
    assert_eq!(first, second);
    assert!(f(first.r).is_finite() && f(first.r) > 0.);
    let hit = scene.get_intersect(ray).unwrap();
    let matte = scene.compute_diffuse(&hit).scaled(s(0.5));
    let shine = scene.compute_specular(ray, &hit).scaled(s(0.5));
    // the scattered ray leaves the scene: it brings back the ambient light
    let back = color(0.5, 0.5, 0.5).times(material.specular).scaled(s(0.5));
    assert_eq!(first, matte.plus(back).plus(shine));
    let sample = scene.sample(0, 0, 3, &draws).unwrap();
    assert!(f(sample.r).is_finite());
}

#[test]
fn rendering_a_sphere_gives_a_frame_with_maximum_one() {
    let (mut scene, mut material) = lit_scene();
    material.specular = color(1., 1., 0.5);
    material.reflectivity = s(0.5);
    scene.objects[0] = Object::Sphere(Sphere { center: vec3(3., 0., 0.), material, radius: s(1.) });
    scene.camera = Camera::new(vec3(0., 0., 0.), vec3(1., 0., 0.), None, Some((4, 3)), None).unwrap();
    let config = RenderConfig { max_bounces: 3, samples: 2, workers: 2 };
    for out in [
        scene.render_monothread(&config).unwrap(),
        scene.render_multithread(&config).unwrap(),
        scene.render_rayon(&config).unwrap(),
    ] {
        let out = floats(out);
        assert_eq!(out.len(), 36);
        assert!(out.iter().all(|v| *v >= 0. && *v <= 1.));
        assert!(out.iter().any(|v| *v == 1.));
    }
}

#[test]
fn combine_adds_or_hands_on_the_failure() {
    let a = Ok(color(1., 2., 3.));
    let b = Ok(color(0.5, 0.5, 0.5));
    assert_eq!(Scene::combine(a, b), Ok(color(1.5, 2.5, 3.5)));
    assert_eq!(Scene::combine(a, Err(RenderError::Degenerate)), Err(RenderError::Degenerate));
    assert_eq!(Scene::combine(Err(RenderError::Degenerate), b), Err(RenderError::Degenerate));
    assert_eq!(Scene::combine(Scene::nothing_yet(), b), b);
}

#[test]
fn camera_without_rays_is_refused() {
    let mut scene = create_empty_scene();
    let zero = vec3(0., 0., 0.);
    scene.camera = Camera { pos: zero, dir: zero, px_down: zero, px_left: zero, resolution: (1, 1) };
    let config = RenderConfig { max_bounces: 3, samples: 2, workers: 2 };
    assert_eq!(scene.render_monothread(&config).err(), Some(RenderError::Degenerate));
    assert_eq!(scene.render_multithread(&config).err(), Some(RenderError::Degenerate));
    assert_eq!(scene.render_rayon(&config).err(), Some(RenderError::Degenerate));
    assert_eq!(scene.render_pixel(0, 0, 3).err(), Some(RenderError::Degenerate));
}

#[test]
fn a_blocked_light_gives_no_highlight_either() {
    let (mut scene, mut material) = lit_scene();
    material.specular = color(1., 1., 0.5);
    material.reflectivity = s(0.5);
    scene.objects[0] = Object::Sphere(Sphere { center: vec3(3., 0., 0.), material, radius: s(1.) });
    let ray = Ray { start: vec3(0., 0., 0.), dir: vec3(1., 0., 0.) };
    let hit = scene.get_intersect(ray).unwrap();
    scene.lights[0].light_type = LightType::PointLight { pos: vec3(-4., 0., 0.) };
    let lit = scene.compute_specular(ray, &hit);
    assert!(f(lit.r) > 0.5);
    scene.objects.push(Object::Sphere(Sphere {
        center: vec3(-1., 0., 0.),
        material: Material::default(),
        radius: s(0.5),
    }));
    assert_eq!(scene.compute_specular(ray, &hit), color(0.5, 0.5, 0.25));
}

#[test]
fn reflection_needs_a_direction_to_scatter_around() {
    let (scene, material) = lit_scene();
    let hit = Intersect { pos: vec3(2., 0., 0.), dist: s(2.), normal: vec3(-1., 0., 0.), material };
    let still = Ray { start: vec3(0., 0., 0.), dir: vec3(0., 0., 0.) };
    assert_eq!(scene.compute_reflection(still, &hit, 1, &vec![0; 4]), None);
    let ray = Ray { start: vec3(0., 0., 0.), dir: vec3(1., 0., 0.) };
    let mut shiny = material;
    shiny.specular = color(0.5, 1., 2.);
    let hit = Intersect { pos: vec3(2., 0., 0.), dist: s(2.), normal: vec3(-1., 0., 0.), material: shiny };
    // with all draws zero the ray goes straight back and leaves the scene
    assert_eq!(scene.compute_reflection(ray, &hit, 1, &vec![0; 4]), Some(color(0.25, 0.5, 1.)));
}

fn reference_sample(l: u32, c: u32, first: u64, second: u64) -> [f64; 3] {
    // the scene of `lit_scene`, in hardware arithmetic
    let unit = |w: u64| ((w >> 11) as f64) * (1.0 / 9007199254740992.0);
    let (width, height) = (8.0f64, 6.0f64);
    let delta = (90.0f64 * std::f64::consts::PI / 180.) / width;
    // direction (1, 0, 0), up (0, 0, 1), right = dir x up = (0, -1, 0)
    let px_down = [0.0 * -delta, 0.0 * -delta, 1.0 * -delta];
    let right = [0.0 * 1.0 - 0.0 * 0.0, 0.0 * 0.0 - 1.0 * 1.0, 1.0 * 0.0 - 0.0 * 0.0];
    let px_left = [right[0] * -delta, right[1] * -delta, right[2] * -delta];
    let column = c as f64 + unit(first) - 0.5;
    let row = l as f64 + unit(second) - 0.5;
    let dx = column - width / 2.0;
    let dy = row - height / 2.0;
    let w = [
        1.0 + px_down[0] * dy + px_left[0] * dx,
        0.0 + px_down[1] * dy + px_left[1] * dx,
        0.0 + px_down[2] * dy + px_left[2] * dx,
    ];
    let norm = (w[0] * w[0] + w[1] * w[1] + w[2] * w[2]).sqrt();
    let dir = [w[0] / norm, w[1] / norm, w[2] / norm];
    let ambient = [1.0 * 0.5, 1.0 * 0.5, 1.0 * 0.5];
    // sphere at (3, 0, 0) of radius 1, ray from the origin
    let oc = [0.0 - 3.0, 0.0 - 0.0, 0.0 - 0.0];
    let a = dir[0] * dir[0] + dir[1] * dir[1] + dir[2] * dir[2];
    let b = 2.0 * (oc[0] * dir[0] + oc[1] * dir[1] + oc[2] * dir[2]);
    let cc = (oc[0] * oc[0] + oc[1] * oc[1] + oc[2] * oc[2]) - 1.0 * 1.0;
    let disc = b * b - 4.0 * a * cc;
    if disc < 0.0 {
        return ambient;
    }
    let dist = (-b - disc.sqrt()) / (2.0 * a);
    if !(dist > 0.0) {
        return ambient;
    }
    let pos = [0.0 + dir[0] * dist, 0.0 + dir[1] * dist, 0.0 + dir[2] * dist];
    let nv = [pos[0] - 3.0, pos[1] - 0.0, pos[2] - 0.0];
    let nn = (nv[0] * nv[0] + nv[1] * nv[1] + nv[2] * nv[2]).sqrt();
    let normal = [nv[0] / nn, nv[1] / nn, nv[2] / nn];
    let diffuse = [0.5f64, 1.0, 1.0];
    let mut color = [diffuse[0] * 1.0 * 0.5, diffuse[1] * 1.0 * 0.5, diffuse[2] * 1.0 * 0.5];
    // the light at the origin: the ray from it to the hit is the ray itself
    let way = [0.0 - pos[0], 0.0 - pos[1], 0.0 - pos[2]];
    let factor = normal[0] * way[0] + normal[1] * way[1] + normal[2] * way[2];
    let far = (way[0] * way[0] + way[1] * way[1] + way[2] * way[2]).sqrt();
    let back = [pos[0] - 0.0, pos[1] - 0.0, pos[2] - 0.0];
    let bn = (back[0] * back[0] + back[1] * back[1] + back[2] * back[2]).sqrt();
    let ld = [back[0] / bn, back[1] / bn, back[2] / bn];
    let la = ld[0] * ld[0] + ld[1] * ld[1] + ld[2] * ld[2];
    let lb = 2.0 * (oc[0] * ld[0] + oc[1] * ld[1] + oc[2] * ld[2]);
    let ldisc = lb * lb - 4.0 * la * cc;
    let reached = if ldisc < 0.0 {
        false
    } else {
        let d = (-lb - ldisc.sqrt()) / (2.0 * la);
        let sp = [ld[0] * d - 3.0, ld[1] * d, ld[2] * d];
        let spn = (sp[0] * sp[0] + sp[1] * sp[1] + sp[2] * sp[2]).sqrt();
        d > 0.0 && spn != 0.0 && !(d < far - 1e-9)
    };
    if reached && factor > 0.0 {
        let k = factor / (far * far);
        let light = [1.0f64, 0.5, 0.25];
        for i in 0..3 {
            color[i] = color[i] + diffuse[i] * light[i] * 8.0 * k;
        }
    }
    [color[0] * (1.0 - 0.0), color[1] * (1.0 - 0.0), color[2] * (1.0 - 0.0)]
}

#[test]
fn samples_match_hardware_arithmetic() {
    let (mut scene, _material) = lit_scene();
    scene.camera = Camera::new(vec3(0., 0., 0.), vec3(1., 0., 0.), None, Some((8, 6)), None).unwrap();
    let mut state: u64 = 12345;
    let mut hits = 0;
    for l in 0..6 {
        for c in 0..8 {
            state = state.wrapping_mul(6364136223846793005).wrapping_add(1442695040888963407);
            let first = state;
            state = state.wrapping_mul(6364136223846793005).wrapping_add(1442695040888963407);
            let second = state;
            let draws = vec![first, second, 0, 0, 0, 0, 0, 0];
            let got = scene.sample(l, c, 3, &draws).unwrap();
            let want = reference_sample(l, c, first, second);
            assert_eq!([f(got.r), f(got.g), f(got.b)], want, "pixel {} {}", l, c);
            if want != [0.5, 0.5, 0.5] {
                hits += 1;
            }
        }
    }
    assert!(hits > 0 && hits < 48);
}

#[test]
fn samples_of_a_pixel_add_up() {
    let mut scene = create_empty_scene();
    scene.ambiant_light.color = color(0.5, 0.25, 1.);
    scene.ambiant_light.intensity = s(3.);
    let config = RenderConfig { max_bounces: 2, samples: 5, workers: 1 };
    assert_eq!(scene.sum_in_turn(0, 0, &config), Ok(color(7.5, 3.75, 15.)));
    let none = RenderConfig { max_bounces: 2, samples: 0, workers: 1 };
    assert_eq!(scene.sum_in_turn(0, 0, &none), Ok(color(0., 0., 0.)));
    assert_eq!(scene.render_monothread(&none).err(), Some(RenderError::NoPositiveMaximum));
}

#[test]
fn whole_ambient_light_gives_the_same_frame_however_the_samples_are_grouped() {
    let mut scene = create_empty_scene();
    scene.camera = Camera::new(vec3(0., 0., 0.), vec3(1., 0., 0.), None, Some((2, 2)), None).unwrap();
    scene.ambiant_light.color = color(1., 0., 1.);
    scene.ambiant_light.intensity = s(3.);
    let config = RenderConfig { max_bounces: 3, samples: 1000, workers: 4 };
    let mono = floats(scene.render_monothread(&config).unwrap());
    for _ in 0..5 {
        assert_eq!(floats(scene.render_rayon(&config).unwrap()), mono);
        assert_eq!(floats(scene.render_multithread(&config).unwrap()), mono);
    }
    assert_eq!(mono, [1., 0., 1.].repeat(4));
}

#[test]
fn lights_that_add_up_without_rounding_give_the_same_frame_in_any_grouping() {
    let mut scene = create_empty_scene();
    scene.camera = Camera::new(vec3(0., 0., 0.), vec3(1., 0., 0.), None, Some((3, 2)), None).unwrap();
    scene.ambiant_light.color = color(0.75, 0.375, 1.);
    scene.ambiant_light.intensity = s(1.5);
    let config = RenderConfig { max_bounces: 3, samples: 500, workers: 3 };
    let mono = floats(scene.render_monothread(&config).unwrap());
    for _ in 0..3 {
        assert_eq!(floats(scene.render_rayon(&config).unwrap()), mono);
        assert_eq!(floats(scene.render_multithread(&config).unwrap()), mono);
    }
    assert_eq!(mono, [0.75, 0.375, 1.].repeat(6));
}
