use raytracer::coord::Vec3d;
use raytracer::error::RenderError;
use raytracer::scalar::Scalar;
use raytracer::scene::camera::Camera;
use raytracer::scene::image::{png_outcome, quantize};
use raytracer::scene::light::{Light, LightType};
use raytracer::scene::object::material::Color;
use raytracer::scene::{Parallel, RenderConfig, Scene};

fn s(v: f64) -> Scalar {
    Scalar::from_bits(v.to_bits())
}

fn vec3(x: f64, y: f64, z: f64) -> Vec3d {
    Vec3d { x: s(x), y: s(y), z: s(z) }
}

fn scene(width: u32, height: u32) -> Scene {
    let camera =
        Camera::new(vec3(0., 0., 0.), vec3(1., 0., 0.), None, Some((width, height)), None).unwrap();
    let ambiant_light = Light {
        color: Color { r: s(1.), g: s(0.5), b: s(0.) },
        intensity: s(1.),
        light_type: LightType::AmbiantLight,
    };
    Scene { camera, ambiant_light, lights: vec![], objects: vec![] }
}

fn decode(file: &[u8]) -> (u32, u32, Vec<u8>) {
    let decoder = png::Decoder::new(file);
    let mut reader = decoder.read_info().unwrap();
    let mut data = vec![0; reader.output_buffer_size()];
    let info = reader.next_frame(&mut data).unwrap();
    assert_eq!(info.color_type, png::ColorType::Rgb);
    assert_eq!(info.bit_depth, png::BitDepth::Eight);
    data.truncate(info.buffer_size());
    (info.width, info.height, data)
}

#[test]
fn numbers_become_bytes_as_a_cast_makes_them() {
    let values = [0., 1., 0.5, 0.999, 0.25, 1e-9, 2., -1., f64::NAN, f64::INFINITY, 0.00392156862745098];
    let frame: Vec<Scalar> = values.iter().map(|v| s(*v)).collect();
    let want: Vec<u8> = values.iter().map(|v| (*v * 255.) as u8).collect();
    assert_eq!(quantize(&frame), want);
    assert_eq!(quantize(&vec![]), Vec::<u8>::new());
}

#[test]
fn frame_becomes_a_png_file_of_its_bytes() {
    let scene = scene(2, 1);
    let frame: Vec<Scalar> = [0., 1., 0.5, 0.25, 0.75, 1.].iter().map(|v| s(*v)).collect();
    let file = scene.to_png(&frame).unwrap();
    assert_eq!(file[..8], [137, 80, 78, 71, 13, 10, 26, 10]);
    assert_ne!(file, quantize(&frame));
    let (width, height, data) = decode(&file);
    assert_eq!((width, height), (2, 1));
    assert_eq!(data, vec![0, 255, 127, 63, 191, 255]);
    assert_eq!(file, scene.to_png(&frame).unwrap());
}

#[test]
fn frame_of_the_wrong_size_is_refused() {
    let frame: Vec<Scalar> = [0., 1., 0.5].iter().map(|v| s(*v)).collect();
    assert_eq!(scene(2, 1).to_png(&frame).err(), Some(RenderError::FrameSize));
    assert_eq!(scene(1, 1).to_png(&vec![]).err(), Some(RenderError::FrameSize));
    assert_eq!(scene(0, 3).to_png(&vec![]).err(), Some(RenderError::FrameSize));
    assert_eq!(scene(3, 0).to_png(&vec![]).err(), Some(RenderError::FrameSize));
    assert!(scene(1, 1).to_png(&frame).is_ok());
}

#[test]
fn render_gives_the_file_of_the_frame() {
    let scene = scene(3, 2);
    let config = RenderConfig { max_bounces: 3, samples: 3, workers: 2 };
    for parallel in [Parallel::No, Parallel::Basic, Parallel::Rayon] {
        let file = scene.render(parallel, &config).unwrap();
        let (width, height, data) = decode(&file);
        assert_eq!((width, height), (3, 2));
        assert_eq!(data, [255u8, 127, 0].repeat(6));
    }
    let none = RenderConfig { max_bounces: 3, samples: 3, workers: 0 };
    assert_eq!(scene.render(Parallel::Basic, &none).err(), Some(RenderError::NoWorkers));
    assert!(scene.render(Parallel::No, &none).is_ok());
    assert_eq!(Parallel::default(), Parallel::No);
}

#[test]
fn a_failure_of_the_encoder_is_handed_on() {
    assert_eq!(png_outcome(Err(png::EncodingError::LimitsExceeded)), Err(RenderError::Encoder));
    assert_eq!(png_outcome(Ok(vec![1, 2, 3])), Ok(vec![1, 2, 3]));
}

#[test]
fn render_of_an_ambient_scene_is_the_file_of_its_frame() {
    let scene = scene(2, 2);
    let config = RenderConfig { max_bounces: 3, samples: 4, workers: 2 };
    let frame: Vec<Scalar> = [1., 0.5, 0.].repeat(4).iter().map(|v| s(*v)).collect();
    let want = scene.to_png(&frame).unwrap();
    for parallel in [Parallel::No, Parallel::Basic, Parallel::Rayon] {
        assert_eq!(scene.render(parallel, &config).unwrap(), want);
    }
    let mut dark = scene;
    dark.ambiant_light.intensity = s(0.);
    for parallel in [Parallel::No, Parallel::Basic, Parallel::Rayon] {
        assert_eq!(dark.render(parallel, &config).err(), Some(RenderError::NoPositiveMaximum));
    }
}

#[test]
fn render_of_an_ambient_scene_does_not_ask_where_the_camera_looks() {
    let config = RenderConfig { max_bounces: 3, samples: 4, workers: 2 };
    let frame: Vec<Scalar> = [1., 0.5, 0.].repeat(6).iter().map(|v| s(*v)).collect();
    let along_axes = [vec3(-1., 0., 0.), vec3(0., 1., 0.), vec3(0., -1., 0.), vec3(1., 0., 0.)];
    let others = [vec3(0.3, -2., 0.7), vec3(1e-3, 5., 5.), vec3(-4., 4., -0.5)];
    for dir in along_axes.iter().chain(others.iter()) {
        let mut scene = scene(3, 2);
        scene.camera = Camera::new(vec3(1., -2., 0.5), *dir, None, Some((3, 2)), None).unwrap();
        let want = scene.to_png(&frame).unwrap();
        for parallel in [Parallel::No, Parallel::Basic, Parallel::Rayon] {
            assert_eq!(scene.render(parallel, &config).unwrap(), want);
        }
    }
}
