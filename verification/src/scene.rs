//! The scene and the ways of rendering it.
use vstd::prelude::*;
use crate::error::RenderError;
use crate::scalar::Scalar;
use crate::scene::camera::Camera;
use crate::scene::image::{png_file, quantized};
use crate::scene::renderer::{peak, scaled_frame};
use crate::scene::light::Light;
use crate::scene::object::Object;

pub mod camera;
pub mod image;
pub mod light;
pub mod object;
pub mod parser;
pub mod renderer;
pub mod workers;

verus! {

/// How the samples of a pixel are computed: one after another, by a fixed
/// pool of workers, or by a data-parallel reduction.
#[derive(Clone, Copy, Debug, PartialEq, Eq, Structural)]
pub enum Parallel {
    No,
    Basic,
    Rayon,
}

impl Default for Parallel {
    fn default() -> (r: Parallel)
        ensures
            r == Parallel::No,
    {
        Parallel::No
    }
}

/// The number of bounces after which a ray is followed no further, where
/// none is given.
pub const MAX_BOUNCES: u16 = 3;

/// The number of samples per pixel where none is given.
pub const DEFAULT_SAMPLES: u32 = 100;

/// The number of workers in the pool where none is given.
pub const DEFAULT_WORKERS: usize = 4;

/// A scene: the camera, the ambient light, the point lights and the
/// objects, each list in the order in which it was given.
pub struct Scene {
    pub camera: Camera,
    pub ambiant_light: Light,
    pub lights: Vec<Light>,
    pub objects: Vec<Object>,
}

/// What a render is run with: the number of bounces after which a ray is
/// followed no further, the number of samples per pixel, and the number of
/// workers in the pool.
#[derive(Debug, Clone, Copy)]
pub struct RenderConfig {
    pub max_bounces: u16,
    pub samples: u32,
    pub workers: usize,
}

impl Default for RenderConfig {
    fn default() -> (r: RenderConfig)
        ensures
            r.max_bounces == MAX_BOUNCES,
            r.samples == DEFAULT_SAMPLES,
            r.workers == DEFAULT_WORKERS,
    {
        RenderConfig { max_bounces: MAX_BOUNCES, samples: DEFAULT_SAMPLES, workers: DEFAULT_WORKERS }
    }
}

impl Scene {
    /// What the driver that `parallel` names states of a frame it gives.
    pub open spec fn rendered_by(&self, parallel: Parallel, config: &RenderConfig, frame: Vec<Scalar>) -> bool {
        match parallel {
            Parallel::Rayon => self.rendered(config, Ok(frame)),
            _ => self.rendered_in_turn(config, Ok(frame)),
        }
    }

    /// Whether the failure `e` is one that `render` hands on, and for its
    /// reason: no workers where the pool has none; degenerate where the
    /// camera has no ray for some sample of some pixel; no positive maximum
    /// where a frame of the scene has none; and the encoder's failure
    /// where it makes no file of a frame that the driver gave. The size of
    /// the frame never fails.
    pub open spec fn failure_of(&self, parallel: Parallel, config: &RenderConfig, e: RenderError) -> bool {
        let w: u32 = self.camera.resolution.0;
        let h: u32 = self.camera.resolution.1;
        match e {
            RenderError::NoWorkers => parallel == Parallel::Basic && config.workers == 0,
            RenderError::Degenerate => self.some_sample_fails(config),
            RenderError::NoPositiveMaximum => exists|raw: Seq<Scalar>|
                #![trigger peak(raw)]
                self.frame_upto(config, parallel != Parallel::Rayon, raw, w as nat * h as nat) && !peak(
                    raw,
                ).greater(Scalar { bits: 0 }),
            RenderError::Encoder => exists|frame: Vec<Scalar>|
                #![trigger self.rendered_by(parallel, config, frame)]
                self.rendered_by(parallel, config, frame) && png_file(w, h, quantized(frame@)).is_none(),
            RenderError::FrameSize => false,
        }
    }

    /// What `render` gives of a scene whose frame is the same whatever is
    /// drawn: where the frame has a positive maximum, the file that the
    /// encoder makes of the bytes of the frame over its maximum, or the
    /// encoder's failure where it makes none; else the failure for want
    /// of a positive maximum.
    pub open spec fn steady_outcome(&self, config: &RenderConfig, r: Result<Vec<u8>, RenderError>) -> bool {
        let raw: Seq<Scalar> = self.empty_scene_frame(config);
        if peak(raw).greater(Scalar { bits: 0 }) {
            match png_file(
                self.camera.resolution.0,
                self.camera.resolution.1,
                quantized(scaled_frame(raw, peak(raw))),
            ) {
                Some(file) => r matches Ok(bytes) && bytes@ == file,
                None => r == Err::<Vec<u8>, RenderError>(RenderError::Encoder),
            }
        } else {
            r == Err::<Vec<u8>, RenderError>(RenderError::NoPositiveMaximum)
        }
    }

    /// Renders the scene with the driver that `parallel` names, and gives
    /// the frame as a PNG file: the file that the encoder makes of the
    /// bytes of the frame that the driver gave, at the camera's width and
    /// height. A failure of the driver is handed on, and each failure
    /// comes for its reason alone. With a camera that looks along an
    /// axis no sample fails. Of a scene whose frame is the same whatever
    /// is drawn, the result is the file of that frame with every driver
    /// and every camera, unless the camera has no ray for some sample.
    pub fn render(&self, parallel: Parallel, config: &RenderConfig) -> (r: Result<Vec<u8>, RenderError>)
        ensures
            parallel == Parallel::Basic && config.workers == 0 ==> r == Err::<Vec<u8>, RenderError>(
                RenderError::NoWorkers,
            ),
            r matches Ok(bytes) ==> exists|frame: Vec<Scalar>|
                #![trigger self.rendered_by(parallel, config, frame)]
                self.rendered_by(parallel, config, frame) && png_file(
                    self.camera.resolution.0,
                    self.camera.resolution.1,
                    quantized(frame@),
                ) == Some(bytes@),
            r matches Err(e) ==> self.failure_of(parallel, config, e),
            self.camera.looks_along_axis() ==> r != Err::<Vec<u8>, RenderError>(RenderError::Degenerate),
            !(parallel == Parallel::Basic && config.workers == 0) && self.steady(
                config,
                parallel != Parallel::Rayon,
            ) ==> r == Err::<Vec<u8>, RenderError>(RenderError::Degenerate) || self.steady_outcome(config, r),
    {
        let rendered: Result<Vec<Scalar>, RenderError> = match parallel {
            Parallel::No => self.render_monothread(config),
            Parallel::Basic => self.render_multithread(config),
            Parallel::Rayon => self.render_rayon(config),
        };
        match rendered {
            Ok(frame) => {
                proof {
                    assert(self.rendered_by(parallel, config, frame));
                    lemma_rendered_frame_fits(self, config, parallel, frame);
                }
                self.to_png(&frame)
            },
            Err(e) => Err(e),
        }
    }
}

/// A frame that a driver gave holds three numbers for each pixel, and there
/// is a pixel.
proof fn lemma_rendered_frame_fits(scene: &Scene, config: &RenderConfig, parallel: Parallel, frame: Vec<Scalar>)
    requires
        scene.rendered_by(parallel, config, frame),
    ensures
        crate::scene::image::frame_fits(
            scene.camera.resolution.0,
            scene.camera.resolution.1,
            frame@.len(),
        ),
{
    let w: u32 = scene.camera.resolution.0;
    let h: u32 = scene.camera.resolution.1;
    let in_turn: bool = parallel != Parallel::Rayon;
    let raw: Seq<Scalar> = choose|raw: Seq<Scalar>|
        scene.frame_upto(config, in_turn, raw, w as nat * h as nat)
            && #[trigger] crate::scene::renderer::normalized_as(Ok(frame), raw);
    lemma_scaled_frame_fits(w, h, frame@, raw);
}

/// A frame that `normalize` made of three numbers for each pixel has as
/// many, and there is a pixel.
proof fn lemma_scaled_frame_fits(w: u32, h: u32, frame: Seq<Scalar>, raw: Seq<Scalar>)
    requires
        raw.len() == 3 * (w as nat * h as nat),
        crate::scene::renderer::peak(raw).greater(Scalar { bits: 0 }),
        frame == crate::scene::renderer::scaled_frame(raw, crate::scene::renderer::peak(raw)),
    ensures
        crate::scene::image::frame_fits(w, h, frame.len()),
{
    if raw.len() == 0 {
        assert(crate::scene::renderer::peak(raw) == Scalar { bits: crate::scalar::NAN_BITS });
    }
    assert(w > 0 && h > 0) by (nonlinear_arith)
        requires
            3 * (w as nat * h as nat) > 0,
    ;
}

} // verus!
