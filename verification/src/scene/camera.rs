//! The camera and the rays it sends.
use vstd::prelude::*;
use crate::coord::{Vec3d, lemma_has_direction, lemma_axis_is_unit, lemma_axis_direction, unit_or_nan};
use crate::scalar::nearest::{lemma_zero_times, lemma_plus_zero};
use crate::error::GeometryError;
use crate::scalar::{Scalar, ONE_BITS, TWO_BITS, PI_BITS};

verus! {

/// The pattern of 180, the degrees in half a turn.
pub const HALF_TURN_BITS: u64 = 0x4066_8000_0000_0000;

/// The pattern of 90, the field of view in degrees where none is given.
pub const DEFAULT_FOV_BITS: u64 = 0x4056_8000_0000_0000;

/// The width in pixels where none is given.
pub const DEFAULT_WIDTH: u32 = 1024;

/// The height in pixels where none is given.
pub const DEFAULT_HEIGHT: u32 = 768;

/// A camera: where it stands, the unit direction it looks in, the step in
/// direction from one pixel to the next, downwards and leftwards, and the
/// resolution as width and height.
#[derive(Debug, Clone, Copy)]
pub struct Camera {
    pub pos: Vec3d,
    pub dir: Vec3d,
    pub px_down: Vec3d,
    pub px_left: Vec3d,
    pub resolution: (u32, u32),
}

/// A half-line: where it starts, and its unit direction.
#[derive(Debug, Clone, Copy)]
pub struct Ray {
    pub start: Vec3d,
    pub dir: Vec3d,
}

impl Camera {
    /// The upward direction where none is given: the z axis.
    pub open spec fn default_up() -> Vec3d {
        Vec3d { x: Scalar { bits: 0 }, y: Scalar { bits: 0 }, z: Scalar { bits: ONE_BITS } }
    }

    /// The part of the unit vector `up` that is orthogonal to the unit
    /// vector `dir`, at length one.
    pub open spec fn upright(up: Vec3d, dir: Vec3d) -> Option<Vec3d> {
        up.minus(dir.times(up.dot(dir))).normalize()
    }

    /// The angle between two neighbouring pixels, in radians: the field of
    /// view, given in degrees, over the width.
    pub open spec fn pixel_angle(fov: Scalar, width: u32) -> Scalar {
        fov.times(Scalar::from_bits(PI_BITS)).over(Scalar::from_bits(HALF_TURN_BITS)).over(
            Scalar::of_int(width as int),
        )
    }

    /// The camera that `new` builds, where it builds one.
    #[verifier::opaque]
    pub open spec fn built(
        pos: Vec3d,
        dir: Vec3d,
        up: Option<Vec3d>,
        resolution: Option<(u32, u32)>,
        fov: Option<Scalar>,
    ) -> Option<Camera> {
        let up_given: Vec3d = match up {
            Some(u) => u,
            None => Camera::default_up(),
        };
        let res: (u32, u32) = match resolution {
            Some(r) => r,
            None => (DEFAULT_WIDTH, DEFAULT_HEIGHT),
        };
        let angle: Scalar = match fov {
            Some(f) => f,
            None => Scalar::from_bits(DEFAULT_FOV_BITS),
        };
        match (dir.normalize(), up_given.normalize()) {
            (Some(d), Some(u)) => match Camera::upright(u, d) {
                Some(v) => {
                    let step: Scalar = Camera::pixel_angle(angle, res.0).negated();
                    Some(
                        Camera {
                            pos,
                            dir: d,
                            px_down: v.times(step),
                            px_left: d.cross(v).times(step),
                            resolution: res,
                        },
                    )
                },
                None => None,
            },
            _ => None,
        }
    }

    /// Builds a camera at `pos` that looks along `dir`. `up` is the upward
    /// direction (the z axis where none is given), `resolution` the width
    /// and height in pixels (1024 by 768) and `fov` the horizontal field of
    /// view in degrees (90). `dir` is brought to length one, `up` made
    /// orthogonal to it and brought to length one. The camera is refused as
    /// degenerate where one of these three has no direction: `dir` or `up`
    /// has length zero, or `up` is parallel to `dir`.
    pub fn new(
        pos: Vec3d,
        dir: Vec3d,
        up: Option<Vec3d>,
        resolution: Option<(u32, u32)>,
        fov: Option<Scalar>,
    ) -> (r: Result<Camera, GeometryError>)
        ensures
            match Camera::built(pos, dir, up, resolution, fov) {
                Some(c) => r == Ok::<Camera, GeometryError>(c),
                None => r == Err::<Camera, GeometryError>(GeometryError::Degenerate),
            },
    {
        reveal(Camera::built);
        let up_given: Vec3d = match up {
            Some(u) => u,
            None => Vec3d {
                x: Scalar { bits: 0 },
                y: Scalar { bits: 0 },
                z: Scalar { bits: ONE_BITS },
            },
        };
        let res: (u32, u32) = match resolution {
            Some(r) => r,
            None => (DEFAULT_WIDTH, DEFAULT_HEIGHT),
        };
        let angle: Scalar = match fov {
            Some(f) => f,
            None => Scalar::from_bits(DEFAULT_FOV_BITS),
        };
        let d: Vec3d = match dir.normalize() {
            Some(d) => d,
            None => {
                return Err(GeometryError::Degenerate);
            },
        };
        let u: Vec3d = match up_given.normalize() {
            Some(u) => u,
            None => {
                return Err(GeometryError::Degenerate);
            },
        };
        let v: Vec3d = match u.minus(d.times(u.dot(d))).normalize() {
            Some(v) => v,
            None => {
                return Err(GeometryError::Degenerate);
            },
        };
        let step: Scalar = angle.times(Scalar::from_bits(PI_BITS)).over(
            Scalar::from_bits(HALF_TURN_BITS),
        ).over(Scalar::from_u32(res.0)).negated();
        Ok(
            Camera {
                pos,
                dir: d,
                px_down: v.times(step),
                px_left: d.cross(v).times(step),
                resolution: res,
            },
        )
    }

    /// The direction, not yet of length one, through the point `px` of the
    /// image: the view direction, turned by the offset of `px` from the
    /// centre of the image.
    pub open spec fn window(&self, px: (Scalar, Scalar)) -> Vec3d {
        let two: Scalar = Scalar::from_bits(TWO_BITS);
        let dx: Scalar = px.0.minus(Scalar::of_int(self.resolution.0 as int).over(two));
        let dy: Scalar = px.1.minus(Scalar::of_int(self.resolution.1 as int).over(two));
        self.dir.plus(self.px_down.times(dy)).plus(self.px_left.times(dx))
    }

    /// The ray from the camera through the point `px` of the image, given
    /// as column and row, either of which may lie between two pixels. It is
    /// refused as degenerate where the direction through `px` has length
    /// zero.
    pub fn ray(&self, px: (Scalar, Scalar)) -> (r: Result<Ray, GeometryError>)
        ensures
            match self.window(px).normalize() {
                Some(d) => r == Ok::<Ray, GeometryError>(Ray { start: self.pos, dir: d }),
                None => r == Err::<Ray, GeometryError>(GeometryError::Degenerate),
            },
    {
        let two: Scalar = Scalar::from_bits(TWO_BITS);
        let dx: Scalar = px.0.minus(Scalar::from_u32(self.resolution.0).over(two));
        let dy: Scalar = px.1.minus(Scalar::from_u32(self.resolution.1).over(two));
        let through: Vec3d = self.dir.plus(self.px_down.times(dy)).plus(self.px_left.times(dx));
        match through.normalize() {
            Some(d) => Ok(Ray { start: self.pos, dir: d }),
            None => Err(GeometryError::Degenerate),
        }
    }

    /// The width of the image in pixels.
    pub fn width(&self) -> (r: u32)
        ensures
            r == self.resolution.0,
    {
        self.resolution.0
    }

    /// The height of the image in pixels.
    pub fn height(&self) -> (r: u32)
        ensures
            r == self.resolution.1,
    {
        self.resolution.1
    }
}

impl Camera {
    /// Whether the camera looks along an axis with nothing of its pixel
    /// steps along it: along the axis its direction has 1 or -1 for its
    /// coordinate, and the coordinate of either step is zero, or NaN.
    pub open spec fn looks_along_axis(&self) -> bool {
        along(self.dir.x, self.px_down.x, self.px_left.x) || along(
            self.dir.y,
            self.px_down.y,
            self.px_left.y,
        ) || along(self.dir.z, self.px_down.z, self.px_left.z)
    }

    /// A camera that looks along an axis has a ray through every point of
    /// the image, and beyond.
    pub proof fn lemma_ray_along_axis(&self, px: (Scalar, Scalar))
        requires
            self.looks_along_axis(),
        ensures
            self.window(px).normalize().is_some(),
    {
        let two: Scalar = Scalar::from_bits(TWO_BITS);
        let dx: Scalar = px.0.minus(Scalar::of_int(self.resolution.0 as int).over(two));
        let dy: Scalar = px.1.minus(Scalar::of_int(self.resolution.1 as int).over(two));
        let w: Vec3d = self.window(px);
        if along(self.dir.x, self.px_down.x, self.px_left.x) {
            lemma_window_coordinate(self.dir.x, self.px_down.x, self.px_left.x, dy, dx);
        }
        if along(self.dir.y, self.px_down.y, self.px_left.y) {
            lemma_window_coordinate(self.dir.y, self.px_down.y, self.px_left.y, dy, dx);
        }
        if along(self.dir.z, self.px_down.z, self.px_left.z) {
            lemma_window_coordinate(self.dir.z, self.px_down.z, self.px_left.z, dy, dx);
        }
        lemma_has_direction(w);
    }

    /// A camera built to look along the first or the second axis, in
    /// either sense, with the third axis for its upward direction, looks
    /// along that axis, whatever its position, its resolution and its
    /// field of view.
    pub proof fn lemma_built_along_axis(
        pos: Vec3d,
        dir: Vec3d,
        resolution: Option<(u32, u32)>,
        fov: Option<Scalar>,
    )
        requires
            (dir.x.mag() == ONE_BITS && dir.y.zero() && dir.z.zero()) || (dir.x.zero() && dir.y.mag()
                == ONE_BITS && dir.z.zero()),
        ensures
            Camera::built(pos, dir, None, resolution, fov) matches Some(camera)
                && camera.looks_along_axis() && camera.pos == pos && camera.resolution == (match resolution {
                Some(r) => r,
                None => (DEFAULT_WIDTH, DEFAULT_HEIGHT),
            }),
    {
        reveal(Camera::built);
        let one: Scalar = Scalar { bits: ONE_BITS };
        lemma_axis_direction(dir);
        let d: Vec3d = dir.normalize().unwrap();
        let up: Vec3d = Camera::default_up();
        lemma_axis_is_unit(up);
        let u: Vec3d = up.normalize().unwrap();
        assert(u.x.zero() && u.y.zero() && u.z == one);
        let leaning: Vec3d = u.minus(d.times(u.dot(d)));
        lemma_axes_are_orthogonal(u, d);
        lemma_axis_is_unit(leaning);
        let v: Vec3d = leaning.normalize().unwrap();
        assert(Camera::upright(u, d) == Some(v));
        let angle: Scalar = match fov {
            Some(f) => f,
            None => Scalar::from_bits(DEFAULT_FOV_BITS),
        };
        let res: (u32, u32) = match resolution {
            Some(r) => r,
            None => (DEFAULT_WIDTH, DEFAULT_HEIGHT),
        };
        let step: Scalar = Camera::pixel_angle(angle, res.0).negated();
        let right: Vec3d = d.cross(v);
        lemma_axes_cross(d, v);
        lemma_zero_times(v.x, step);
        lemma_zero_times(v.y, step);
        if dir.x.mag() == ONE_BITS {
            lemma_zero_times(right.x, step);
        } else {
            lemma_zero_times(right.y, step);
        }
    }
}

/// The third axis has no part along a direction in the plane of the other
/// two: what is left of it beside the direction is itself.
proof fn lemma_axes_are_orthogonal(u: Vec3d, d: Vec3d)
    requires
        u.x.zero() && u.y.zero() && u.z == (Scalar { bits: ONE_BITS }),
        d.x.finite() && d.y.finite() && d.z.zero(),
    ensures
        ({
            let leaning: Vec3d = u.minus(d.times(u.dot(d)));
            leaning.x.zero() && leaning.y.zero() && leaning.z == (Scalar { bits: ONE_BITS })
        }),
{
    reveal(Scalar::spec_times);
    reveal(Scalar::spec_plus);
    let along: Scalar = u.dot(d);
    assert(along.zero());
    let part: Vec3d = d.times(along);
    assert(part.x.zero() && part.y.zero() && part.z.zero());
}

/// The vector product of a direction in the plane of the first two axes
/// with the third axis has no part along the axis that the direction
/// runs along.
proof fn lemma_axes_cross(d: Vec3d, v: Vec3d)
    requires
        v.x.zero() && v.y.zero() && v.z == (Scalar { bits: ONE_BITS }),
        d.x.finite() && d.y.finite() && d.z.zero(),
    ensures
        d.y.zero() ==> d.cross(v).x.zero(),
        d.x.zero() ==> d.cross(v).y.zero(),
{
    reveal(Scalar::spec_times);
    reveal(Scalar::spec_plus);
    assert(v.y.times(d.z).zero());
    assert(d.z.times(v.x).zero());
    if d.y.zero() {
        assert(d.y.times(v.z).zero());
    }
    if d.x.zero() {
        assert(v.z.times(d.x).zero());
    }
}

/// Whether a camera looks along an axis, by its coordinates along that
/// axis: 1 or -1 for the direction, zero or NaN for either pixel step.
pub open spec fn along(dir: Scalar, down: Scalar, left: Scalar) -> bool {
    dir.mag() == ONE_BITS && (down.zero() || down.nan()) && (left.zero() || left.nan())
}

/// Along the axis that a camera looks along, the direction through any
/// point of the image has 1 or -1 for its coordinate, or NaN.
proof fn lemma_window_coordinate(dir: Scalar, down: Scalar, left: Scalar, dy: Scalar, dx: Scalar)
    requires
        along(dir, down, left),
    ensures
        unit_or_nan(dir.plus(down.times(dy)).plus(left.times(dx))),
{
    let first: Scalar = down.times(dy);
    let second: Scalar = left.times(dx);
    lemma_zero_times(down, dy);
    lemma_zero_times(left, dx);
    lemma_plus_zero(dir, first);
    let partly: Scalar = dir.plus(first);
    if partly.nan() {
        assert(partly.plus(second).nan()) by {
            reveal(Scalar::spec_plus);
        }
    } else {
        assert(partly == dir);
        lemma_plus_zero(dir, second);
    }
}

} // verus!
