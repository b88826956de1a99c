//! The path tracer: the nearest hit of a ray, the light that comes back
//! along it, and the frame that the samples of all pixels add up to.
use vstd::prelude::*;
use crate::coord::Vec3d;
use crate::error::RenderError;
use crate::scalar::{Scalar, INF_BITS, NAN_BITS, ONE_BITS, NEG_ONE_BITS, TWO_BITS, HALF_BITS, PI_BITS, HALF_PI_BITS};
use crate::scene::{Parallel, Scene, RenderConfig};
use crate::scene::camera::Ray;
use crate::scene::light::{Light, LightType};
use crate::scene::object::{Intersect, Object, lemma_object_hit_ahead};
use crate::scene::object::material::Color;
use crate::scalar::arith::lemma_over_self_is_one;
use crate::scalar::value::lemma_quotient_at_most_one;
use crate::scene::workers::{random_word, pool_samples, reduced_samples};
use threadpool::ThreadPool;

verus! {

/// The pattern of `1e-9`, by which a hit may fall short of a light and
/// still not shadow it.
pub const SHADOW_SLACK_BITS: u64 = 0x3E11_2E0B_E826_D695;

/// The nearest hit of the ray among the first `n` objects that is nearer
/// than infinity, the first of them where several are equally near.
pub open spec fn nearest_object_hit(objects: Seq<Object>, ray: &Ray, n: nat) -> Option<Intersect>
    decreases n,
{
    if n == 0 {
        None
    } else {
        let before: Option<Intersect> = nearest_object_hit(objects, ray, (n - 1) as nat);
        let limit: Scalar = match before {
            Some(b) => b.dist,
            None => Scalar { bits: INF_BITS },
        };
        match objects[n - 1].spec_intersect(ray) {
            Some(i) if i.dist.less(limit) => Some(i),
            _ => before,
        }
    }
}

/// The word at place `k` of `draws`, and 0 where there is none.
pub open spec fn word(draws: Seq<u64>, k: int) -> u64 {
    if 0 <= k < draws.len() {
        draws[k]
    } else {
        0
    }
}

/// A unit vector orthogonal to `dir`, built from the two coordinates of
/// `dir` that are left when the one smallest in magnitude is dropped.
pub open spec fn perpendicular(dir: Vec3d) -> Option<Vec3d> {
    let zero: Scalar = Scalar { bits: 0 };
    if dir.x.abs().less(dir.y.abs()) && dir.x.abs().less(dir.z.abs()) {
        (Vec3d { x: zero, y: dir.z.negated(), z: dir.y }).normalize()
    } else if dir.y.abs().less(dir.z.abs()) {
        (Vec3d { x: dir.z.negated(), y: zero, z: dir.x }).normalize()
    } else {
        (Vec3d { x: dir.y.negated(), y: dir.x, z: zero }).normalize()
    }
}

/// The direction in which a surface of unit normal `normal` sends back a
/// ray of direction `incoming`: the image of `incoming` about the normal,
/// negated, which is its mirror image about the plane of the surface.
pub open spec fn mirrored(incoming: Vec3d, normal: Vec3d) -> Vec3d {
    incoming.reflect(normal)
}

/// The ray that leaves the hit `i` after a ray of direction `incoming`
/// met it: the mirrored direction, tilted by the angle
/// `u * roughness * pi / 2` towards the direction at the angle `v * 2 pi`
/// around it, `u` and `v` being the numbers in `[0, 1)` that the words
/// `first` and `second` stand for.
pub open spec fn scattered(incoming: Vec3d, i: &Intersect, first: u64, second: u64) -> Option<Ray> {
    let spread: Scalar = Scalar::unit_of(first).times(i.material.roughness).times(
        Scalar::from_bits(PI_BITS),
    ).over(Scalar::from_bits(TWO_BITS));
    let turn: Scalar = Scalar::unit_of(second).times(Scalar::from_bits(TWO_BITS)).times(
        Scalar::from_bits(PI_BITS),
    );
    let dir: Vec3d = mirrored(incoming, i.normal);
    match perpendicular(dir) {
        Some(side) => {
            let around: Vec3d = side.times(turn.cos()).plus(dir.cross(side).times(turn.sin()));
            Some(Ray { start: i.pos, dir: dir.times(spread.cos()).plus(around.times(spread.sin())) })
        },
        None => None,
    }
}

/// The frame over its maximum `peak`.
pub open spec fn scaled_frame(data: Seq<Scalar>, peak: Scalar) -> Seq<Scalar> {
    Seq::new(data.len(), |k: int| data[k].over(peak))
}

/// The largest of the first `n` numbers of `data` that are not NaN, and NaN
/// where there is none.
pub open spec fn peak_upto(data: Seq<Scalar>, n: nat) -> Scalar
    decreases n,
{
    if n == 0 {
        Scalar { bits: NAN_BITS }
    } else {
        peak_upto(data, (n - 1) as nat).max(data[n - 1])
    }
}

/// The largest number of `data` that is not NaN, and NaN where there is
/// none.
pub open spec fn peak(data: Seq<Scalar>) -> Scalar {
    peak_upto(data, data.len())
}

fn word_at(draws: &Vec<u64>, k: usize) -> (r: u64)
    ensures
        r == word(draws@, k as int),
{
    if k < draws.len() {
        draws[k]
    } else {
        0
    }
}

fn perpendicular_to(dir: Vec3d) -> (r: Option<Vec3d>)
    ensures
        r == perpendicular(dir),
{
    let zero: Scalar = Scalar { bits: 0 };
    if dir.x.abs().less(dir.y.abs()) && dir.x.abs().less(dir.z.abs()) {
        (Vec3d { x: zero, y: dir.z.negated(), z: dir.y }).normalize()
    } else if dir.y.abs().less(dir.z.abs()) {
        (Vec3d { x: dir.z.negated(), y: zero, z: dir.x }).normalize()
    } else {
        (Vec3d { x: dir.y.negated(), y: dir.x, z: zero }).normalize()
    }
}

fn scatter(incoming: Vec3d, i: &Intersect, first: u64, second: u64) -> (r: Option<Ray>)
    ensures
        r == scattered(incoming, i, first, second),
{
    let spread: Scalar = Scalar::unit_from(first).times(i.material.roughness).times(
        Scalar::from_bits(PI_BITS),
    ).over(Scalar::from_bits(TWO_BITS));
    let turn: Scalar = Scalar::unit_from(second).times(Scalar::from_bits(TWO_BITS)).times(
        Scalar::from_bits(PI_BITS),
    );
    let dir: Vec3d = incoming.reflect(i.normal);
    match perpendicular_to(dir) {
        Some(side) => {
            let around: Vec3d = side.times(turn.cos()).plus(dir.cross(side).times(turn.sin()));
            Some(Ray { start: i.pos, dir: dir.times(spread.cos()).plus(around.times(spread.sin())) })
        },
        None => None,
    }
}

impl Scene {
    /// What the ambient light sends out: its color times its intensity.
    pub open spec fn ambient(&self) -> Color {
        self.ambiant_light.spec_radiance()
    }

    /// The nearest hit of the ray among all objects.
    pub open spec fn spec_get_intersect(&self, ray: Ray) -> Option<Intersect> {
        nearest_object_hit(self.objects@, &ray, self.objects@.len())
    }

    /// The hit of the ray on the object that it meets first. Of objects met
    /// at the same distance the one that comes first in the list counts.
    #[verifier::when_used_as_spec(spec_get_intersect)]
    pub fn get_intersect(&self, ray: Ray) -> (r: Option<Intersect>)
        ensures
            r == self.spec_get_intersect(ray),
            self.objects@.len() == 0 ==> r.is_none(),
            r.is_some() ==> r.unwrap().dist.greater(Scalar { bits: 0 }) && r.unwrap().dist.less(
                Scalar { bits: INF_BITS },
            ),
            r.is_some() ==> exists|j: int|
                0 <= j < self.objects@.len() && (#[trigger] self.objects@[j]).spec_intersect(&ray)
                    == r && first_nearest_object(self.objects@, &ray, j),
            r.is_none() ==> forall|k: int|
                0 <= k < self.objects@.len() ==> match (#[trigger] self.objects@[k]).spec_intersect(
                    &ray,
                ) {
                    Some(i) => !i.dist.less(Scalar { bits: INF_BITS }),
                    None => true,
                },
    {
        let mut best: Option<Intersect> = None;
        let mut limit: Scalar = Scalar { bits: INF_BITS };
        let ghost mut at: int = 0;
        let mut k: usize = 0;
        while k < self.objects.len()
            invariant
                0 <= k <= self.objects@.len(),
                best == nearest_object_hit(self.objects@, &ray, k as nat),
                limit == match best {
                    Some(b) => b.dist,
                    None => Scalar { bits: INF_BITS },
                },
                best.is_some() ==> 0 <= at < k && self.objects@[at].spec_intersect(&ray) == best
                    && best.unwrap().dist.greater(Scalar { bits: 0 }) && best.unwrap().dist.less(
                    Scalar { bits: INF_BITS },
                ) && first_nearest_object_among(self.objects@, &ray, at, k as int),
                best.is_none() ==> forall|i: int|
                    0 <= i < k ==> match (#[trigger] self.objects@[i]).spec_intersect(&ray) {
                        Some(h) => !h.dist.less(Scalar { bits: INF_BITS }),
                        None => true,
                    },
                forall|i: int|
                    0 <= i < k ==> match (#[trigger] self.objects@[i]).spec_intersect(&ray) {
                        Some(h) => h.dist.greater(Scalar { bits: 0 }),
                        None => true,
                    },
            decreases self.objects@.len() - k,
        {
            let hit: Option<Intersect> = self.objects[k].intersect(&ray);
            match hit {
                Some(i) => {
                    if i.dist.less(limit) {
                        limit = i.dist;
                        best = hit;
                        proof {
                            at = k as int;
                        }
                    }
                },
                None => {},
            }
            k = k + 1;
        }
        proof {
            if best.is_some() {
                assert(first_nearest_object(self.objects@, &ray, at));
            }
        }
        best
    }

    /// Whether the light at `light_pos` reaches `pos`: the ray from the
    /// light towards `pos` meets something, and meets nothing more than
    /// `1e-9` before it has gone the distance to `pos`. A light at `pos`
    /// itself does not reach it.
    pub open spec fn spec_reaches(&self, light_pos: Vec3d, pos: Vec3d) -> bool {
        match pos.minus(light_pos).normalize() {
            Some(d) => match self.get_intersect(Ray { start: light_pos, dir: d }) {
                Some(h) => !h.dist.less(
                    light_pos.minus(pos).norm().minus(Scalar::from_bits(SHADOW_SLACK_BITS)),
                ),
                None => false,
            },
            None => false,
        }
    }

    /// Whether the light at `light_pos` reaches `pos` unshadowed.
    #[verifier::when_used_as_spec(spec_reaches)]
    pub fn reaches(&self, light_pos: Vec3d, pos: Vec3d) -> (r: bool)
        ensures
            r == self.spec_reaches(light_pos, pos),
    {
        match pos.minus(light_pos).normalize() {
            Some(d) => match self.get_intersect(Ray { start: light_pos, dir: d }) {
                Some(h) => !h.dist.less(
                    light_pos.minus(pos).norm().minus(Scalar::from_bits(SHADOW_SLACK_BITS)),
                ),
                None => false,
            },
            None => false,
        }
    }

    /// The diffuse light at the hit `i` after one more light: a point light
    /// that reaches the hit from the front of the surface adds its color
    /// through the diffuse color of the material, times its intensity and
    /// the scalar product of the normal with the way to the light, over the
    /// square of the distance to it. Any other light adds nothing.
    pub open spec fn diffuse_step(&self, i: &Intersect, so_far: Color, light: Light) -> Color {
        match light.light_type {
            LightType::AmbiantLight => so_far,
            LightType::PointLight { pos } => {
                let way: Vec3d = pos.minus(i.pos);
                let factor: Scalar = i.normal.dot(way);
                let far: Scalar = way.norm();
                if self.reaches(pos, i.pos) && factor.greater(Scalar { bits: 0 }) {
                    so_far.plus(
                        i.material.diffuse.times(light.color).scaled(light.intensity).scaled(
                            factor.over(far.times(far)),
                        ),
                    )
                } else {
                    so_far
                }
            },
        }
    }

    /// The diffuse light at the hit `i` from the ambient light and the
    /// first `n` lights.
    pub open spec fn diffuse_upto(&self, i: &Intersect, n: nat) -> Color
        decreases n,
    {
        if n == 0 {
            i.material.diffuse.times(self.ambiant_light.color).scaled(self.ambiant_light.intensity)
        } else {
            self.diffuse_step(i, self.diffuse_upto(i, (n - 1) as nat), self.lights@[n - 1])
        }
    }

    /// The diffuse light at the hit `i` from the ambient light and all
    /// lights.
    pub open spec fn spec_compute_diffuse(&self, i: &Intersect) -> Color {
        self.diffuse_upto(i, self.lights@.len())
    }

    /// The diffuse light at a hit: the ambient light through the diffuse
    /// color of the material, and what each point light adds that reaches
    /// the hit unshadowed.
    #[verifier::when_used_as_spec(spec_compute_diffuse)]
    pub fn compute_diffuse(&self, i: &Intersect) -> (r: Color)
        ensures
            r == self.spec_compute_diffuse(i),
    {
        let mut color: Color = i.material.diffuse.times(self.ambiant_light.color).scaled(
            self.ambiant_light.intensity,
        );
        let mut k: usize = 0;
        while k < self.lights.len()
            invariant
                0 <= k <= self.lights@.len(),
                color == self.diffuse_upto(i, k as nat),
            decreases self.lights@.len() - k,
        {
            let light: Light = self.lights[k];
            match light.light_type {
                LightType::AmbiantLight => {},
                LightType::PointLight { pos } => {
                    let way: Vec3d = pos.minus(i.pos);
                    let factor: Scalar = i.normal.dot(way);
                    let far: Scalar = way.norm();
                    if self.reaches(pos, i.pos) && factor.greater(Scalar { bits: 0 }) {
                        color = color.plus(
                            i.material.diffuse.times(light.color).scaled(light.intensity).scaled(
                                factor.over(far.times(far)),
                            ),
                        );
                    }
                },
            }
            k = k + 1;
        }
        color
    }

    /// The highlight at the hit `i` after one more light. A point light
    /// that reaches the hit adds to it unless the angle between the
    /// mirrored direction of the ray and the way to the light, over the
    /// roughness, is above pi / 2: its color through the specular color of
    /// the material, times its intensity and the cosine of the angle over
    /// the roughness, over the square of the distance and the roughness.
    /// Any other light adds nothing.
    pub open spec fn specular_step(
        &self,
        incoming: Vec3d,
        i: &Intersect,
        so_far: Color,
        light: Light,
    ) -> Color {
        match light.light_type {
            LightType::AmbiantLight => so_far,
            LightType::PointLight { pos } => match i.pos.minus(pos).normalize() {
                Some(light_dir) => {
                    let far: Scalar = pos.minus(i.pos).norm();
                    let factor: Scalar = mirrored(incoming, i.normal).dot(
                        light_dir.times(Scalar::from_bits(NEG_ONE_BITS)),
                    );
                    let angle: Scalar = factor.acos().over(i.material.roughness);
                    if self.reaches(pos, i.pos) && !angle.greater(Scalar::from_bits(HALF_PI_BITS)) {
                        so_far.plus(
                            i.material.specular.times(light.color).scaled(light.intensity).scaled(
                                angle.cos().over(far.times(far).times(i.material.roughness)),
                            ),
                        )
                    } else {
                        so_far
                    }
                },
                None => so_far,
            },
        }
    }

    /// The highlight at the hit `i` from the ambient light and the first
    /// `n` lights.
    pub open spec fn specular_upto(&self, incoming: Vec3d, i: &Intersect, n: nat) -> Color
        decreases n,
    {
        if n == 0 {
            i.material.specular.times(self.ambiant_light.color).scaled(self.ambiant_light.intensity)
        } else {
            self.specular_step(
                incoming,
                i,
                self.specular_upto(incoming, i, (n - 1) as nat),
                self.lights@[n - 1],
            )
        }
    }

    /// The highlight at the hit `i` of the ray from the ambient light and
    /// all lights.
    pub open spec fn spec_compute_specular(&self, ray: Ray, i: &Intersect) -> Color {
        self.specular_upto(ray.dir, i, self.lights@.len())
    }

    /// The highlight at a hit: the ambient light through the specular color
    /// of the material, and what each point light adds that reaches the hit
    /// unshadowed and stands near the mirrored direction of the ray.
    #[verifier::when_used_as_spec(spec_compute_specular)]
    pub fn compute_specular(&self, ray: Ray, i: &Intersect) -> (r: Color)
        ensures
            r == self.spec_compute_specular(ray, i),
    {
        let seen: Vec3d = ray.dir.reflect(i.normal);
        let mut color: Color = i.material.specular.times(self.ambiant_light.color).scaled(
            self.ambiant_light.intensity,
        );
        let mut k: usize = 0;
        while k < self.lights.len()
            invariant
                0 <= k <= self.lights@.len(),
                seen == mirrored(ray.dir, i.normal),
                color == self.specular_upto(ray.dir, i, k as nat),
            decreases self.lights@.len() - k,
        {
            let light: Light = self.lights[k];
            match light.light_type {
                LightType::AmbiantLight => {},
                LightType::PointLight { pos } => {
                    match i.pos.minus(pos).normalize() {
                        Some(light_dir) => {
                            let far: Scalar = pos.minus(i.pos).norm();
                            let factor: Scalar = seen.dot(
                                light_dir.times(Scalar::from_bits(NEG_ONE_BITS)),
                            );
                            let angle: Scalar = factor.acos().over(i.material.roughness);
                            if self.reaches(pos, i.pos) && !angle.greater(
                                Scalar::from_bits(HALF_PI_BITS),
                            ) {
                                color = color.plus(
                                    i.material.specular.times(light.color).scaled(
                                        light.intensity,
                                    ).scaled(
                                        angle.cos().over(far.times(far).times(i.material.roughness)),
                                    ),
                                );
                            }
                        },
                        None => {},
                    }
                },
            }
            k = k + 1;
        }
        color
    }

    /// The light that a hit sends on from the ray scattered at it, through
    /// the specular color of its material: what comes back along the ray
    /// that leaves the hit `i` of a ray of direction `ray.dir`, followed
    /// for one bounce less than `depth`, the words at places `2 depth` and
    /// `2 depth + 1` of `draws` saying how it is scattered. There is none
    /// at depth 0, and none where the mirrored direction has no direction
    /// orthogonal to it.
    pub open spec fn reflected(&self, ray: Ray, i: &Intersect, depth: nat, draws: Seq<u64>) -> Option<
        Color,
    >
        decreases depth, 0nat,
    {
        if depth == 0 {
            None
        } else {
            match scattered(ray.dir, i, word(draws, 2 * (depth as int)), word(draws, 2 * (depth as int) + 1)) {
                Some(next) => Some(
                    self.traced(next, (depth - 1) as nat, draws).times(i.material.specular),
                ),
                None => None,
            }
        }
    }

    /// The light that comes back along the ray when it is followed for at
    /// most `depth` bounces, the bounce at depth `d` scattered by the words
    /// at places `2 d` and `2 d + 1` of `draws`. At depth 0, and where the
    /// ray meets nothing, it is the ambient light. At a hit it is the
    /// diffuse light times `1 - reflectivity`; where the reflectivity is
    /// above zero there come, each times the reflectivity, the light of
    /// the scattered ray, where there is one, and the highlight.
    pub open spec fn traced(&self, ray: Ray, depth: nat, draws: Seq<u64>) -> Color
        decreases depth, 1nat,
    {
        if depth == 0 {
            self.ambient()
        } else {
            match self.get_intersect(ray) {
                None => self.ambient(),
                Some(i) => {
                    let share: Scalar = i.material.reflectivity;
                    let matte: Color = self.compute_diffuse(&i).scaled(
                        Scalar::from_bits(ONE_BITS).minus(share),
                    );
                    if share.greater(Scalar { bits: 0 }) {
                        let shiny: Color = match self.reflected(ray, &i, depth, draws) {
                            Some(back) => matte.plus(back.scaled(share)),
                            None => matte,
                        };
                        shiny.plus(self.compute_specular(ray, &i).scaled(share))
                    } else {
                        matte
                    }
                },
            }
        }
    }

    /// The light that the hit `i` sends on from the ray scattered at it,
    /// through the specular color of its material. There is none at depth
    /// 0, where no ray is followed.
    pub fn compute_reflection(&self, ray: Ray, i: &Intersect, depth: u16, draws: &Vec<u64>) -> (r: Option<
        Color,
    >)
        ensures
            r == self.reflected(ray, i, depth as nat, draws@),
        decreases depth, 0nat,
    {
        if depth == 0 {
            return None;
        }
        let first: u64 = word_at(draws, 2 * (depth as usize));
        let second: u64 = word_at(draws, 2 * (depth as usize) + 1);
        match scatter(ray.dir, i, first, second) {
            Some(next) => Some(self.trace(next, depth - 1, draws).times(i.material.specular)),
            None => None,
        }
    }

    /// The light that comes back along the ray when it is followed for at
    /// most `depth` bounces and scattered by the words of `draws`.
    pub fn trace(&self, ray: Ray, depth: u16, draws: &Vec<u64>) -> (r: Color)
        ensures
            r == self.traced(ray, depth as nat, draws@),
        decreases depth, 1nat,
    {
        let ambient: Color = self.ambiant_light.radiance();
        if depth == 0 {
            return ambient;
        }
        match self.get_intersect(ray) {
            None => ambient,
            Some(i) => {
                let share: Scalar = i.material.reflectivity;
                let matte: Color = self.compute_diffuse(&i).scaled(
                    Scalar::from_bits(ONE_BITS).minus(share),
                );
                if share.greater(Scalar { bits: 0 }) {
                    let shiny: Color = match self.compute_reflection(ray, &i, depth, draws) {
                        Some(back) => matte.plus(back.scaled(share)),
                        None => matte,
                    };
                    shiny.plus(self.compute_specular(ray, &i).scaled(share))
                } else {
                    matte
                }
            },
        }
    }

    /// One sample of the pixel in row `l` and column `c`: the light that
    /// comes back along the ray through a point of the pixel, the words at
    /// places 0 and 1 of `draws` saying where in the pixel. It is refused
    /// as degenerate where the camera has no ray through that point.
    pub open spec fn sampled(&self, l: u32, c: u32, depth: u16, draws: Seq<u64>) -> Result<
        Color,
        RenderError,
    > {
        let half: Scalar = Scalar::from_bits(HALF_BITS);
        let column: Scalar = Scalar::of_int(c as int).plus(Scalar::unit_of(word(draws, 0))).minus(
            half,
        );
        let row: Scalar = Scalar::of_int(l as int).plus(Scalar::unit_of(word(draws, 1))).minus(half);
        match self.camera.window((column, row)).normalize() {
            Some(d) => Ok(self.traced(Ray { start: self.camera.pos, dir: d }, depth as nat, draws)),
            None => Err(RenderError::Degenerate),
        }
    }

    /// One sample of the pixel in row `l` and column `c`, for the words of
    /// `draws`.
    pub fn sample(&self, l: u32, c: u32, depth: u16, draws: &Vec<u64>) -> (r: Result<
        Color,
        RenderError,
    >)
        ensures
            r == self.sampled(l, c, depth, draws@),
    {
        let half: Scalar = Scalar::from_bits(HALF_BITS);
        let column: Scalar = Scalar::from_u32(c).plus(Scalar::unit_from(word_at(draws, 0))).minus(
            half,
        );
        let row: Scalar = Scalar::from_u32(l).plus(Scalar::unit_from(word_at(draws, 1))).minus(half);
        match self.camera.ray((column, row)) {
            Ok(ray) => Ok(self.trace(ray, depth, draws)),
            Err(_) => Err(RenderError::Degenerate),
        }
    }

    /// Whether `r` is a sample of the pixel in row `l` and column `c` for
    /// some draws.
    pub open spec fn sample_of(&self, l: u32, c: u32, depth: u16, r: Result<Color, RenderError>) -> bool {
        exists|draws: Seq<u64>| #[trigger] self.sampled(l, c, depth, draws) == r
    }

    /// One sample of the pixel in row `l` and column `c`, for words drawn
    /// at random: two for the place in the pixel, and two for each bounce.
    pub fn render_pixel(&self, l: u32, c: u32, depth: u16) -> (r: Result<Color, RenderError>)
        ensures
            self.sample_of(l, c, depth, r),
    {
        let draws: Vec<u64> = draw_words(2 * (depth as usize) + 2);
        self.sample(l, c, depth, &draws)
    }

    /// The light that comes back along the ray when it is followed for at
    /// most `depth` bounces, each scattered at random.
    pub fn send_ray(&self, ray: Ray, depth: u16) -> (r: Color)
        ensures
            exists|draws: Seq<u64>| r == #[trigger] self.traced(ray, depth as nat, draws),
            depth == 0 ==> r == self.ambient(),
            self.spec_get_intersect(ray).is_none() ==> r == self.ambient(),
    {
        let draws: Vec<u64> = draw_words(2 * (depth as usize) + 2);
        self.trace(ray, depth, &draws)
    }

    /// No sample yet: black, and no failure.
    pub open spec fn spec_nothing_yet() -> Result<Color, RenderError> {
        Ok(Color::spec_black())
    }

    /// What a sum of samples starts from.
    #[verifier::when_used_as_spec(spec_nothing_yet)]
    pub fn nothing_yet() -> (r: Result<Color, RenderError>)
        ensures
            r == Scene::spec_nothing_yet(),
    {
        Ok(Color::black())
    }

    /// Two sums of samples as one: the sum of the two, or the first failure.
    pub open spec fn spec_combine(a: Result<Color, RenderError>, b: Result<Color, RenderError>) -> Result<
        Color,
        RenderError,
    > {
        match (a, b) {
            (Ok(x), Ok(y)) => Ok(x.spec_plus(y)),
            (Err(e), _) => Err(e),
            (_, Err(e)) => Err(e),
        }
    }

    /// Adds two sums of samples; a failure on either side is handed on.
    #[verifier::when_used_as_spec(spec_combine)]
    pub fn combine(a: Result<Color, RenderError>, b: Result<Color, RenderError>) -> (r: Result<
        Color,
        RenderError,
    >)
        ensures
            r == Scene::spec_combine(a, b),
    {
        match (a, b) {
            (Ok(x), Ok(y)) => Ok(x.plus(y)),
            (Err(e), _) => Err(e),
            (_, Err(e)) => Err(e),
        }
    }

    /// The frame that a scene without objects gives: every pixel the sum of
    /// as many ambient lights as there are samples, scaled so that its
    /// largest number is 1.
    pub open spec fn empty_scene_frame(&self, config: &RenderConfig) -> Seq<Scalar> {
        uniform_frame(
            repeated(self.ambient(), config.samples as nat),
            self.camera.resolution.0 as nat * self.camera.resolution.1 as nat,
        )
    }

    /// Whether `color` is the sum of as many samples of the pixel in row `l`
    /// and column `c` as `config` asks for, added one at a time to black.
    pub open spec fn pixel_of(&self, config: &RenderConfig, l: u32, c: u32, color: Color) -> bool {
        exists|samples: Seq<Color>|
            samples.len() == config.samples && color == #[trigger] summed(samples, samples.len())
                && forall|k: int|
                0 <= k < samples.len() ==> self.sample_of(
                    l,
                    c,
                    config.max_bounces,
                    Ok(#[trigger] samples[k]),
                )
    }

    /// Whether `color` is the sum of as many samples of the pixel in row `l`
    /// and column `c` as `config` asks for, added in their order but in
    /// some grouping, by `combine` from `nothing_yet`.
    pub open spec fn pixel_grouped(&self, config: &RenderConfig, l: u32, c: u32, color: Color) -> bool {
        self.reduction_of(config, l, c, Ok(color))
    }

    /// Whether `samples` are as many samples of the pixel in row `l` and
    /// column `c` as `config` asks for, and `grouping` a grouping of as
    /// many.
    pub open spec fn grouped(
        &self,
        config: &RenderConfig,
        l: u32,
        c: u32,
        samples: Seq<Result<Color, RenderError>>,
        grouping: Grouping,
    ) -> bool {
        samples.len() == config.samples && grouping.count() == config.samples && forall|k: int|
            0 <= k < samples.len() ==> self.sample_of(l, c, config.max_bounces, #[trigger] samples[k])
    }

    /// Whether `r` is what some grouping of the samples of the pixel in row
    /// `l` and column `c` gives: of as many samples as `config` asks for,
    /// in their order, added by `combine` from `nothing_yet`.
    pub open spec fn reduction_of(&self, config: &RenderConfig, l: u32, c: u32, r: Result<Color, RenderError>) -> bool {
        exists|samples: Seq<Result<Color, RenderError>>, grouping: Grouping|
            self.grouped(config, l, c, samples, grouping) && #[trigger] grouping.folded(samples, 0) == r
    }

    /// Whether the camera has no ray for some sample of the pixel in row
    /// `l` and column `c`: there is a sample to take, and for some draws it
    /// is refused as degenerate.
    pub open spec fn sample_fails(&self, config: &RenderConfig, l: u32, c: u32) -> bool {
        config.samples > 0 && exists|draws: Seq<u64>| #[trigger]
            self.sampled(l, c, config.max_bounces, draws) == Err::<Color, RenderError>(
                RenderError::Degenerate,
            )
    }

    /// Whether the camera has no ray for some sample of some pixel of the
    /// image.
    pub open spec fn some_sample_fails(&self, config: &RenderConfig) -> bool {
        exists|l: u32, c: u32|
            l < self.camera.resolution.1 && c < self.camera.resolution.0 && #[trigger] self.sample_fails(
                config,
                l,
                c,
            )
    }

    /// Whether `color` is a sum of the samples of the pixel in row `l` and
    /// column `c`: one after another where `in_turn`, else in some
    /// grouping.
    pub open spec fn pixel_by(&self, config: &RenderConfig, in_turn: bool, l: u32, c: u32, color: Color) -> bool {
        if in_turn {
            self.pixel_of(config, l, c, color)
        } else {
            self.pixel_grouped(config, l, c, color)
        }
    }

    /// Whether `raw` holds the first `count` pixels of a frame of the
    /// scene before it is scaled: row by row, the red, green and blue of
    /// each pixel, each pixel a sum of its samples.
    pub open spec fn frame_upto(&self, config: &RenderConfig, in_turn: bool, raw: Seq<Scalar>, count: nat) -> bool {
        let w: u32 = self.camera.resolution.0;
        raw.len() == 3 * count && forall|i: int|
            0 <= i < count ==> self.pixel_by(
                config,
                in_turn,
                (i / (w as int)) as u32,
                (i % (w as int)) as u32,
                #[trigger] color_at(raw, i),
            )
    }

    /// Whether `raw` is a frame of the scene before it is scaled, each
    /// pixel the sum of its samples one after another.
    pub open spec fn frame_of(&self, config: &RenderConfig, raw: Seq<Scalar>) -> bool {
        self.frame_upto(
            config,
            true,
            raw,
            self.camera.resolution.0 as nat * self.camera.resolution.1 as nat,
        )
    }

    /// Whether `raw` is a frame of the scene before it is scaled, each
    /// pixel the sum of its samples in some grouping.
    pub open spec fn frame_grouped(&self, config: &RenderConfig, raw: Seq<Scalar>) -> bool {
        self.frame_upto(
            config,
            false,
            raw,
            self.camera.resolution.0 as nat * self.camera.resolution.1 as nat,
        )
    }

    /// What a driver states of its result that sums the samples of each
    /// pixel in turn. It is refused as degenerate only where the camera
    /// has no ray for some sample of some pixel; else it is what
    /// `normalize` makes of a frame of the scene.
    pub open spec fn rendered_in_turn(&self, config: &RenderConfig, r: Result<Vec<Scalar>, RenderError>) -> bool {
        (r == Err::<Vec<Scalar>, RenderError>(RenderError::Degenerate) && self.some_sample_fails(config))
            || exists|raw: Seq<Scalar>| self.frame_of(config, raw) && #[trigger] normalized_as(r, raw)
    }

    /// What the driver states of its result that sums the samples of each
    /// pixel in a grouping that is left open. It is refused as degenerate
    /// only where the camera has no ray for some sample of some pixel;
    /// else it is what `normalize` makes of a frame of the scene.
    pub open spec fn rendered(&self, config: &RenderConfig, r: Result<Vec<Scalar>, RenderError>) -> bool {
        (r == Err::<Vec<Scalar>, RenderError>(RenderError::Degenerate) && self.some_sample_fails(config))
            || exists|raw: Seq<Scalar>| self.frame_grouped(config, raw) && #[trigger] normalized_as(r, raw)
    }

    /// Whether as many ambient lights as there are samples add up without
    /// rounding, however they are grouped: each channel of the ambient
    /// light is a whole number times a power of two, and as many times the
    /// whole number as there are samples stays below `2^53`.
    pub open spec fn whole_ambient(&self, config: &RenderConfig) -> bool {
        exists|r: nat, g: nat, b: nat, x: (int, int, int)|
            self.ambient() == #[trigger] even_color(r, g, b, x) && fits_even(
                r,
                g,
                b,
                x,
                config.samples as nat,
            )
    }

    /// Whether every sample of the scene is the same whatever is drawn, and
    /// their sum the same however they are added: the scene has no
    /// objects, and where the grouping of the sum is open, its ambient
    /// lights add up without rounding.
    pub open spec fn steady(&self, config: &RenderConfig, in_turn: bool) -> bool {
        self.objects@.len() == 0 && (in_turn || self.whole_ambient(config))
    }

    /// The sum of `samples` samples of the pixel in row `l` and column `c`,
    /// one after another.
    pub fn sum_in_turn(&self, l: u32, c: u32, config: &RenderConfig) -> (r: Result<Color, RenderError>)
        ensures
            match r {
                Ok(color) => self.pixel_of(config, l, c, color),
                Err(e) => e == RenderError::Degenerate && self.sample_fails(config, l, c),
            },
            self.objects@.len() == 0 && r.is_ok() ==> r == Ok::<Color, RenderError>(
                repeated(self.ambient(), config.samples as nat),
            ),
    {
        let mut color: Color = Color::black();
        let ghost mut seen: Seq<Color> = Seq::empty();
        let mut s: u32 = 0;
        while s < config.samples
            invariant
                0 <= s <= config.samples,
                seen.len() == s,
                color == summed(seen, s as nat),
                forall|k: int|
                    0 <= k < s ==> self.sample_of(l, c, config.max_bounces, Ok(#[trigger] seen[k])),
                self.objects@.len() == 0 ==> color == repeated(self.ambient(), s as nat),
            decreases config.samples - s,
        {
            let sample: Result<Color, RenderError> = self.render_pixel(l, c, config.max_bounces);
            match self.taken(l, c, config, color, Ghost(seen), sample) {
                Ok(sum) => {
                    proof {
                        seen = seen.push(sample.unwrap());
                    }
                    color = sum;
                },
                Err(e) => {
                    return Err(e);
                },
            }
            s = s + 1;
        }
        Ok(color)
    }

    /// The sum `so_far` of the samples `seen` with one more sample of the
    /// pixel in row `l` and column `c`, or the failure of that sample.
    fn taken(
        &self,
        l: u32,
        c: u32,
        config: &RenderConfig,
        so_far: Color,
        Ghost(seen): Ghost<Seq<Color>>,
        sample: Result<Color, RenderError>,
    ) -> (r: Result<Color, RenderError>)
        requires
            seen.len() < config.samples,
            so_far == summed(seen, seen.len()),
            self.sample_of(l, c, config.max_bounces, sample),
            self.objects@.len() == 0 ==> so_far == repeated(self.ambient(), seen.len()),
        ensures
            match r {
                Ok(sum) => sample.is_ok() && sum == summed(seen.push(sample.unwrap()), seen.len() + 1)
                    && (self.objects@.len() == 0 ==> sum == repeated(self.ambient(), seen.len() + 1)),
                Err(e) => e == RenderError::Degenerate && self.sample_fails(config, l, c),
            },
    {
        match sample {
            Ok(x) => {
                proof {
                    self.lemma_sample_of_empty_scene(l, c, config.max_bounces, sample);
                    lemma_summed_grows(seen, x);
                }
                Ok(so_far.plus(x))
            },
            Err(_) => Err(RenderError::Degenerate),
        }
    }

    /// The sum of the samples that came back from the pool, in the order
    /// in which they came.
    fn sum_of_samples(
        &self,
        l: u32,
        c: u32,
        config: &RenderConfig,
        samples: &Vec<Result<Color, RenderError>>,
    ) -> (r: Result<Color, RenderError>)
        requires
            samples@.len() == config.samples,
            forall|k: int|
                0 <= k < samples@.len() ==> self.sample_of(l, c, config.max_bounces, #[trigger] samples@[k]),
        ensures
            match r {
                Ok(color) => self.pixel_of(config, l, c, color),
                Err(e) => e == RenderError::Degenerate && self.sample_fails(config, l, c),
            },
            self.objects@.len() == 0 && r.is_ok() ==> r == Ok::<Color, RenderError>(
                repeated(self.ambient(), config.samples as nat),
            ),
    {
        let mut color: Color = Color::black();
        let ghost mut seen: Seq<Color> = Seq::empty();
        let mut s: usize = 0;
        while s < samples.len()
            invariant
                0 <= s <= samples@.len(),
                samples@.len() == config.samples,
                forall|k: int|
                    0 <= k < samples@.len() ==> self.sample_of(
                        l,
                        c,
                        config.max_bounces,
                        #[trigger] samples@[k],
                    ),
                seen.len() == s,
                color == summed(seen, s as nat),
                forall|k: int|
                    0 <= k < s ==> self.sample_of(l, c, config.max_bounces, Ok(#[trigger] seen[k])),
                self.objects@.len() == 0 ==> color == repeated(self.ambient(), s as nat),
            decreases samples@.len() - s,
        {
            let sample: Result<Color, RenderError> = samples[s];
            match self.taken(l, c, config, color, Ghost(seen), sample) {
                Ok(sum) => {
                    proof {
                        seen = seen.push(sample.unwrap());
                    }
                    color = sum;
                },
                Err(e) => {
                    return Err(e);
                },
            }
            s = s + 1;
        }
        Ok(color)
    }

    /// The sum of the samples of the pixel in row `l` and column `c`, by
    /// the driver that `parallel` names: one after another, by the pool
    /// where there is one, or by a reduction in parallel.
    fn pixel_sum(&self, l: u32, c: u32, config: &RenderConfig, parallel: Parallel, pool: &Option<ThreadPool>) -> (r:
        Result<Color, RenderError>)
        ensures
            match r {
                Ok(color) => self.pixel_by(config, parallel != Parallel::Rayon, l, c, color),
                Err(e) => e == RenderError::Degenerate && self.sample_fails(config, l, c),
            },
            self.steady(config, parallel != Parallel::Rayon) && r.is_ok() ==> r == Ok::<Color, RenderError>(
                repeated(self.ambient(), config.samples as nat),
            ),
    {
        match parallel {
            Parallel::No => self.sum_in_turn(l, c, config),
            Parallel::Basic => match pool {
                Some(workers) => {
                    let samples: Vec<Result<Color, RenderError>> = pool_samples(
                        workers,
                        self,
                        l,
                        c,
                        config.max_bounces,
                        config.samples,
                    );
                    self.sum_of_samples(l, c, config, &samples)
                },
                None => self.sum_in_turn(l, c, config),
            },
            Parallel::Rayon => {
                let r: Result<Color, RenderError> = reduced_samples(self, l, c, config);
                proof {
                    self.lemma_reduced(config, l, c, r);
                }
                match r {
                    Ok(color) => Ok(color),
                    Err(_) => Err(RenderError::Degenerate),
                }
            },
        }
    }

    /// What a reduction of the samples of a pixel gives: a failure only
    /// where a sample fails, and in a steady scene the sum that adding
    /// them in turn gives.
    proof fn lemma_reduced(&self, config: &RenderConfig, l: u32, c: u32, r: Result<Color, RenderError>)
        requires
            self.reduction_of(config, l, c, r),
        ensures
            r is Err ==> r == Err::<Color, RenderError>(RenderError::Degenerate) && self.sample_fails(
                config,
                l,
                c,
            ),
            r matches Ok(color) ==> self.pixel_grouped(config, l, c, color),
            self.steady(config, false) && r.is_ok() ==> r == Ok::<Color, RenderError>(
                repeated(self.ambient(), config.samples as nat),
            ),
    {
        let (samples, grouping) = choose|samples: Seq<Result<Color, RenderError>>, grouping: Grouping|
            self.grouped(config, l, c, samples, grouping) && #[trigger] grouping.folded(samples, 0) == r;
        lemma_grouping_failure(grouping, samples, 0);
        if r is Err {
            let k: int = choose|k: int| 0 <= k < grouping.count() && samples[k] == r;
            assert(self.sample_of(l, c, config.max_bounces, samples[k]));
        }
        if self.steady(config, false) && r.is_ok() {
            let (a, b, d, x) = choose|a: nat, b: nat, d: nat, x: (int, int, int)|
                self.ambient() == #[trigger] even_color(a, b, d, x) && fits_even(
                    a,
                    b,
                    d,
                    x,
                    config.samples as nat,
                );
            assert forall|k: int| 0 <= k < samples.len() implies #[trigger] samples[k] == Ok::<
                Color,
                RenderError,
            >(even_color(a, b, d, x)) by {
                assert(self.sample_of(l, c, config.max_bounces, samples[k]));
                self.lemma_sample_of_empty_scene(l, c, config.max_bounces, samples[k]);
            }
            lemma_grouping_even(grouping, samples, 0, a, b, d, x, config.samples as nat);
            lemma_repeated_even(a, b, d, x, config.samples as nat, config.samples as nat);
        }
    }

    /// Renders the frame by the driver that `parallel` names.
    fn frame_by(&self, config: &RenderConfig, parallel: Parallel, pool: &Option<ThreadPool>) -> (r: Result<
        Vec<Scalar>,
        RenderError,
    >)
        ensures
            (r == Err::<Vec<Scalar>, RenderError>(RenderError::Degenerate) && self.some_sample_fails(
                config,
            )) || exists|raw: Seq<Scalar>|
                self.frame_upto(
                    config,
                    parallel != Parallel::Rayon,
                    raw,
                    self.camera.resolution.0 as nat * self.camera.resolution.1 as nat,
                ) && #[trigger] normalized_as(r, raw),
            self.steady(config, parallel != Parallel::Rayon) ==> r == Err::<Vec<Scalar>, RenderError>(
                RenderError::Degenerate,
            ) || normalized_as(r, self.empty_scene_frame(config)),
            self.camera.looks_along_axis() ==> r != Err::<Vec<Scalar>, RenderError>(RenderError::Degenerate),
    {
        proof {
            if self.camera.looks_along_axis() {
                self.lemma_along_axis_never_fails(config);
            }
        }
        let w: u32 = self.camera.width();
        let h: u32 = self.camera.height();
        let in_turn: bool = match parallel {
            Parallel::Rayon => false,
            _ => true,
        };
        let mut data: Vec<Scalar> = Vec::new();
        let ghost pixel: Color = repeated(self.ambient(), config.samples as nat);
        let mut l: u32 = 0;
        while l < h
            invariant
                0 <= l <= h,
                w == self.camera.resolution.0,
                h == self.camera.resolution.1,
                self.camera.looks_along_axis() ==> !self.some_sample_fails(config),
                in_turn == (parallel != Parallel::Rayon),
                pixel == repeated(self.ambient(), config.samples as nat),
                self.frame_upto(config, in_turn, data@, l as nat * w as nat),
                self.steady(config, in_turn) ==> data@ == uniform_frame(pixel, l as nat * w as nat),
            decreases h - l,
        {
            let mut c: u32 = 0;
            while c < w
                invariant
                    0 <= c <= w,
                    0 <= l < h,
                    w == self.camera.resolution.0,
                    h == self.camera.resolution.1,
                    self.camera.looks_along_axis() ==> !self.some_sample_fails(config),
                    in_turn == (parallel != Parallel::Rayon),
                    pixel == repeated(self.ambient(), config.samples as nat),
                    self.frame_upto(config, in_turn, data@, l as nat * w as nat + c as nat),
                    self.steady(config, in_turn) ==> data@ == uniform_frame(
                        pixel,
                        l as nat * w as nat + c as nat,
                    ),
                decreases w - c,
            {
                let color: Color = match self.pixel_sum(l, c, config, parallel, pool) {
                    Ok(color) => color,
                    Err(_) => {
                        proof {
                            assert(self.sample_fails(config, l, c));
                        }
                        return Err(RenderError::Degenerate);
                    },
                };
                proof {
                    lemma_uniform_frame_grows(pixel, l as nat * w as nat + c as nat);
                    self.lemma_frame_grows(config, in_turn, data@, l, c, color);
                }
                data.push(color.r);
                data.push(color.g);
                data.push(color.b);
                c = c + 1;
            }
            proof {
                assert((l + 1) as nat * w as nat == l as nat * w as nat + w as nat) by (nonlinear_arith);
            }
            l = l + 1;
        }
        proof {
            assert(l as nat * w as nat == w as nat * h as nat) by (nonlinear_arith)
                requires
                    l == h,
            ;
        }
        let ghost raw: Seq<Scalar> = data@;
        let r = Scene::normalize(data);
        proof {
            assert(normalized_as(r, raw));
        }
        r
    }

    /// Renders the frame, the samples of each pixel one after another. It
    /// is refused as degenerate only where the camera has no ray for some
    /// sample of some pixel.
    pub fn render_monothread(&self, config: &RenderConfig) -> (r: Result<Vec<Scalar>, RenderError>)
        ensures
            self.rendered_in_turn(config, r),
            self.camera.looks_along_axis() ==> r != Err::<Vec<Scalar>, RenderError>(RenderError::Degenerate),
            self.steady(config, true) ==> r == Err::<Vec<Scalar>, RenderError>(RenderError::Degenerate)
                || normalized_as(r, self.empty_scene_frame(config)),
    {
        self.frame_by(config, Parallel::No, &None)
    }

    /// Renders the frame, the samples of each pixel handed out to a pool of
    /// `config.workers` workers and summed in the order in which they come
    /// back. A pool of no workers is refused; else the frame is refused as
    /// degenerate only where the camera has no ray for some sample of some
    /// pixel.
    pub fn render_multithread(&self, config: &RenderConfig) -> (r: Result<Vec<Scalar>, RenderError>)
        ensures
            config.workers == 0 ==> r == Err::<Vec<Scalar>, RenderError>(RenderError::NoWorkers),
            config.workers > 0 ==> self.rendered_in_turn(config, r),
            config.workers > 0 && self.camera.looks_along_axis() ==> r != Err::<Vec<Scalar>, RenderError>(
                RenderError::Degenerate,
            ),
            config.workers > 0 && self.steady(config, true) ==> r == Err::<Vec<Scalar>, RenderError>(
                RenderError::Degenerate,
            ) || normalized_as(r, self.empty_scene_frame(config)),
    {
        if config.workers == 0 {
            return Err(RenderError::NoWorkers);
        }
        let pool: Option<ThreadPool> = Some(ThreadPool::new(config.workers));
        self.frame_by(config, Parallel::Basic, &pool)
    }

    /// A frame of `l * w + c` pixels, with the pixel in row `l` and column
    /// `c` behind it, is a frame of one pixel more.
    proof fn lemma_frame_grows(
        &self,
        config: &RenderConfig,
        in_turn: bool,
        raw: Seq<Scalar>,
        l: u32,
        c: u32,
        color: Color,
    )
        requires
            c < self.camera.resolution.0,
            self.frame_upto(config, in_turn, raw, l as nat * self.camera.resolution.0 as nat + c as nat),
            self.pixel_by(config, in_turn, l, c, color),
        ensures
            self.frame_upto(
                config,
                in_turn,
                raw.push(color.r).push(color.g).push(color.b),
                l as nat * self.camera.resolution.0 as nat + c as nat + 1,
            ),
    {
        let w: u32 = self.camera.resolution.0;
        let count: nat = l as nat * w as nat + c as nat;
        let longer: Seq<Scalar> = raw.push(color.r).push(color.g).push(color.b);
        assert forall|i: int| 0 <= i < count + 1 implies self.pixel_by(
            config,
            in_turn,
            (i / (w as int)) as u32,
            (i % (w as int)) as u32,
            #[trigger] color_at(longer, i),
        ) by {
            if i < count {
                assert(color_at(longer, i) == color_at(raw, i));
            } else {
                assert(color_at(longer, i) == color);
                assert(i == (w as int) * (l as int) + (c as int)) by (nonlinear_arith)
                    requires
                        i == l as nat * w as nat + c as nat,
                ;
                vstd::arithmetic::div_mod::lemma_fundamental_div_mod_converse(
                    i,
                    w as int,
                    l as int,
                    c as int,
                );
            }
        }
    }

    /// Renders the frame, the samples of each pixel computed in parallel
    /// and reduced to their sum, in a grouping that is left open. It is
    /// refused as degenerate only where the camera has no ray for some
    /// sample of some pixel.
    pub fn render_rayon(&self, config: &RenderConfig) -> (r: Result<Vec<Scalar>, RenderError>)
        ensures
            self.rendered(config, r),
            self.camera.looks_along_axis() ==> r != Err::<Vec<Scalar>, RenderError>(RenderError::Degenerate),
            self.steady(config, false) ==> r == Err::<Vec<Scalar>, RenderError>(RenderError::Degenerate)
                || normalized_as(r, self.empty_scene_frame(config)),
    {
        self.frame_by(config, Parallel::Rayon, &None)
    }

    /// With a camera that looks along an axis no sample is refused:
    /// the camera has a ray for every sample of every pixel.
    pub proof fn lemma_along_axis_never_fails(&self, config: &RenderConfig)
        requires
            self.camera.looks_along_axis(),
        ensures
            !self.some_sample_fails(config),
            forall|l: u32, c: u32, draws: Seq<u64>| #[trigger]
                self.sampled(l, c, config.max_bounces, draws) is Ok,
    {
        assert forall|l: u32, c: u32, draws: Seq<u64>| #[trigger]
            self.sampled(l, c, config.max_bounces, draws) is Ok by {
            let half: Scalar = Scalar::from_bits(HALF_BITS);
            let column: Scalar = Scalar::of_int(c as int).plus(Scalar::unit_of(word(draws, 0))).minus(
                half,
            );
            let row: Scalar = Scalar::of_int(l as int).plus(Scalar::unit_of(word(draws, 1))).minus(half);
            self.camera.lemma_ray_along_axis((column, row));
        }
    }

    /// In a scene without objects every ray brings back the ambient light,
    /// whatever its depth and its draws.
    pub proof fn lemma_empty_scene_traced(&self, ray: Ray, depth: nat, draws: Seq<u64>)
        requires
            self.objects@.len() == 0,
        ensures
            self.traced(ray, depth, draws) == self.ambient(),
    {
    }

    /// In a scene without objects every sample that is not refused is the
    /// ambient light.
    pub proof fn lemma_sample_of_empty_scene(
        &self,
        l: u32,
        c: u32,
        depth: u16,
        r: Result<Color, RenderError>,
    )
        requires
            self.sample_of(l, c, depth, r),
            r.is_ok(),
        ensures
            self.objects@.len() == 0 ==> r == Ok::<Color, RenderError>(self.ambient()),
    {
        if self.objects@.len() == 0 {
            let draws: Seq<u64> = choose|draws: Seq<u64>| #[trigger]
                self.sampled(l, c, depth, draws) == r;
            let d: Vec3d = choose|d: Vec3d| self.sampled(l, c, depth, draws) == Ok::<Color, RenderError>(
                self.traced(Ray { start: self.camera.pos, dir: d }, depth as nat, draws),
            );
            self.lemma_empty_scene_traced(
                Ray { start: self.camera.pos, dir: d },
                depth as nat,
                draws,
            );
        }
    }

    /// The frame over its largest number. It is refused where that is not
    /// above zero: the frame is empty, or holds nothing above zero.
    pub fn normalize(data: Vec<Scalar>) -> (r: Result<Vec<Scalar>, RenderError>)
        ensures
            peak(data@).greater(Scalar { bits: 0 }) ==> r.is_ok() && r.unwrap()@ == scaled_frame(
                data@,
                peak(data@),
            ),
            !peak(data@).greater(Scalar { bits: 0 }) ==> r == Err::<Vec<Scalar>, RenderError>(
                RenderError::NoPositiveMaximum,
            ),
    {
        let mut top: Scalar = Scalar { bits: NAN_BITS };
        let mut k: usize = 0;
        while k < data.len()
            invariant
                0 <= k <= data@.len(),
                top == peak_upto(data@, k as nat),
            decreases data@.len() - k,
        {
            top = top.max(data[k]);
            k = k + 1;
        }
        if !top.greater(Scalar { bits: 0 }) {
            return Err(RenderError::NoPositiveMaximum);
        }
        let mut out: Vec<Scalar> = Vec::new();
        let mut j: usize = 0;
        while j < data.len()
            invariant
                0 <= j <= data@.len(),
                out@.len() == j,
                forall|i: int| 0 <= i < j ==> out@[i] == (#[trigger] data@[i]).over(top),
            decreases data@.len() - j,
        {
            out.push(data[j].over(top));
            j = j + 1;
        }
        proof {
            assert(out@ =~= scaled_frame(data@, top));
        }
        Ok(out)
    }
}

/// A way of adding samples up: nothing, one sample, or two groups of
/// samples one after the other.
pub enum Grouping {
    Nothing,
    One,
    Both(Box<Grouping>, Box<Grouping>),
}

impl Grouping {
    /// The number of samples in the grouping.
    pub open spec fn count(self) -> nat
        decreases self,
    {
        match self {
            Grouping::Nothing => 0,
            Grouping::One => 1,
            Grouping::Both(first, second) => first.count() + second.count(),
        }
    }

    /// What the samples from place `from` on add up to in this grouping:
    /// `nothing_yet` for nothing, the sample for one, and for two groups
    /// what `combine` makes of the two.
    pub open spec fn folded(self, samples: Seq<Result<Color, RenderError>>, from: int) -> Result<
        Color,
        RenderError,
    >
        decreases self,
    {
        match self {
            Grouping::Nothing => Scene::spec_nothing_yet(),
            Grouping::One => samples[from],
            Grouping::Both(first, second) => Scene::spec_combine(
                first.folded(samples, from),
                second.folded(samples, from + first.count()),
            ),
        }
    }
}

/// The color whose channels are the whole numbers `r`, `g` and `b`.
pub open spec fn whole_color(r: nat, g: nat, b: nat) -> Color {
    Color { r: Scalar::of_int(r as int), g: Scalar::of_int(g as int), b: Scalar::of_int(b as int) }
}

/// Whether `n` times each of three whole numbers stays below `2^53`.
pub open spec fn fits_whole(r: nat, g: nat, b: nat, n: nat) -> bool {
    r * n < 0x20_0000_0000_0000 && g * n < 0x20_0000_0000_0000 && b * n < 0x20_0000_0000_0000
}

/// The color whose channels are the whole numbers `r`, `g` and `b`, each
/// times two to the power that `x` holds for it.
pub open spec fn even_color(r: nat, g: nat, b: nat, x: (int, int, int)) -> Color {
    Color {
        r: Scalar::scaled_whole(r, x.0),
        g: Scalar::scaled_whole(g, x.1),
        b: Scalar::scaled_whole(b, x.2),
    }
}

/// Whether `n` times each of three whole numbers stays below `2^53`, and
/// each power of two within the range of the numbers.
pub open spec fn fits_even(r: nat, g: nat, b: nat, x: (int, int, int), n: nat) -> bool {
    fits_whole(r, g, b, n) && -1074 <= x.0 <= 895 && -1074 <= x.1 <= 895 && -1074 <= x.2 <= 895
}

/// A grouping fails only with a failure among its samples, and gives a
/// sum only where none of them is one.
pub proof fn lemma_grouping_failure(grouping: Grouping, samples: Seq<Result<Color, RenderError>>, from: int)
    ensures
        grouping.folded(samples, from) is Err ==> exists|k: int|
            from <= k < from + grouping.count() && #[trigger] samples[k] == grouping.folded(samples, from),
        grouping.folded(samples, from) is Ok ==> forall|k: int|
            from <= k < from + grouping.count() ==> (#[trigger] samples[k]) is Ok,
    decreases grouping,
{
    match grouping {
        Grouping::Nothing => {},
        Grouping::One => {},
        Grouping::Both(first, second) => {
            lemma_grouping_failure(*first, samples, from);
            lemma_grouping_failure(*second, samples, from + first.count());
        },
    }
}

/// Samples that are all the same color, of whole numbers times powers of
/// two, add up, in any grouping, to as many times that color, as long as
/// the whole numbers of the sums stay below `2^53`.
pub proof fn lemma_grouping_even(
    grouping: Grouping,
    samples: Seq<Result<Color, RenderError>>,
    from: int,
    r: nat,
    g: nat,
    b: nat,
    x: (int, int, int),
    limit: nat,
)
    requires
        grouping.count() <= limit,
        fits_even(r, g, b, x, limit),
        forall|k: int|
            from <= k < from + grouping.count() ==> #[trigger] samples[k] == Ok::<Color, RenderError>(
                even_color(r, g, b, x),
            ),
    ensures
        grouping.folded(samples, from) == Ok::<Color, RenderError>(
            even_color(r * grouping.count(), g * grouping.count(), b * grouping.count(), x),
        ),
    decreases grouping,
{
    match grouping {
        Grouping::Nothing => {
            assert(r * 0 == 0 && g * 0 == 0 && b * 0 == 0);
        },
        Grouping::One => {
            assert(r * 1 == r && g * 1 == g && b * 1 == b);
        },
        Grouping::Both(first, second) => {
            let i: nat = first.count();
            let j: nat = second.count();
            lemma_grouping_even(*first, samples, from, r, g, b, x, limit);
            lemma_grouping_even(*second, samples, from + i, r, g, b, x, limit);
            lemma_even_sum(r, i, j, x.0, limit);
            lemma_even_sum(g, i, j, x.1, limit);
            lemma_even_sum(b, i, j, x.2, limit);
        },
    }
}

/// `i` times and `j` times a whole number times a power of two add up to
/// `i + j` times it, as long as the whole number of the sum stays below
/// `2^53`.
proof fn lemma_even_sum(a: nat, i: nat, j: nat, x: int, limit: nat)
    requires
        i + j <= limit,
        a * limit < 0x20_0000_0000_0000,
        -1074 <= x <= 895,
    ensures
        Scalar::scaled_whole(a * i, x).spec_plus(Scalar::scaled_whole(a * j, x)) == Scalar::scaled_whole(
            a * (i + j),
            x,
        ),
{
    assert(a * i + a * j == a * (i + j) && a * (i + j) <= a * limit) by (nonlinear_arith)
        requires
            i + j <= limit,
    ;
    crate::scalar::nearest::lemma_sum_of_scaled(a * i, a * j, x);
}

/// As many times a color of whole numbers times powers of two, added one
/// at a time, are as many times the color, as long as the whole numbers
/// of the sums stay below `2^53`.
pub proof fn lemma_repeated_even(r: nat, g: nat, b: nat, x: (int, int, int), n: nat, limit: nat)
    requires
        n <= limit,
        fits_even(r, g, b, x, limit),
    ensures
        repeated(even_color(r, g, b, x), n) == even_color(r * n, g * n, b * n, x),
    decreases n,
{
    if n == 0 {
        assert(r * 0 == 0 && g * 0 == 0 && b * 0 == 0);
    } else {
        lemma_repeated_even(r, g, b, x, (n - 1) as nat, limit);
        lemma_even_sum(r, (n - 1) as nat, 1, x.0, limit);
        lemma_even_sum(g, (n - 1) as nat, 1, x.1, limit);
        lemma_even_sum(b, (n - 1) as nat, 1, x.2, limit);
        assert(r * 1 == r && g * 1 == g && b * 1 == b);
    }
}

/// A color of whole numbers is one of whole numbers times `2^0`.
pub proof fn lemma_whole_is_even(r: nat, g: nat, b: nat)
    ensures
        whole_color(r, g, b) == even_color(r, g, b, (0, 0, 0)),
{
    crate::scalar::nearest::lemma_whole_is_scaled(r);
    crate::scalar::nearest::lemma_whole_is_scaled(g);
    crate::scalar::nearest::lemma_whole_is_scaled(b);
}

/// As many times a color of whole numbers, added one at a time, are as
/// many times the color, as long as the sums stay below `2^53`.
pub proof fn lemma_repeated_whole(r: nat, g: nat, b: nat, n: nat, limit: nat)
    requires
        n <= limit,
        fits_whole(r, g, b, limit),
    ensures
        repeated(whole_color(r, g, b), n) == whole_color(r * n, g * n, b * n),
{
    lemma_whole_is_even(r, g, b);
    lemma_whole_is_even(r * n, g * n, b * n);
    lemma_repeated_even(r, g, b, (0, 0, 0), n, limit);
}

/// `n` random words.
fn draw_words(n: usize) -> (r: Vec<u64>)
    ensures
        r@.len() == n,
{
    let mut draws: Vec<u64> = Vec::new();
    let mut k: usize = 0;
    while k < n
        invariant
            0 <= k <= n,
            draws@.len() == k,
        decreases n - k,
    {
        draws.push(random_word());
        k = k + 1;
    }
    draws
}

/// The sum of the first `n` colors, added one at a time to black.
pub open spec fn summed(samples: Seq<Color>, n: nat) -> Color
    decreases n,
{
    if n == 0 {
        Color::spec_black()
    } else {
        summed(samples, (n - 1) as nat).spec_plus(samples[n - 1])
    }
}

/// The color of pixel `i` of a frame.
pub open spec fn color_at(raw: Seq<Scalar>, i: int) -> Color {
    Color { r: raw[3 * i], g: raw[3 * i + 1], b: raw[3 * i + 2] }
}

/// One more color behind the others leaves the sums of those before it as
/// they were, and adds to the sum of all.
proof fn lemma_summed_grows(samples: Seq<Color>, next: Color)
    ensures
        summed(samples.push(next), samples.len() + 1) == summed(samples, samples.len()).spec_plus(next),
{
    lemma_summed_keeps(samples, next, samples.len());
}

/// One more color behind the others leaves the sums of those before it as
/// they were.
proof fn lemma_summed_keeps(samples: Seq<Color>, next: Color, n: nat)
    requires
        n <= samples.len(),
    ensures
        summed(samples.push(next), n) == summed(samples, n),
    decreases n,
{
    if n > 0 {
        lemma_summed_keeps(samples, next, (n - 1) as nat);
    }
}

/// The sum of `n` times the color `a`, added one at a time to black.
pub open spec fn repeated(a: Color, n: nat) -> Color
    decreases n,
{
    if n == 0 {
        Color::spec_black()
    } else {
        repeated(a, (n - 1) as nat).spec_plus(a)
    }
}

/// The frame of `pixels` pixels that all have the same color: its red, its
/// green and its blue, over and over.
pub open spec fn uniform_frame(color: Color, pixels: nat) -> Seq<Scalar> {
    Seq::new(
        3 * pixels,
        |k: int|
            if k % 3 == 0 {
                color.r
            } else if k % 3 == 1 {
                color.g
            } else {
                color.b
            },
    )
}

/// Whether `r` is what `normalize` makes of the frame `raw`.
pub open spec fn normalized_as(r: Result<Vec<Scalar>, RenderError>, raw: Seq<Scalar>) -> bool {
    match r {
        Ok(out) => peak(raw).greater(Scalar { bits: 0 }) && out@ == scaled_frame(raw, peak(raw)),
        Err(e) => e == RenderError::NoPositiveMaximum && !peak(raw).greater(Scalar { bits: 0 }),
    }
}

proof fn lemma_uniform_frame_grows(color: Color, pixels: nat)
    ensures
        uniform_frame(color, pixels).push(color.r).push(color.g).push(color.b) == uniform_frame(
            color,
            pixels + 1,
        ),
{
    assert(uniform_frame(color, pixels).push(color.r).push(color.g).push(color.b) =~= uniform_frame(
        color,
        pixels + 1,
    ));
}

/// Whether, among the objects before `n`, object `j` is hit nearer than
/// infinity, no object is hit nearer, and no earlier object is hit as near.
pub open spec fn first_nearest_object_among(objects: Seq<Object>, ray: &Ray, j: int, n: int) -> bool {
    match objects[j].spec_intersect(ray) {
        Some(h) => forall|k: int|
            0 <= k < n ==> match (#[trigger] objects[k]).spec_intersect(ray) {
                Some(other) => h.dist.less_eq(other.dist) && (k < j ==> h.dist.less(other.dist)),
                None => true,
            },
        None => false,
    }
}

/// Whether object `j` is hit nearer than infinity, no object is hit nearer,
/// and no earlier object is hit as near.
pub open spec fn first_nearest_object(objects: Seq<Object>, ray: &Ray, j: int) -> bool {
    first_nearest_object_among(objects, ray, j, objects.len() as int)
}

/// The nearest hit among objects lies strictly ahead of the start of the
/// ray and nearer than infinity, and no object is hit nearer. There is none
/// only where no object is hit nearer than infinity.
pub proof fn lemma_nearest_object_hit(objects: Seq<Object>, ray: &Ray, n: nat)
    requires
        n <= objects.len(),
    ensures
        match nearest_object_hit(objects, ray, n) {
            Some(b) => b.dist.greater(Scalar { bits: 0 }) && b.dist.less(Scalar { bits: INF_BITS })
                && forall|k: int|
                0 <= k < n ==> match (#[trigger] objects[k]).spec_intersect(ray) {
                    Some(h) => b.dist.less_eq(h.dist),
                    None => true,
                },
            None => forall|k: int|
                0 <= k < n ==> match (#[trigger] objects[k]).spec_intersect(ray) {
                    Some(h) => !h.dist.less(Scalar { bits: INF_BITS }),
                    None => true,
                },
        },
    decreases n,
{
    if n > 0 {
        lemma_nearest_object_hit(objects, ray, (n - 1) as nat);
        lemma_object_hit_ahead(&objects[n - 1], ray);
        assert forall|k: int| 0 <= k < n implies match (#[trigger] objects[k]).spec_intersect(ray) {
            Some(h) => h.dist.greater(Scalar { bits: 0 }),
            None => true,
        } by {
            lemma_object_hit_ahead(&objects[k], ray);
        }
    }
}

impl Scene {
    /// A point light adds nothing to a hit, neither diffuse light nor
    /// highlight, where an object stands in its way: where the ray from
    /// the light towards the hit meets some object more than `1e-9` before
    /// it has gone the distance to the hit.
    pub proof fn lemma_blocked_light_adds_nothing(
        &self,
        incoming: Vec3d,
        i: &Intersect,
        so_far: Color,
        light: Light,
        k: int,
    )
        requires
            0 <= k < self.objects@.len(),
            match light.light_type {
                LightType::PointLight { pos } => match i.pos.minus(pos).normalize() {
                    Some(d) => match self.objects@[k].spec_intersect(&Ray { start: pos, dir: d }) {
                        Some(h) => h.dist.less(
                            pos.minus(i.pos).norm().minus(Scalar::from_bits(SHADOW_SLACK_BITS)),
                        ),
                        None => false,
                    },
                    None => false,
                },
                LightType::AmbiantLight => false,
            },
        ensures
            self.diffuse_step(i, so_far, light) == so_far,
            self.specular_step(incoming, i, so_far, light) == so_far,
    {
        match light.light_type {
            LightType::PointLight { pos } => {
                let d: Vec3d = i.pos.minus(pos).normalize().unwrap();
                let ray: Ray = Ray { start: pos, dir: d };
                lemma_nearest_object_hit(self.objects@, &ray, self.objects@.len());
                lemma_object_hit_ahead(&self.objects@[k], &ray);
                assert(!self.spec_reaches(pos, i.pos));
            },
            LightType::AmbiantLight => {},
        }
    }
}

/// The largest of the first `n` numbers is one of them, and none of them is
/// above it. It is NaN only where all of them are.
pub proof fn lemma_peak_is_maximum(data: Seq<Scalar>, n: nat)
    requires
        n <= data.len(),
    ensures
        peak_upto(data, n).nan() <==> forall|k: int| 0 <= k < n ==> (#[trigger] data[k]).nan(),
        !peak_upto(data, n).nan() ==> exists|k: int| 0 <= k < n && #[trigger] data[k] == peak_upto(data, n),
        forall|k: int|
            0 <= k < n && !(#[trigger] data[k]).nan() ==> data[k].less_eq(peak_upto(data, n)),
    decreases n,
{
    if n > 0 {
        lemma_peak_is_maximum(data, (n - 1) as nat);
        let before: Scalar = peak_upto(data, (n - 1) as nat);
        let now: Scalar = peak_upto(data, n);
        assert(now == before.spec_max(data[n - 1]));
        if !now.nan() {
            if now == data[n - 1] {
                assert(data[n - 1] == now);
            } else {
                let k: int = choose|k: int| 0 <= k < n - 1 && #[trigger] data[k] == before;
                assert(data[k] == now);
            }
        }
    }
}

/// A frame whose largest number is finite and above zero, scaled by
/// `normalize`: each number of it is the number of the frame over the
/// largest; one of them is 1; and none that comes of a number is above 1.
pub proof fn lemma_normalized_frame(data: Seq<Scalar>)
    requires
        peak(data).greater(Scalar { bits: 0 }),
        peak(data).finite(),
    ensures
        forall|k: int|
            0 <= k < data.len() ==> #[trigger] scaled_frame(data, peak(data))[k] == data[k].over(
                peak(data),
            ),
        exists|k: int|
            0 <= k < data.len() && #[trigger] scaled_frame(data, peak(data))[k] == (Scalar {
                bits: ONE_BITS,
            }),
        forall|k: int|
            0 <= k < data.len() && !data[k].nan() ==> (#[trigger] scaled_frame(data, peak(data))[k]).less_eq(
                Scalar { bits: ONE_BITS },
            ),
{
    let top: Scalar = peak(data);
    lemma_peak_is_maximum(data, data.len());
    let at: int = choose|k: int| 0 <= k < data.len() && #[trigger] data[k] == top;
    lemma_over_self_is_one(top);
    assert(scaled_frame(data, top)[at] == (Scalar { bits: ONE_BITS }));
    assert forall|k: int| 0 <= k < data.len() && !data[k].nan() implies (#[trigger] scaled_frame(
        data,
        top,
    )[k]).less_eq(Scalar { bits: ONE_BITS }) by {
        lemma_quotient_at_most_one(data[k], top);
    }
}

/// The frame of pixels that all hold the same whole numbers, scaled by
/// `normalize`: its largest number is the largest of the three, which is
/// above zero, and every pixel holds the three over the largest. The
/// largest over itself is 1, and zero over it is zero.
pub proof fn lemma_whole_frame(r: nat, g: nat, b: nat, most: nat, pixels: nat)
    requires
        pixels >= 1,
        most >= 1,
        most == r || most == g || most == b,
        r <= most && g <= most && b <= most,
        most < 0x20_0000_0000_0000,
    ensures
        ({
            let raw: Seq<Scalar> = uniform_frame(whole_color(r, g, b), pixels);
            let top: Scalar = Scalar::of_int(most as int);
            &&& peak(raw) == top
            &&& top.finite() && top.greater(Scalar { bits: 0 })
            &&& top.over(top) == (Scalar { bits: ONE_BITS })
            &&& (Scalar { bits: 0 }).over(top) == (Scalar { bits: 0 })
            &&& forall|i: int|
                0 <= i < pixels ==> #[trigger] color_at(scaled_frame(raw, peak(raw)), i) == (Color {
                    r: Scalar::of_int(r as int).over(top),
                    g: Scalar::of_int(g as int).over(top),
                    b: Scalar::of_int(b as int).over(top),
                })
        }),
{
    let raw: Seq<Scalar> = uniform_frame(whole_color(r, g, b), pixels);
    let top: Scalar = Scalar::of_int(most as int);
    let zero: Scalar = Scalar { bits: 0 };
    crate::scalar::nearest::lemma_small_integers_are_exact(most as int);
    crate::scalar::nearest::lemma_small_integers_are_exact(r as int);
    crate::scalar::nearest::lemma_small_integers_are_exact(g as int);
    crate::scalar::nearest::lemma_small_integers_are_exact(b as int);
    crate::scalar::nearest::lemma_small_integers_are_exact(0);
    crate::scalar::nearest::lemma_one_is_whole();
    vstd::arithmetic::power2::lemma_pow2_pos(1074);
    let unit: nat = vstd::arithmetic::power2::pow2(1074);
    assert(most * unit > 0 && r * unit <= most * unit && g * unit <= most * unit && b * unit <= most
        * unit && 0 * unit == 0) by (nonlinear_arith)
        requires
            most >= 1,
            r <= most,
            g <= most,
            b <= most,
            unit > 0,
    ;
    let rr: Scalar = Scalar::of_int(r as int);
    let gg: Scalar = Scalar::of_int(g as int);
    let bb: Scalar = Scalar::of_int(b as int);
    crate::scalar::value::lemma_order_is_that_of_values(rr, top);
    crate::scalar::value::lemma_order_is_that_of_values(gg, top);
    crate::scalar::value::lemma_order_is_that_of_values(bb, top);
    crate::scalar::value::lemma_order_is_that_of_values(zero, top);
    crate::scalar::value::lemma_weight_of_zero(top);
    assert(!top.negative() && !rr.negative() && !gg.negative() && !bb.negative()) by {
        reveal(Scalar::of_int);
        crate::scalar::round::lemma_rounded_has_sign(false, most, 0, false);
        crate::scalar::round::lemma_rounded_has_sign(false, r, 0, false);
        crate::scalar::round::lemma_rounded_has_sign(false, g, 0, false);
        crate::scalar::round::lemma_rounded_has_sign(false, b, 0, false);
    }
    assert(top.greater(zero));
    lemma_over_self_is_one(top);
    assert(zero.over(top) == zero) by {
        reveal(Scalar::spec_over);
    }
    // the largest number of the frame is one of the three, and none of
    // them is above the largest of them
    lemma_peak_is_maximum(raw, raw.len());
    assert(raw[0] == rr && raw[1] == gg && raw[2] == bb);
    let found: Scalar = peak(raw);
    assert(!found.nan());
    let at: int = choose|k: int| 0 <= k < raw.len() && #[trigger] raw[k] == found;
    assert(found == rr || found == gg || found == bb);
    assert(rr.less_eq(found) && gg.less_eq(found) && bb.less_eq(found));
    assert(top.less_eq(found));
    assert(found.less_eq(top));
    assert(found == top);
    assert forall|i: int| 0 <= i < pixels implies #[trigger] color_at(scaled_frame(raw, found), i) == (Color {
        r: rr.over(top),
        g: gg.over(top),
        b: bb.over(top),
    }) by {
        assert(raw[3 * i] == rr && raw[3 * i + 1] == gg && raw[3 * i + 2] == bb);
    }
}

} // verus!
