//! Scene data model: vectors, colours, spheres, lights, and the scene
//! itself, with the well-formedness bounds that keep every fixed-point
//! computation of the tracer inside `i64`/`i128` range.

use vstd::prelude::*;
use crate::fixed::{SCALE, tdiv, tdiv_i128, lemma_tdiv_bound};
use vstd::arithmetic::div_mod::lemma_div_pos_is_pos;

verus! {

/// Largest coordinate magnitude a scene may hold (500.0 in real units).
pub const MAX_COORD: i64 = 500_000_000;

/// Largest light intensity a scene may hold (1000.0 in real units).
pub const MAX_INTENSITY: i64 = 1_000_000_000;

/// Componentwise bounds cap a dot product at three times their product.
pub proof fn lemma_dot3_bound(u: (int, int, int), v: (int, int, int), bu: int, bv: int)
    requires
        bounded3(u, bu),
        bounded3(v, bv),
        0 <= bu,
        0 <= bv,
    ensures
        -(3 * bu * bv) <= dot3(u, v) <= 3 * bu * bv,
{
    assert(-(3 * bu * bv) <= u.0 * v.0 + u.1 * v.1 + u.2 * v.2 <= 3 * bu * bv)
        by (nonlinear_arith)
        requires
            -bu <= u.0 <= bu,
            -bu <= u.1 <= bu,
            -bu <= u.2 <= bu,
            -bv <= v.0 <= bv,
            -bv <= v.1 <= bv,
            -bv <= v.2 <= bv,
            0 <= bu,
            0 <= bv,
    ;
}

/// A dot product of a triple with itself is non-negative, positive for a
/// non-zero triple, and at least the square of each component.
pub proof fn lemma_dot3_self(u: (int, int, int))
    ensures
        dot3(u, u) >= 0,
        u != (0int, 0int, 0int) ==> dot3(u, u) >= 1,
        dot3(u, u) >= u.0 * u.0,
        dot3(u, u) >= u.1 * u.1,
        dot3(u, u) >= u.2 * u.2,
{
    assert({
        &&& u.0 * u.0 + u.1 * u.1 + u.2 * u.2 >= 0
        &&& (u.0 != 0 || u.1 != 0 || u.2 != 0) ==> u.0 * u.0 + u.1 * u.1 + u.2 * u.2 >= 1
        &&& u.0 * u.0 + u.1 * u.1 + u.2 * u.2 >= u.0 * u.0
        &&& u.0 * u.0 + u.1 * u.1 + u.2 * u.2 >= u.1 * u.1
        &&& u.0 * u.0 + u.1 * u.1 + u.2 * u.2 >= u.2 * u.2
    }) by (nonlinear_arith);
}

/// A zero triple on either side makes the dot product zero.
pub proof fn lemma_dot3_zero(u: (int, int, int), v: (int, int, int))
    ensures
        dot3(u, v) != 0 ==> u != (0int, 0int, 0int) && v != (0int, 0int, 0int),
{
    assert((u == (0int, 0int, 0int) || v == (0int, 0int, 0int))
        ==> u.0 * v.0 + u.1 * v.1 + u.2 * v.2 == 0) by (nonlinear_arith);
}

/// A fixed-point triple; used for positions, directions and normals.
#[derive(Clone, Copy, PartialEq, Eq, Structural, Debug)]
pub struct Vec3 {
    pub x: i64,
    pub y: i64,
    pub z: i64,
}

/// The mathematical value of a vector: its components as integers.
pub open spec fn v3(v: Vec3) -> (int, int, int) {
    (v.x as int, v.y as int, v.z as int)
}

/// Raw (unscaled) dot product of two integer triples.
pub open spec fn dot3(u: (int, int, int), v: (int, int, int)) -> int {
    u.0 * v.0 + u.1 * v.1 + u.2 * v.2
}

/// Componentwise difference of two integer triples.
pub open spec fn sub3(u: (int, int, int), v: (int, int, int)) -> (int, int, int) {
    (u.0 - v.0, u.1 - v.1, u.2 - v.2)
}

/// Every component within `[-b, b]`.
pub open spec fn bounded3(u: (int, int, int), b: int) -> bool {
    -b <= u.0 <= b && -b <= u.1 <= b && -b <= u.2 <= b
}

impl Vec3 {
    /// Componentwise subtraction; exact (no rounding).
    pub fn sub(&self, other: &Vec3) -> (r: Vec3)
        requires
            bounded3(v3(*self), 0x2000_0000_0000_0000),
            bounded3(v3(*other), 0x2000_0000_0000_0000),
        ensures
            v3(r) == sub3(v3(*self), v3(*other)),
    {
        Vec3 { x: self.x - other.x, y: self.y - other.y, z: self.z - other.z }
    }
}

/// Raw dot product; exact (computed in 128 bits, no rounding).
pub fn dot_raw(u: &Vec3, v: &Vec3) -> (r: i128)
    requires
        bounded3(v3(*u), 4_000_000_000_000_000_000),
        bounded3(v3(*v), 4_000_000_000_000_000_000),
    ensures
        r == dot3(v3(*u), v3(*v)),
{
    proof {
        assert({
            let b = 4_000_000_000_000_000_000int;
            &&& -(b * b) <= (u.x as int) * (v.x as int) <= b * b
            &&& -(b * b) <= (u.y as int) * (v.y as int) <= b * b
            &&& -(b * b) <= (u.z as int) * (v.z as int) <= b * b
        }) by (nonlinear_arith)
            requires
                bounded3(v3(*u), 4_000_000_000_000_000_000int),
                bounded3(v3(*v), 4_000_000_000_000_000_000int),
        ;
    }
    (u.x as i128) * (v.x as i128) + (u.y as i128) * (v.y as i128) + (u.z as i128) * (v.z as i128)
}

/// An 8-bit RGB colour.
#[derive(Clone, Copy, PartialEq, Eq, Structural, Debug)]
pub struct Color {
    pub r: u8,
    pub g: u8,
    pub b: u8,
}

/// One channel scaled by a fixed-point intensity: rounded to the nearest
/// unit and clamped into [0, 255].
pub open spec fn spec_mul_channel(c: int, i: int) -> int {
    let p = c * i;
    if p <= 0 {
        0
    } else {
        let q = (p + (SCALE as int) / 2) / (SCALE as int);
        if q > 255 {
            255
        } else {
            q
        }
    }
}

/// Colour scaling never leaves [0, 255], for every intensity — negative,
/// zero, or far past 1.0: the result clamps, it never wraps around.
pub proof fn lemma_mul_channel_in_range(c: int, i: int)
    ensures
        0 <= spec_mul_channel(c, i) <= 255,
{
    let p = c * i;
    if p > 0 {
        lemma_div_pos_is_pos(p + (SCALE as int) / 2, SCALE as int);
    }
}

/// Bound under which channel products stay well inside `i128`.
pub const INTENSITY_LIMIT: i128 = 1_000_000_000_000_000_000_000_000_000_000;

fn mul_channel(c: u8, intensity: i128) -> (r: u8)
    requires
        -INTENSITY_LIMIT <= intensity <= INTENSITY_LIMIT,
    ensures
        r as int == spec_mul_channel(c as int, intensity as int),
{
    proof {
        assert(-(255 * INTENSITY_LIMIT as int) <= (c as int) * (intensity as int)
            <= 255 * INTENSITY_LIMIT as int) by (nonlinear_arith)
            requires
                0 <= c <= 255,
                -(INTENSITY_LIMIT as int) <= intensity as int <= INTENSITY_LIMIT as int,
        ;
    }
    let p: i128 = (c as i128) * intensity;
    if p <= 0 {
        0
    } else {
        let q: i128 = tdiv_i128(p + 500_000, 1_000_000);
        proof {
            lemma_div_pos_is_pos(p as int + 500_000, 1_000_000);
        }
        if q > 255 {
            255
        } else {
            q as u8
        }
    }
}

impl Color {
    /// Scalar multiplication by a fixed-point intensity, per channel,
    /// rounded and clamped into [0, 255]; never wraps around.
    pub fn mul(self, intensity: i128) -> (r: Color)
        requires
            -INTENSITY_LIMIT <= intensity <= INTENSITY_LIMIT,
        ensures
            r.r as int == spec_mul_channel(self.r as int, intensity as int),
            r.g as int == spec_mul_channel(self.g as int, intensity as int),
            r.b as int == spec_mul_channel(self.b as int, intensity as int),
    {
        Color {
            r: mul_channel(self.r, intensity),
            g: mul_channel(self.g, intensity),
            b: mul_channel(self.b, intensity),
        }
    }
}

/// A sphere of the static scene.
#[derive(Clone, Copy, Debug)]
pub struct Sphere {
    pub position: Vec3,
    pub radius: i64,
    pub specular: i32,
    pub color: Color,
}

impl Sphere {
    /// Scene bounds: centre inside the coordinate box, a positive radius,
    /// and a specular exponent that is -1 (matte) or at least 1.
    pub open spec fn wf(&self) -> bool {
        &&& bounded3(v3(self.position), MAX_COORD as int)
        &&& 1 <= self.radius <= MAX_COORD
        &&& (self.specular == -1 || self.specular >= 1)
    }
}

/// A light source: the variant carries exactly the data its kind needs,
/// so a point light without a position cannot be constructed.
#[derive(Clone, Copy, Debug)]
pub enum Light {
    Ambient { intensity: i64 },
    Point { intensity: i64, position: Vec3 },
    Directional { intensity: i64, direction: Vec3 },
}

impl Light {
    pub open spec fn wf(&self) -> bool {
        match *self {
            Light::Ambient { intensity } => 0 <= intensity <= MAX_INTENSITY,
            Light::Point { intensity, position } => {
                0 <= intensity <= MAX_INTENSITY && bounded3(v3(position), MAX_COORD as int)
            },
            Light::Directional { intensity, direction } => {
                0 <= intensity <= MAX_INTENSITY && bounded3(v3(direction), MAX_COORD as int)
            },
        }
    }
}

/// Viewport geometry: width, height, and distance from the eye.
#[derive(Clone, Copy, Debug)]
pub struct Viewport {
    pub width: i64,
    pub height: i64,
    pub distance: i64,
}

impl Viewport {
    /// The distance is at least 1.0, so rays through the viewport have
    /// real length at least 1.
    pub open spec fn wf(&self) -> bool {
        &&& 1 <= self.width <= MAX_COORD
        &&& 1 <= self.height <= MAX_COORD
        &&& SCALE <= self.distance <= MAX_COORD
    }
}

/// The static scene: read-only for the lifetime of a render.
#[derive(Debug)]
pub struct Scene {
    pub background: Color,
    pub origin: Vec3,
    pub viewport: Viewport,
    pub spheres: Vec<Sphere>,
    pub lights: Vec<Light>,
}

fn vec3_in_bounds(v: &Vec3) -> (r: bool)
    ensures
        r == bounded3(v3(*v), MAX_COORD as int),
{
    -MAX_COORD <= v.x && v.x <= MAX_COORD && -MAX_COORD <= v.y && v.y <= MAX_COORD
        && -MAX_COORD <= v.z && v.z <= MAX_COORD
}

impl Scene {
    pub open spec fn wf(&self) -> bool {
        &&& bounded3(v3(self.origin), MAX_COORD as int)
        &&& self.viewport.wf()
        &&& forall|i: int| 0 <= i < self.spheres@.len() ==> self.spheres@[i].wf()
        &&& forall|i: int| 0 <= i < self.lights@.len() ==> self.lights@[i].wf()
    }

    /// Construction-time validation: accepts exactly the well-formed
    /// scenes, and returns them unchanged.
    #[verifier::loop_isolation(false)]
    pub fn new(
        background: Color,
        origin: Vec3,
        viewport: Viewport,
        spheres: Vec<Sphere>,
        lights: Vec<Light>,
    ) -> (r: Option<Scene>)
        ensures
            r is Some <==> (Scene { background, origin, viewport, spheres, lights }).wf(),
            r is Some ==> r->0 == (Scene { background, origin, viewport, spheres, lights }),
    {
        if !vec3_in_bounds(&origin) {
            return None;
        }
        if !(1 <= viewport.width && viewport.width <= MAX_COORD && 1 <= viewport.height
            && viewport.height <= MAX_COORD && SCALE <= viewport.distance
            && viewport.distance <= MAX_COORD) {
            return None;
        }
        let mut i: usize = 0;
        while i < spheres.len()
            invariant
                i <= spheres.len(),
                forall|j: int| 0 <= j < i ==> spheres@[j].wf(),
            decreases spheres.len() - i,
        {
            let s = &spheres[i];
            if !(vec3_in_bounds(&s.position) && 1 <= s.radius && s.radius <= MAX_COORD
                && (s.specular == -1 || s.specular >= 1)) {
                proof {
                    let sc = (Scene { background, origin, viewport, spheres, lights });
                    assert(!sc.spheres@[i as int].wf());
                    assert(!sc.wf());
                }
                return None;
            }
            i = i + 1;
        }
        let mut k: usize = 0;
        while k < lights.len()
            invariant
                k <= lights.len(),
                forall|j: int| 0 <= j < k ==> lights@[j].wf(),
            decreases lights.len() - k,
        {
            let ok: bool = match &lights[k] {
                Light::Ambient { intensity } => 0 <= *intensity && *intensity <= MAX_INTENSITY,
                Light::Point { intensity, position } => {
                    0 <= *intensity && *intensity <= MAX_INTENSITY && vec3_in_bounds(position)
                },
                Light::Directional { intensity, direction } => {
                    0 <= *intensity && *intensity <= MAX_INTENSITY && vec3_in_bounds(direction)
                },
            };
            if !ok {
                proof {
                    let sc = (Scene { background, origin, viewport, spheres, lights });
                    assert(!sc.lights@[k as int].wf());
                    assert(!sc.wf());
                }
                return None;
            }
            k = k + 1;
        }
        Some(Scene { background, origin, viewport, spheres, lights })
    }

    pub fn get_background(&self) -> (r: (u8, u8, u8))
        ensures
            r == (self.background.r, self.background.g, self.background.b),
    {
        (self.background.r, self.background.g, self.background.b)
    }

    pub fn get_lights(&self) -> (r: &Vec<Light>)
        ensures
            r == &self.lights,
    {
        &self.lights
    }

    pub fn get_spheres(&self) -> (r: &Vec<Sphere>)
        ensures
            r == &self.spheres,
    {
        &self.spheres
    }

    pub fn get_origin(&self) -> (r: Vec3)
        ensures
            r == self.origin,
    {
        self.origin
    }

    pub fn get_viewport_info(&self) -> (r: (i64, i64, i64))
        ensures
            r == (self.viewport.width, self.viewport.height, self.viewport.distance),
    {
        (self.viewport.width, self.viewport.height, self.viewport.distance)
    }

    /// Maps a canvas pixel to the view-space ray direction through it.
    /// The resulting direction is in scene bounds and has real length
    /// at least 1 (its z component is the viewport distance).
    pub fn canvas_to_viewport(&self, x: i64, y: i64, canvas_w: i64, canvas_h: i64) -> (r: Vec3)
        requires
            self.wf(),
            1 <= canvas_w <= 1_000_000,
            1 <= canvas_h <= 1_000_000,
            -canvas_w <= x <= canvas_w,
            -canvas_h <= y <= canvas_h,
        ensures
            v3(r) == (
                tdiv(x as int * self.viewport.width as int, canvas_w as int),
                tdiv(y as int * self.viewport.height as int, canvas_h as int),
                self.viewport.distance as int,
            ),
            bounded3(v3(r), MAX_COORD as int),
            dot3(v3(r), v3(r)) >= (SCALE as int) * (SCALE as int),
    {
        proof {
            assert({
                &&& -(self.viewport.width as int * canvas_w as int)
                    <= x as int * self.viewport.width as int
                    <= self.viewport.width as int * canvas_w as int
                &&& -(self.viewport.height as int * canvas_h as int)
                    <= y as int * self.viewport.height as int
                    <= self.viewport.height as int * canvas_h as int
                &&& -500_000_000_000_000 <= x as int * self.viewport.width as int
                    <= 500_000_000_000_000
                &&& -500_000_000_000_000 <= y as int * self.viewport.height as int
                    <= 500_000_000_000_000
            }) by (nonlinear_arith)
                requires
                    -canvas_w <= x <= canvas_w,
                    -canvas_h <= y <= canvas_h,
                    1 <= canvas_w <= 1_000_000,
                    1 <= canvas_h <= 1_000_000,
                    1 <= self.viewport.width <= 500_000_000,
                    1 <= self.viewport.height <= 500_000_000,
            ;
            lemma_tdiv_bound(
                x as int * self.viewport.width as int,
                canvas_w as int,
                self.viewport.width as int,
                canvas_w as int,
            );
            lemma_tdiv_bound(
                y as int * self.viewport.height as int,
                canvas_h as int,
                self.viewport.height as int,
                canvas_h as int,
            );
        }
        let vx: i64 = tdiv_i128((x as i128) * (self.viewport.width as i128), canvas_w as i128)
            as i64;
        let vy: i64 = tdiv_i128((y as i128) * (self.viewport.height as i128), canvas_h as i128)
            as i64;
        let vz: i64 = self.viewport.distance;
        let r = Vec3 { x: vx, y: vy, z: vz };
        proof {
            let (rx, ry, rz) = v3(r);
            assert(rx * rx + ry * ry + rz * rz >= 1_000_000 * 1_000_000) by (nonlinear_arith)
                requires
                    rz >= 1_000_000,
            ;
            assert(dot3(v3(r), v3(r)) == rx * rx + ry * ry + rz * rz);
        }
        r
    }
}

} // verus!
