//! The ray-tracing core: ray/sphere intersection, closest-hit selection,
//! and the ambient + diffuse + specular shading engine.
//!
//! All geometry is fixed-point (`fixed::SCALE` units per 1.0).  The
//! quadratic's discriminant is computed exactly in 128 bits; the only
//! rounding steps are the floor square root and the final truncating
//! divisions, and the contracts state both exactly.

use vstd::prelude::*;
use crate::fixed::{
    SCALE, tdiv, tdiv_i128, sqrt_floor, isqrt_u128, pow_fp, pow_fixed,
    lemma_tdiv_bound, lemma_tdiv_monotone, lemma_sqrt_floor_le, lemma_sqrt_floor_ge,
    lemma_div_bound_nonneg,
};
use crate::scene::{
    Vec3, Sphere, Light, Scene, v3, dot3, sub3, bounded3, dot_raw,
    spec_mul_channel, INTENSITY_LIMIT, MAX_COORD, MAX_INTENSITY,
    lemma_dot3_bound, lemma_dot3_self, lemma_dot3_zero,
};
use vstd::arithmetic::div_mod::lemma_div_pos_is_pos;

verus! {

/// Sentinel root meaning "no hit"; fails every finite range test, since
/// accepted hits are strictly below the running best, which starts at
/// `t_max`.
pub const T_NO_HIT: i64 = 0x7fff_ffff_ffff_ffff;

/// Largest magnitude a real intersection root can have under the scene
/// and ray bounds.
pub const MAX_ROOT: i64 = 4_000_000_000_000;

/// Largest coordinate of a hit point reachable from a well-formed ray.
pub const MAX_POINT: i64 = 3_000_000_000_000_000;

/// Bound on light-vector components accepted by the shading engine.
pub const MAX_LIGHT_VEC: i64 = 4_000_000_000_000_000;

/// Bound on surface-normal components accepted by the shading engine.
pub const MAX_NORMAL_VEC: i64 = 4_000_000;

/// Bound on view-vector components accepted by the shading engine.
pub const MAX_VIEW_VEC: i64 = 1_000_000_000;

/// A ray the tracer accepts: origin and direction inside the scene box,
/// and a direction of real length at least 1 (never zero).
pub open spec fn ray_wf(origin: Vec3, dir: Vec3) -> bool {
    &&& bounded3(v3(origin), MAX_COORD as int)
    &&& bounded3(v3(dir), MAX_COORD as int)
    &&& dot3(v3(dir), v3(dir)) >= (SCALE as int) * (SCALE as int)
}

/// Discriminant of the ray/sphere quadratic, computed without rounding.
/// With `co = origin - center` and `d = dir`, this is
/// `(co.d)^2 - (d.d)((co.co) - r^2)`, i.e. the textbook `b^2 - 4ac`
/// scaled by `SCALE^4 / 4`; its sign is exactly the sign of the real
/// discriminant.
pub open spec fn spec_disc(origin: Vec3, dir: Vec3, sph: Sphere) -> int {
    let co = sub3(v3(origin), v3(sph.position));
    let d = v3(dir);
    dot3(co, d) * dot3(co, d) - dot3(d, d) * (dot3(co, co) - (sph.radius as int) * (
    sph.radius as int))
}

/// The two intersection roots in SCALE units, largest first, or the
/// `T_NO_HIT` sentinel pair when the discriminant is negative.  The real
/// roots are `(-co.d +/- sqrt(disc)) / (d.d)`; each is floored toward
/// zero by the final truncating division.
pub open spec fn spec_roots(origin: Vec3, dir: Vec3, sph: Sphere) -> (int, int) {
    let co = sub3(v3(origin), v3(sph.position));
    let d = v3(dir);
    let a = dot3(d, d);
    let dd = dot3(co, d);
    let disc = spec_disc(origin, dir, sph);
    if disc < 0 {
        (T_NO_HIT as int, T_NO_HIT as int)
    } else {
        let s = sqrt_floor(disc);
        (tdiv((-dd + s) * (SCALE as int), a), tdiv((-dd - s) * (SCALE as int), a))
    }
}

/// Roots of the quadratic `|origin + t*dir - center|^2 = r^2`.
pub fn ray_intersect_sphere(origin: Vec3, dir: Vec3, sphere: &Sphere) -> (r: (i64, i64))
    requires
        ray_wf(origin, dir),
        sphere.wf(),
    ensures
        (r.0 as int, r.1 as int) == spec_roots(origin, dir, *sphere),
        r.1 <= r.0,
        spec_disc(origin, dir, *sphere) >= 0 ==> -MAX_ROOT <= r.1 && r.0 <= MAX_ROOT,
        spec_disc(origin, dir, *sphere) < 0 ==> r.0 == T_NO_HIT && r.1 == T_NO_HIT,
{
    let co = origin.sub(&sphere.position);
    let big_d: i128 = dot_raw(&co, &dir);
    let big_a: i128 = dot_raw(&dir, &dir);
    let c2: i128 = dot_raw(&co, &co);
    proof {
        lemma_dot3_bound(v3(co), v3(dir), 1_000_000_000, 500_000_000);
        lemma_dot3_bound(v3(dir), v3(dir), 500_000_000, 500_000_000);
        lemma_dot3_bound(v3(co), v3(co), 1_000_000_000, 1_000_000_000);
        lemma_dot3_self(v3(co));
        assert(1 <= (sphere.radius as int) * (sphere.radius as int)
            <= 250_000_000_000_000_000) by (nonlinear_arith)
            requires
                1 <= sphere.radius <= 500_000_000,
        ;
    }
    let rr: i128 = (sphere.radius as i128) * (sphere.radius as i128);
    proof {
        assert(-(2_250_000_000_000_000_000_000_000_000_000_000_000int)
            <= (big_d as int) * (big_d as int)
            <= 2_250_000_000_000_000_000_000_000_000_000_000_000int) by (nonlinear_arith)
            requires
                -1_500_000_000_000_000_000 <= big_d as int <= 1_500_000_000_000_000_000,
        ;
        assert(-(2_250_000_000_000_000_000_000_000_000_000_000_000int)
            <= (big_a as int) * (c2 as int - rr as int)
            <= 2_250_000_000_000_000_000_000_000_000_000_000_000int) by (nonlinear_arith)
            requires
                0 <= big_a as int <= 750_000_000_000_000_000,
                -3_000_000_000_000_000_000 <= c2 as int - rr as int
                    <= 3_000_000_000_000_000_000,
        ;
    }
    let disc: i128 = big_d * big_d - big_a * (c2 - rr);
    proof {
        assert(disc as int == spec_disc(origin, dir, *sphere));
    }
    if disc < 0 {
        (T_NO_HIT, T_NO_HIT)
    } else {
        let s: u128 = isqrt_u128(disc as u128);
        proof {
            assert((2_200_000_000_000_000_000int) * (2_200_000_000_000_000_000int)
                >= disc as int) by (nonlinear_arith)
                requires
                    disc as int <= 4_500_000_000_000_000_000_000_000_000_000_000_000int,
            ;
            lemma_sqrt_floor_le(disc as int, 2_200_000_000_000_000_000int);
            crate::fixed::lemma_sqrt_floor_props(disc as int);
        }
        let s_i: i128 = s as i128;
        let num1: i128 = -big_d + s_i;
        let num2: i128 = -big_d - s_i;
        proof {
            lemma_tdiv_bound(
                num1 as int * 1_000_000,
                big_a as int,
                3_700_000_000_000,
                1_000_000_000_000,
            );
            lemma_tdiv_bound(
                num2 as int * 1_000_000,
                big_a as int,
                3_700_000_000_000,
                1_000_000_000_000,
            );
            lemma_tdiv_monotone(num2 as int * 1_000_000, num1 as int * 1_000_000, big_a as int);
        }
        let t1: i64 = tdiv_i128(num1 * 1_000_000, big_a) as i64;
        let t2: i64 = tdiv_i128(num2 * 1_000_000, big_a) as i64;
        (t1, t2)
    }
}

/// Diffuse (cosine-law) contribution of one light.  `I * (N.L) / (|N||L|)`
/// when the light is in front of the surface, else 0; the quotient is
/// truncated and capped at `I`, absorbing the floor in the two lengths.
pub open spec fn spec_diffuse(intensity: int, light: (int, int, int), normal: (int, int, int)) -> int {
    let ndl = dot3(normal, light);
    if ndl > 0 {
        let denom = sqrt_floor(dot3(normal, normal)) * sqrt_floor(dot3(light, light));
        let q = tdiv(intensity * ndl, denom);
        if q > intensity {
            intensity
        } else {
            q
        }
    } else {
        0
    }
}

/// Phong specular contribution of one light: with reflection vector
/// `R = 2N(N.L) - L`, it is `I * (R.V / (|R||V|))^specular` when the
/// reflection points toward the viewer, else 0; the base ratio is
/// truncated and capped at 1.0 before exponentiation.
pub open spec fn spec_specular(
    intensity: int,
    light: (int, int, int),
    normal: (int, int, int),
    view: (int, int, int),
    specular: int,
) -> int {
    if specular == -1 {
        0
    } else {
        let ndl = dot3(normal, light);
        let s2 = (SCALE as int) * (SCALE as int);
        let refl = (
            tdiv(2 * normal.0 * ndl, s2) - light.0,
            tdiv(2 * normal.1 * ndl, s2) - light.1,
            tdiv(2 * normal.2 * ndl, s2) - light.2,
        );
        let rdv = dot3(refl, view);
        if rdv > 0 {
            let denom = sqrt_floor(dot3(refl, refl)) * sqrt_floor(dot3(view, view));
            let ratio = tdiv(rdv * (SCALE as int), denom);
            let base = if ratio > SCALE as int {
                SCALE as int
            } else {
                ratio
            };
            tdiv(intensity * pow_fp(base, specular as nat), SCALE as int)
        } else {
            0
        }
    }
}

/// What one light adds to the intensity at a point: its intensity for an
/// ambient light; diffuse plus specular, over the vector from the point
/// to the light (point lights) or the light's fixed direction
/// (directional lights).
pub open spec fn spec_light_term(
    l: Light,
    point: (int, int, int),
    normal: (int, int, int),
    view: (int, int, int),
    specular: int,
) -> int {
    match l {
        Light::Ambient { intensity } => intensity as int,
        Light::Point { intensity, position } => {
            let lv = sub3(v3(position), point);
            spec_diffuse(intensity as int, lv, normal) + spec_specular(
                intensity as int,
                lv,
                normal,
                view,
                specular,
            )
        },
        Light::Directional { intensity, direction } => {
            spec_diffuse(intensity as int, v3(direction), normal) + spec_specular(
                intensity as int,
                v3(direction),
                normal,
                view,
                specular,
            )
        },
    }
}

/// Total intensity at a point: the sum of every light's contribution, in
/// scene traversal order.
pub open spec fn spec_lighting(
    lights: Seq<Light>,
    point: (int, int, int),
    normal: (int, int, int),
    view: (int, int, int),
    specular: int,
) -> int
    decreases lights.len(),
{
    if lights.len() == 0 {
        0
    } else {
        spec_lighting(lights.drop_last(), point, normal, view, specular) + spec_light_term(
            lights.last(),
            point,
            normal,
            view,
            specular,
        )
    }
}

/// Diffuse term: `I * (N.L) / (|N||L|)` if `N.L > 0`, else 0.
pub fn calc_light_intensity(light_intensity: i64, light: Vec3, normal: Vec3) -> (r: i64)
    requires
        0 <= light_intensity <= MAX_INTENSITY,
        bounded3(v3(light), MAX_LIGHT_VEC as int),
        bounded3(v3(normal), MAX_NORMAL_VEC as int),
    ensures
        r as int == spec_diffuse(light_intensity as int, v3(light), v3(normal)),
        0 <= r <= light_intensity,
{
    let ndl: i128 = dot_raw(&normal, &light);
    if ndl > 0 {
        proof {
            lemma_dot3_zero(v3(normal), v3(light));
            lemma_dot3_self(v3(normal));
            lemma_dot3_self(v3(light));
            lemma_dot3_bound(v3(normal), v3(normal), 4_000_000, 4_000_000);
            lemma_dot3_bound(
                v3(light),
                v3(light),
                4_000_000_000_000_000,
                4_000_000_000_000_000,
            );
            lemma_dot3_bound(v3(normal), v3(light), 4_000_000, 4_000_000_000_000_000);
        }
        let nn: i128 = dot_raw(&normal, &normal);
        let ll: i128 = dot_raw(&light, &light);
        let sn: u128 = isqrt_u128(nn as u128);
        let sl: u128 = isqrt_u128(ll as u128);
        proof {
            lemma_sqrt_floor_ge(nn as int, 1);
            lemma_sqrt_floor_ge(ll as int, 1);
            lemma_sqrt_floor_le(nn as int, 7_000_000);
            lemma_sqrt_floor_le(ll as int, 7_000_000_000_000_000);
            assert(1 <= (sn as int) * (sl as int)
                <= 49_000_000_000_000_000_000_000int) by (nonlinear_arith)
                requires
                    1 <= sn as int <= 7_000_000,
                    1 <= sl as int <= 7_000_000_000_000_000,
            ;
            assert(0 <= (light_intensity as int) * (ndl as int)
                <= 48_000_000_000_000_000_000_000_000_000_000int) by (nonlinear_arith)
                requires
                    0 <= light_intensity as int <= 1_000_000_000,
                    0 < ndl as int <= 48_000_000_000_000_000_000_000int,
            ;
        }
        let denom: i128 = (sn as i128) * (sl as i128);
        let q: i128 = tdiv_i128((light_intensity as i128) * ndl, denom);
        proof {
            lemma_div_pos_is_pos((light_intensity as int) * (ndl as int), denom as int);
        }
        if q > light_intensity as i128 {
            light_intensity
        } else {
            q as i64
        }
    } else {
        0
    }
}

/// Specular term: `I * (R.V / (|R||V|))^specular` over the reflection
/// vector `R = 2N(N.L) - L`, skipped for matte surfaces.
pub fn calc_reflection_intensity(
    light_intensity: i64,
    light: Vec3,
    normal: Vec3,
    point_to_cam: Vec3,
    specular: i32,
) -> (r: i64)
    requires
        0 <= light_intensity <= MAX_INTENSITY,
        bounded3(v3(light), MAX_LIGHT_VEC as int),
        bounded3(v3(normal), MAX_NORMAL_VEC as int),
        bounded3(v3(point_to_cam), MAX_VIEW_VEC as int),
        specular == -1 || specular >= 1,
    ensures
        r as int == spec_specular(
            light_intensity as int,
            v3(light),
            v3(normal),
            v3(point_to_cam),
            specular as int,
        ),
        0 <= r <= light_intensity,
{
    if specular == -1 {
        return 0;
    }
    let ndl: i128 = dot_raw(&normal, &light);
    proof {
        lemma_dot3_bound(v3(normal), v3(light), 4_000_000, 4_000_000_000_000_000);
        assert({
            &&& -(384_000_000_000_000_000_000_000_000_000int)
                <= 2 * (normal.x as int) * (ndl as int)
                <= 384_000_000_000_000_000_000_000_000_000int
            &&& -(384_000_000_000_000_000_000_000_000_000int)
                <= 2 * (normal.y as int) * (ndl as int)
                <= 384_000_000_000_000_000_000_000_000_000int
            &&& -(384_000_000_000_000_000_000_000_000_000int)
                <= 2 * (normal.z as int) * (ndl as int)
                <= 384_000_000_000_000_000_000_000_000_000int
        }) by (nonlinear_arith)
            requires
                -4_000_000 <= normal.x as int <= 4_000_000,
                -4_000_000 <= normal.y as int <= 4_000_000,
                -4_000_000 <= normal.z as int <= 4_000_000,
                -48_000_000_000_000_000_000_000int <= ndl as int
                    <= 48_000_000_000_000_000_000_000int,
        ;
        lemma_tdiv_bound(
            2 * (normal.x as int) * (ndl as int),
            1_000_000_000_000,
            400_000_000_000_000_000,
            1_000_000_000_000,
        );
        lemma_tdiv_bound(
            2 * (normal.y as int) * (ndl as int),
            1_000_000_000_000,
            400_000_000_000_000_000,
            1_000_000_000_000,
        );
        lemma_tdiv_bound(
            2 * (normal.z as int) * (ndl as int),
            1_000_000_000_000,
            400_000_000_000_000_000,
            1_000_000_000_000,
        );
    }
    let rx: i64 = tdiv_i128(2 * (normal.x as i128) * ndl, 1_000_000_000_000) as i64 - light.x;
    let ry: i64 = tdiv_i128(2 * (normal.y as i128) * ndl, 1_000_000_000_000) as i64 - light.y;
    let rz: i64 = tdiv_i128(2 * (normal.z as i128) * ndl, 1_000_000_000_000) as i64 - light.z;
    let refl = Vec3 { x: rx, y: ry, z: rz };
    proof {
        assert(bounded3(v3(refl), 404_000_000_000_000_000int));
        lemma_dot3_bound(v3(refl), v3(point_to_cam), 404_000_000_000_000_000, 1_000_000_000);
    }
    let rdv: i128 = dot_raw(&refl, &point_to_cam);
    if rdv > 0 {
        proof {
            lemma_dot3_zero(v3(refl), v3(point_to_cam));
            lemma_dot3_self(v3(refl));
            lemma_dot3_self(v3(point_to_cam));
            lemma_dot3_bound(
                v3(refl),
                v3(refl),
                404_000_000_000_000_000,
                404_000_000_000_000_000,
            );
            lemma_dot3_bound(v3(point_to_cam), v3(point_to_cam), 1_000_000_000, 1_000_000_000);
        }
        let rr2: i128 = dot_raw(&refl, &refl);
        let vv: i128 = dot_raw(&point_to_cam, &point_to_cam);
        let sr: u128 = isqrt_u128(rr2 as u128);
        let sv: u128 = isqrt_u128(vv as u128);
        proof {
            lemma_sqrt_floor_ge(rr2 as int, 1);
            lemma_sqrt_floor_ge(vv as int, 1);
            assert((710_000_000_000_000_000int) * (710_000_000_000_000_000int)
                >= rr2 as int) by (nonlinear_arith)
                requires
                    rr2 as int <= 489_648_000_000_000_000_000_000_000_000_000_000int,
            ;
            lemma_sqrt_floor_le(rr2 as int, 710_000_000_000_000_000);
            lemma_sqrt_floor_le(vv as int, 1_800_000_000);
            assert(1 <= (sr as int) * (sv as int)
                <= 1_278_000_000_000_000_000_000_000_000int) by (nonlinear_arith)
                requires
                    1 <= sr as int <= 710_000_000_000_000_000,
                    1 <= sv as int <= 1_800_000_000,
            ;
        }
        let denom: i128 = (sr as i128) * (sv as i128);
        let ratio_raw: i128 = tdiv_i128(rdv * 1_000_000, denom);
        proof {
            lemma_div_pos_is_pos(rdv as int * 1_000_000, denom as int);
        }
        let base: i64 = if ratio_raw > 1_000_000 {
            1_000_000
        } else {
            ratio_raw as i64
        };
        let pw: i64 = pow_fixed(base, specular as u32);
        proof {
            assert(0 <= (light_intensity as int) * (pw as int)
                && (light_intensity as int) * (pw as int)
                <= (light_intensity as int) * 1_000_000) by (nonlinear_arith)
                requires
                    0 <= light_intensity as int,
                    0 <= pw as int <= 1_000_000,
            ;
            lemma_div_bound_nonneg(
                (light_intensity as int) * (pw as int),
                1_000_000,
                light_intensity as int,
                1_000_000,
            );
        }
        let res: i128 = tdiv_i128((light_intensity as i128) * (pw as i128), 1_000_000);
        res as i64
    } else {
        0
    }
}

/// Sum of every light's contribution at a point, in traversal order.
#[verifier::loop_isolation(false)]
pub fn compute_lighting(
    scene: &Scene,
    point: Vec3,
    normal: Vec3,
    point_to_cam: Vec3,
    specular: i32,
) -> (r: i128)
    requires
        scene.wf(),
        bounded3(v3(point), MAX_POINT as int),
        bounded3(v3(normal), MAX_NORMAL_VEC as int),
        bounded3(v3(point_to_cam), MAX_VIEW_VEC as int),
        specular == -1 || specular >= 1,
    ensures
        r == spec_lighting(
            scene.lights@,
            v3(point),
            v3(normal),
            v3(point_to_cam),
            specular as int,
        ),
        0 <= r <= 2 * (MAX_INTENSITY as int) * scene.lights@.len(),
{
    let lights = scene.get_lights();
    let mut intensity: i128 = 0;
    let mut k: usize = 0;
    while k < lights.len()
        invariant
            k <= lights.len(),
            0 <= intensity <= 2 * (MAX_INTENSITY as int) * (k as int),
            intensity == spec_lighting(
                lights@.take(k as int),
                v3(point),
                v3(normal),
                v3(point_to_cam),
                specular as int,
            ),
        decreases lights.len() - k,
    {
        proof {
            assert(scene.lights@[k as int].wf());
        }
        let term: i64 = match &lights[k] {
            Light::Ambient { intensity: li } => *li,
            Light::Point { intensity: li, position } => {
                let lv = position.sub(&point);
                let d = calc_light_intensity(*li, lv, normal);
                let s = calc_reflection_intensity(*li, lv, normal, point_to_cam, specular);
                d + s
            },
            Light::Directional { intensity: li, direction } => {
                let d = calc_light_intensity(*li, *direction, normal);
                let s = calc_reflection_intensity(*li, *direction, normal, point_to_cam, specular);
                d + s
            },
        };
        proof {
            assert(term as int == spec_light_term(
                lights@[k as int],
                v3(point),
                v3(normal),
                v3(point_to_cam),
                specular as int,
            ));
            assert(lights@.take(k as int + 1).drop_last() =~= lights@.take(k as int));
            assert(lights@.take(k as int + 1).last() == lights@[k as int]);
            assert(2 * (MAX_INTENSITY as int) * (k as int + 1)
                <= 40_000_000_000_000_000_000_000_000_000int) by (nonlinear_arith)
                requires
                    0 <= k as int + 1 <= 20_000_000_000_000_000_000int,
            ;
        }
        intensity = intensity + (term as i128);
        k = k + 1;
    }
    proof {
        assert(lights@.take(lights@.len() as int) =~= lights@);
    }
    intensity
}

/// `t` is one of the two roots the intersection routine reports for this
/// sphere (possibly the `T_NO_HIT` sentinel).
pub open spec fn is_root(origin: Vec3, dir: Vec3, sph: Sphere, t: i64) -> bool {
    spec_roots(origin, dir, sph).0 == t as int || spec_roots(origin, dir, sph).1 == t as int
}

/// Sphere `i` offers root `t` inside the `[t_min, t_max]` window.
pub open spec fn is_candidate(
    scene: Scene,
    origin: Vec3,
    dir: Vec3,
    t_min: i64,
    t_max: i64,
    i: int,
    t: i64,
) -> bool {
    &&& 0 <= i < scene.spheres@.len()
    &&& is_root(origin, dir, scene.spheres@[i], t)
    &&& t_min <= t <= t_max
}

/// No sphere offers a root strictly inside the window, so the ray hits
/// nothing the tracer accepts.
pub open spec fn misses_all(scene: Scene, origin: Vec3, dir: Vec3, t_min: i64, t_max: i64) -> bool {
    forall|i: int, t: i64|
        is_candidate(scene, origin, dir, t_min, t_max, i, t) ==> t >= t_max
}

/// The hit the tracer selects: a candidate strictly below `t_max`, with
/// the smallest parameter of all candidates, on the first sphere (in
/// traversal order) that attains it.
pub open spec fn selected_hit(
    scene: Scene,
    origin: Vec3,
    dir: Vec3,
    t_min: i64,
    t_max: i64,
    i: int,
    t: i64,
) -> bool {
    &&& is_candidate(scene, origin, dir, t_min, t_max, i, t)
    &&& t < t_max
    &&& forall|j: int, s: i64|
        is_candidate(scene, origin, dir, t_min, t_max, j, s) ==> s >= t
    &&& forall|j: int, s: i64|
        is_candidate(scene, origin, dir, t_min, t_max, j, s) && j < i ==> s > t
}

/// At most one hit is selected.
pub proof fn lemma_selected_unique(
    scene: Scene,
    origin: Vec3,
    dir: Vec3,
    t_min: i64,
    t_max: i64,
    i: int,
    t: i64,
    j: int,
    s: i64,
)
    requires
        selected_hit(scene, origin, dir, t_min, t_max, i, t),
        selected_hit(scene, origin, dir, t_min, t_max, j, s),
    ensures
        i == j,
        t == s,
{
    assert(is_candidate(scene, origin, dir, t_min, t_max, i, t));
    assert(is_candidate(scene, origin, dir, t_min, t_max, j, s));
}

/// A ray aimed directly at a sphere's centre — the centre-to-origin
/// vector is `-(p/q)` times the direction for some rational `p/q >= 0` —
/// always has a positive discriminant: both roots are real and the miss
/// sentinel is never produced.
pub proof fn lemma_aimed_at_center_hits(origin: Vec3, dir: Vec3, sph: Sphere, p: int, q: int)
    requires
        sph.radius >= 1,
        dot3(v3(dir), v3(dir)) >= 1,
        p >= 0,
        q >= 1,
        q * (v3(origin).0 - v3(sph.position).0) == -(p * v3(dir).0),
        q * (v3(origin).1 - v3(sph.position).1) == -(p * v3(dir).1),
        q * (v3(origin).2 - v3(sph.position).2) == -(p * v3(dir).2),
    ensures
        spec_disc(origin, dir, sph) > 0,
{
    let co = sub3(v3(origin), v3(sph.position));
    let d = v3(dir);
    let a = dot3(d, d);
    let dd = dot3(co, d);
    let c2 = dot3(co, co);
    let r2 = (sph.radius as int) * (sph.radius as int);
    assert(q * (co.0 * d.0) == -(p * (d.0 * d.0))
        && q * q * (co.0 * co.0) == p * p * (d.0 * d.0)) by (nonlinear_arith)
        requires
            q * co.0 == -(p * d.0),
    ;
    assert(q * (co.1 * d.1) == -(p * (d.1 * d.1))
        && q * q * (co.1 * co.1) == p * p * (d.1 * d.1)) by (nonlinear_arith)
        requires
            q * co.1 == -(p * d.1),
    ;
    assert(q * (co.2 * d.2) == -(p * (d.2 * d.2))
        && q * q * (co.2 * co.2) == p * p * (d.2 * d.2)) by (nonlinear_arith)
        requires
            q * co.2 == -(p * d.2),
    ;
    let d00 = d.0 * d.0;
    let d11 = d.1 * d.1;
    let d22 = d.2 * d.2;
    let a0 = co.0 * d.0;
    let a1 = co.1 * d.1;
    let a2 = co.2 * d.2;
    let c00 = co.0 * co.0;
    let c11 = co.1 * co.1;
    let c22 = co.2 * co.2;
    vstd::arithmetic::mul::lemma_mul_is_distributive_add(q, a0 + a1, a2);
    vstd::arithmetic::mul::lemma_mul_is_distributive_add(q, a0, a1);
    vstd::arithmetic::mul::lemma_mul_is_distributive_add(p, d00 + d11, d22);
    vstd::arithmetic::mul::lemma_mul_is_distributive_add(p, d00, d11);
    assert(q * dd == -(p * a));
    let qq = q * q;
    let pp = p * p;
    vstd::arithmetic::mul::lemma_mul_is_distributive_add(qq, c00 + c11, c22);
    vstd::arithmetic::mul::lemma_mul_is_distributive_add(qq, c00, c11);
    vstd::arithmetic::mul::lemma_mul_is_distributive_add(pp, d00 + d11, d22);
    vstd::arithmetic::mul::lemma_mul_is_distributive_add(pp, d00, d11);
    assert(q * q * c2 == p * p * a);
    assert(r2 >= 1) by (nonlinear_arith)
        requires
            sph.radius >= 1,
            r2 == (sph.radius as int) * (sph.radius as int),
    ;
    assert(dd * dd - a * (c2 - r2) > 0) by (nonlinear_arith)
        requires
            q * dd == -(p * a),
            q * q * c2 == p * p * a,
            a >= 1,
            r2 >= 1,
            q >= 1,
    ;
}

/// A light shining along the surface normal — `L` is `(p/q)` times `N`
/// for a positive rational — yields diffuse intensity exactly `I`
/// (cosine term 1), and a matte surface (`specular == -1`) gets no
/// specular contribution whatever the view vector.
pub proof fn lemma_parallel_light_intensity(
    intensity: int,
    light: (int, int, int),
    normal: (int, int, int),
    view: (int, int, int),
    p: int,
    q: int,
)
    requires
        0 <= intensity,
        p >= 1,
        q >= 1,
        q * light.0 == p * normal.0,
        q * light.1 == p * normal.1,
        q * light.2 == p * normal.2,
        normal != (0int, 0int, 0int),
    ensures
        spec_diffuse(intensity, light, normal) == intensity,
        spec_specular(intensity, light, normal, view, -1) == 0,
{
    let nn = dot3(normal, normal);
    let ll = dot3(light, light);
    let ndl = dot3(normal, light);
    lemma_dot3_self(normal);
    assert(q * (normal.0 * light.0) == p * (normal.0 * normal.0)
        && q * q * (light.0 * light.0) == p * p * (normal.0 * normal.0)) by (nonlinear_arith)
        requires
            q * light.0 == p * normal.0,
    ;
    assert(q * (normal.1 * light.1) == p * (normal.1 * normal.1)
        && q * q * (light.1 * light.1) == p * p * (normal.1 * normal.1)) by (nonlinear_arith)
        requires
            q * light.1 == p * normal.1,
    ;
    assert(q * (normal.2 * light.2) == p * (normal.2 * normal.2)
        && q * q * (light.2 * light.2) == p * p * (normal.2 * normal.2)) by (nonlinear_arith)
        requires
            q * light.2 == p * normal.2,
    ;
    assert(q * ndl == p * nn && q * q * ll == p * p * nn) by (nonlinear_arith)
        requires
            q * (normal.0 * light.0) == p * (normal.0 * normal.0),
            q * (normal.1 * light.1) == p * (normal.1 * normal.1),
            q * (normal.2 * light.2) == p * (normal.2 * normal.2),
            q * q * (light.0 * light.0) == p * p * (normal.0 * normal.0),
            q * q * (light.1 * light.1) == p * p * (normal.1 * normal.1),
            q * q * (light.2 * light.2) == p * p * (normal.2 * normal.2),
            nn == normal.0 * normal.0 + normal.1 * normal.1 + normal.2 * normal.2,
            ll == light.0 * light.0 + light.1 * light.1 + light.2 * light.2,
            ndl == normal.0 * light.0 + normal.1 * light.1 + normal.2 * light.2,
    ;
    assert(ndl >= 1 && ll >= 1 && ndl * ndl == nn * ll) by (nonlinear_arith)
        requires
            q * ndl == p * nn,
            q * q * ll == p * p * nn,
            nn >= 1,
            p >= 1,
            q >= 1,
    ;
    crate::fixed::lemma_sqrt_floor_props(nn);
    crate::fixed::lemma_sqrt_floor_props(ll);
    lemma_sqrt_floor_ge(nn, 1);
    lemma_sqrt_floor_ge(ll, 1);
    let sn = sqrt_floor(nn);
    let sl = sqrt_floor(ll);
    assert(1 <= sn * sl && sn * sl <= ndl) by (nonlinear_arith)
        requires
            sn >= 1,
            sl >= 1,
            sn * sn <= nn,
            sl * sl <= ll,
            ndl * ndl == nn * ll,
            ndl >= 1,
            nn >= 1,
            ll >= 1,
    ;
    assert(intensity * (sn * sl) <= intensity * ndl) by (nonlinear_arith)
        requires
            0 <= intensity,
            sn * sl <= ndl,
    ;
    crate::fixed::lemma_div_at_least(intensity * ndl, sn * sl, intensity);
    assert(intensity * ndl >= 0) by (nonlinear_arith)
        requires
            0 <= intensity,
            ndl >= 1,
    ;
}

/// Tie-break: when two spheres offer the same accepted parameter `t` and
/// that parameter wins, the selected sphere is never the later one; the
/// first in traversal order is chosen.
pub proof fn lemma_tie_break(
    scene: Scene,
    origin: Vec3,
    dir: Vec3,
    t_min: i64,
    t_max: i64,
    i: int,
    j: int,
    sel_i: int,
    t: i64,
)
    requires
        is_candidate(scene, origin, dir, t_min, t_max, i, t),
        is_candidate(scene, origin, dir, t_min, t_max, j, t),
        i < j,
        selected_hit(scene, origin, dir, t_min, t_max, sel_i, t),
    ensures
        sel_i <= i,
        sel_i < j,
{
    if sel_i > i {
        assert(false);
    }
}

/// The point `origin + t*dir`, each coordinate truncated to a unit.
pub open spec fn spec_ray_point(origin: Vec3, dir: Vec3, t: i64) -> (int, int, int) {
    (
        origin.x as int + tdiv(t as int * (dir.x as int), SCALE as int),
        origin.y as int + tdiv(t as int * (dir.y as int), SCALE as int),
        origin.z as int + tdiv(t as int * (dir.z as int), SCALE as int),
    )
}

/// The unit outward normal `(p - center) / |p - center|` (the zero triple
/// when the point coincides with the centre).
pub open spec fn spec_normal(p: (int, int, int), center: (int, int, int)) -> (int, int, int) {
    let d = sub3(p, center);
    let dd = dot3(d, d);
    if dd == 0 {
        (0int, 0int, 0int)
    } else {
        let len = sqrt_floor(dd);
        (
            tdiv(d.0 * (SCALE as int), len),
            tdiv(d.1 * (SCALE as int), len),
            tdiv(d.2 * (SCALE as int), len),
        )
    }
}

/// The colour produced for a hit of sphere `i` at parameter `t`: the
/// sphere's base colour scaled by the summed lighting at the hit point.
pub open spec fn spec_shade(scene: Scene, i: int, t: i64, origin: Vec3, dir: Vec3) -> (int, int, int) {
    let sph = scene.spheres@[i];
    let p = spec_ray_point(origin, dir, t);
    let n = spec_normal(p, v3(sph.position));
    let view = (-(dir.x as int), -(dir.y as int), -(dir.z as int));
    let inten = spec_lighting(scene.lights@, p, n, view, sph.specular as int);
    (
        spec_mul_channel(sph.color.r as int, inten),
        spec_mul_channel(sph.color.g as int, inten),
        spec_mul_channel(sph.color.b as int, inten),
    )
}

/// The point reached at ray parameter `t`.
pub fn ray_point(origin: Vec3, dir: Vec3, t: i64) -> (r: Vec3)
    requires
        bounded3(v3(origin), MAX_COORD as int),
        bounded3(v3(dir), MAX_COORD as int),
        -MAX_ROOT <= t <= MAX_ROOT,
    ensures
        v3(r) == spec_ray_point(origin, dir, t),
        bounded3(v3(r), MAX_POINT as int),
{
    proof {
        assert({
            &&& -(2_000_000_000_000_000_000_000int) <= (t as int) * (dir.x as int)
                <= 2_000_000_000_000_000_000_000int
            &&& -(2_000_000_000_000_000_000_000int) <= (t as int) * (dir.y as int)
                <= 2_000_000_000_000_000_000_000int
            &&& -(2_000_000_000_000_000_000_000int) <= (t as int) * (dir.z as int)
                <= 2_000_000_000_000_000_000_000int
        }) by (nonlinear_arith)
            requires
                -4_000_000_000_000 <= t as int <= 4_000_000_000_000,
                -500_000_000 <= dir.x as int <= 500_000_000,
                -500_000_000 <= dir.y as int <= 500_000_000,
                -500_000_000 <= dir.z as int <= 500_000_000,
        ;
        lemma_tdiv_bound(
            (t as int) * (dir.x as int),
            1_000_000,
            2_000_000_000_000_000,
            1_000_000,
        );
        lemma_tdiv_bound(
            (t as int) * (dir.y as int),
            1_000_000,
            2_000_000_000_000_000,
            1_000_000,
        );
        lemma_tdiv_bound(
            (t as int) * (dir.z as int),
            1_000_000,
            2_000_000_000_000_000,
            1_000_000,
        );
    }
    Vec3 {
        x: origin.x + tdiv_i128((t as i128) * (dir.x as i128), 1_000_000) as i64,
        y: origin.y + tdiv_i128((t as i128) * (dir.y as i128), 1_000_000) as i64,
        z: origin.z + tdiv_i128((t as i128) * (dir.z as i128), 1_000_000) as i64,
    }
}

/// Outward unit normal of a sphere surface point.
pub fn sphere_normal(point: Vec3, center: Vec3) -> (r: Vec3)
    requires
        bounded3(v3(point), MAX_POINT as int),
        bounded3(v3(center), MAX_COORD as int),
    ensures
        v3(r) == spec_normal(v3(point), v3(center)),
        bounded3(v3(r), SCALE as int),
{
    let d = point.sub(&center);
    proof {
        lemma_dot3_self(v3(d));
        lemma_dot3_bound(v3(d), v3(d), 3_000_500_000_000_000, 3_000_500_000_000_000);
    }
    let dd: i128 = dot_raw(&d, &d);
    if dd == 0 {
        Vec3 { x: 0, y: 0, z: 0 }
    } else {
        let len: u128 = isqrt_u128(dd as u128);
        proof {
            lemma_sqrt_floor_ge(dd as int, 1);
            assert((6_000_000_000_000_000int) * (6_000_000_000_000_000int) >= dd as int)
                by (nonlinear_arith)
                requires
                    dd as int <= 28_000_000_000_000_000_000_000_000_000_000int,
            ;
            lemma_sqrt_floor_le(dd as int, 6_000_000_000_000_000int);
            assert((-(d.x as int)) * (-(d.x as int)) == (d.x as int) * (d.x as int)
                && (-(d.y as int)) * (-(d.y as int)) == (d.y as int) * (d.y as int)
                && (-(d.z as int)) * (-(d.z as int)) == (d.z as int) * (d.z as int))
                by (nonlinear_arith);
            if d.x >= 0 {
                lemma_sqrt_floor_ge(dd as int, d.x as int);
            } else {
                lemma_sqrt_floor_ge(dd as int, -(d.x as int));
            }
            if d.y >= 0 {
                lemma_sqrt_floor_ge(dd as int, d.y as int);
            } else {
                lemma_sqrt_floor_ge(dd as int, -(d.y as int));
            }
            if d.z >= 0 {
                lemma_sqrt_floor_ge(dd as int, d.z as int);
            } else {
                lemma_sqrt_floor_ge(dd as int, -(d.z as int));
            }
            lemma_tdiv_bound((d.x as int) * 1_000_000, len as int, 1_000_000, len as int);
            lemma_tdiv_bound((d.y as int) * 1_000_000, len as int, 1_000_000, len as int);
            lemma_tdiv_bound((d.z as int) * 1_000_000, len as int, 1_000_000, len as int);
        }
        Vec3 {
            x: tdiv_i128((d.x as i128) * 1_000_000, len as i128) as i64,
            y: tdiv_i128((d.y as i128) * 1_000_000, len as i128) as i64,
            z: tdiv_i128((d.z as i128) * 1_000_000, len as i128) as i64,
        }
    }
}

/// Traces one ray through the scene: finds the nearest accepted
/// intersection (ties resolved to the sphere met first in traversal
/// order) and shades it; yields the background colour when every sphere
/// is missed.
#[verifier::loop_isolation(false)]
pub fn trace_ray(scene: &Scene, origin: Vec3, dir: Vec3, t_min: i64, t_max: i64) -> (r: (u8, u8, u8))
    requires
        scene.wf(),
        ray_wf(origin, dir),
        0 <= t_min <= t_max,
    ensures
        misses_all(*scene, origin, dir, t_min, t_max) ==> r == (
            scene.background.r,
            scene.background.g,
            scene.background.b,
        ),
        !misses_all(*scene, origin, dir, t_min, t_max) ==> exists|i: int, t: i64|
            selected_hit(*scene, origin, dir, t_min, t_max, i, t),
        forall|i: int, t: i64|
            selected_hit(*scene, origin, dir, t_min, t_max, i, t) ==> (
                r.0 as int,
                r.1 as int,
                r.2 as int,
            ) == spec_shade(*scene, i, t, origin, dir),
{
    let spheres = scene.get_spheres();
    let mut closest_t: i64 = t_max;
    let mut closest: Option<usize> = None;
    let mut k: usize = 0;
    while k < spheres.len()
        invariant
            k <= spheres.len(),
            match closest {
                Option::None => {
                    &&& closest_t == t_max
                    &&& forall|j: int, s: i64|
                        is_candidate(*scene, origin, dir, t_min, t_max, j, s) && j < k as int
                            ==> s >= t_max
                },
                Option::Some(ci) => {
                    &&& (ci as int) < k as int
                    &&& is_candidate(*scene, origin, dir, t_min, t_max, ci as int, closest_t)
                    &&& closest_t < t_max
                    &&& -MAX_ROOT <= closest_t <= MAX_ROOT
                    &&& forall|j: int, s: i64|
                        is_candidate(*scene, origin, dir, t_min, t_max, j, s) && j < k as int
                            ==> s >= closest_t
                    &&& forall|j: int, s: i64|
                        is_candidate(*scene, origin, dir, t_min, t_max, j, s) && j < ci as int
                            ==> s > closest_t
                },
            },
        decreases spheres.len() - k,
    {
        let roots = ray_intersect_sphere(origin, dir, &spheres[k]);
        let t1 = roots.0;
        let t2 = roots.1;
        proof {
            assert(forall|s: i64|
                is_root(origin, dir, scene.spheres@[k as int], s) ==> s == t1 || s == t2);
        }
        if t1 >= t_min && t1 <= t_max && t1 < closest_t {
            closest_t = t1;
            closest = Some(k);
        }
        if t2 >= t_min && t2 <= t_max && t2 < closest_t {
            closest_t = t2;
            closest = Some(k);
        }
        k = k + 1;
    }
    match closest {
        None => {
            proof {
                assert(misses_all(*scene, origin, dir, t_min, t_max));
            }
            scene.get_background()
        },
        Some(ci) => {
            proof {
                assert(selected_hit(*scene, origin, dir, t_min, t_max, ci as int, closest_t));
            }
            let sph = &spheres[ci];
            let point = ray_point(origin, dir, closest_t);
            let normal = sphere_normal(point, sph.position);
            let view = Vec3 { x: -dir.x, y: -dir.y, z: -dir.z };
            let num_lights: usize = scene.get_lights().len();
            let inten: i128 = compute_lighting(scene, point, normal, view, sph.specular);
            proof {
                assert(2 * (1_000_000_000int) * (num_lights as int)
                    <= INTENSITY_LIMIT as int) by (nonlinear_arith)
                    requires
                        0 <= num_lights as int <= 0xffff_ffff_ffff_ffffu64 as int,
                ;
            }
            let col = sph.color.mul(inten);
            proof {
                assert((col.r as int, col.g as int, col.b as int) == spec_shade(
                    *scene,
                    ci as int,
                    closest_t,
                    origin,
                    dir,
                ));
                assert forall|i: int, t: i64|
                    selected_hit(*scene, origin, dir, t_min, t_max, i, t) implies (
                    col.r as int,
                    col.g as int,
                    col.b as int,
                ) == spec_shade(*scene, i, t, origin, dir) by {
                    lemma_selected_unique(
                        *scene,
                        origin,
                        dir,
                        t_min,
                        t_max,
                        i,
                        t,
                        ci as int,
                        closest_t,
                    );
                }
            }
            (col.r, col.g, col.b)
        },
    }
}

} // verus!
