use raytracer::fixed::{isqrt_u128, pow_fixed, tdiv_i128, SCALE};
use raytracer::raytracer::{
    calc_light_intensity, calc_reflection_intensity, compute_lighting, ray_intersect_sphere,
    trace_ray, T_NO_HIT,
};
use raytracer::scene::{Color, Light, Scene, Sphere, Vec3, Viewport};

fn v(x: i64, y: i64, z: i64) -> Vec3 {
    Vec3 { x, y, z }
}

fn sphere(x: i64, y: i64, z: i64, radius: i64, specular: i32, color: (u8, u8, u8)) -> Sphere {
    Sphere {
        position: v(x, y, z),
        radius,
        specular,
        color: Color { r: color.0, g: color.1, b: color.2 },
    }
}

fn scene_with(background: (u8, u8, u8), spheres: Vec<Sphere>, lights: Vec<Light>) -> Scene {
    Scene::new(
        Color { r: background.0, g: background.1, b: background.2 },
        v(0, 0, 0),
        Viewport { width: SCALE, height: SCALE, distance: SCALE },
        spheres,
        lights,
    )
    .expect("scene should be well formed")
}

#[test]
fn fixed_point_division_truncates_toward_zero() {
    assert_eq!(tdiv_i128(7, 2), 3);
    assert_eq!(tdiv_i128(-7, 2), -3);
    assert_eq!(tdiv_i128(6, 3), 2);
    assert_eq!(tdiv_i128(-6, 3), -2);
}

#[test]
fn integer_square_root_floors() {
    assert_eq!(isqrt_u128(0), 0);
    assert_eq!(isqrt_u128(1), 1);
    assert_eq!(isqrt_u128(24), 4);
    assert_eq!(isqrt_u128(25), 5);
    assert_eq!(isqrt_u128(26), 5);
    assert_eq!(isqrt_u128(1_000_000_000_000), 1_000_000);
}

#[test]
fn fixed_power_of_one_is_one() {
    assert_eq!(pow_fixed(SCALE, 17), SCALE);
    assert_eq!(pow_fixed(500_000, 1), 500_000);
    assert_eq!(pow_fixed(500_000, 2), 250_000);
    assert_eq!(pow_fixed(0, 3), 0);
    assert_eq!(pow_fixed(700_000, 0), SCALE);
}

#[test]
fn ray_missing_sphere_yields_no_hit_sentinel() {
    // Direction along x; sphere sits on the y axis: the discriminant is
    // negative and both roots are the sentinel.
    let s = sphere(0, 5 * SCALE, 0, SCALE, -1, (255, 0, 0));
    let (t1, t2) = ray_intersect_sphere(v(0, 0, 0), v(SCALE, 0, 0), &s);
    assert_eq!(t1, T_NO_HIT);
    assert_eq!(t2, T_NO_HIT);
}

#[test]
fn ray_at_sphere_center_has_symmetric_roots() {
    // Eye at z = -3 looking toward a unit sphere at the origin: the
    // centre is at distance 3, so the roots are 2 and 4.
    let s = sphere(0, 0, 0, SCALE, -1, (255, 0, 0));
    let (t1, t2) = ray_intersect_sphere(v(0, 0, -3 * SCALE), v(0, 0, SCALE), &s);
    assert_eq!(t1, 4 * SCALE);
    assert_eq!(t2, 2 * SCALE);
    assert!(t2 <= t1);
}

#[test]
fn trace_miss_returns_background() {
    let sc = scene_with(
        (10, 20, 30),
        vec![sphere(0, 5 * SCALE, 0, SCALE, -1, (255, 0, 0))],
        vec![Light::Ambient { intensity: 500_000 }],
    );
    let color = trace_ray(&sc, v(0, 0, 0), v(SCALE, 0, 0), SCALE, i64::MAX);
    assert_eq!(color, (10, 20, 30));
}

#[test]
fn trace_empty_scene_returns_background() {
    let sc = scene_with((1, 2, 3), vec![], vec![]);
    let color = trace_ray(&sc, v(0, 0, 0), v(0, 0, SCALE), SCALE, i64::MAX);
    assert_eq!(color, (1, 2, 3));
}

#[test]
fn hit_at_exact_t_max_is_not_accepted() {
    // The sphere is hit at t = 2.0 exactly; with t_max = 2.0 the hit is
    // not strictly below the running best and the background wins.
    let sc = scene_with(
        (7, 8, 9),
        vec![sphere(0, 0, 3 * SCALE, SCALE, -1, (200, 100, 50))],
        vec![Light::Ambient { intensity: 300_000 }],
    );
    let color = trace_ray(&sc, v(0, 0, 0), v(0, 0, SCALE), SCALE, 2 * SCALE);
    assert_eq!(color, (7, 8, 9));
}

#[test]
fn ambient_only_scene_scales_base_color() {
    // One ambient light of 0.3: base (200, 100, 50) becomes (60, 30, 15).
    let sc = scene_with(
        (0, 0, 0),
        vec![sphere(0, 0, 3 * SCALE, SCALE, -1, (200, 100, 50))],
        vec![Light::Ambient { intensity: 300_000 }],
    );
    let color = trace_ray(&sc, v(0, 0, 0), v(0, 0, SCALE), SCALE, i64::MAX);
    assert_eq!(color, (60, 30, 15));
}

#[test]
fn point_light_parallel_to_normal_gives_full_diffuse() {
    // L parallel to N: cosine term is exactly 1.
    let intensity = calc_light_intensity(700_000, v(0, 2 * SCALE, 0), v(0, SCALE, 0));
    assert_eq!(intensity, 700_000);
    // A matte surface gets no specular term, whatever the view vector.
    let spec = calc_reflection_intensity(
        700_000,
        v(0, 2 * SCALE, 0),
        v(0, SCALE, 0),
        v(300_000, 400_000, 500_000),
        -1,
    );
    assert_eq!(spec, 0);
}

#[test]
fn light_behind_surface_contributes_nothing() {
    let intensity = calc_light_intensity(900_000, v(0, -2 * SCALE, 0), v(0, SCALE, 0));
    assert_eq!(intensity, 0);
}

#[test]
fn mirror_reflection_toward_viewer_gives_full_specular() {
    // L along N, V along N: R = L, the ratio is exactly 1.0, and 1^s = 1.
    let spec = calc_reflection_intensity(
        400_000,
        v(0, SCALE, 0),
        v(0, SCALE, 0),
        v(0, SCALE, 0),
        10,
    );
    assert_eq!(spec, 400_000);
}

#[test]
fn reflection_away_from_viewer_gives_no_specular() {
    let spec = calc_reflection_intensity(
        400_000,
        v(0, SCALE, 0),
        v(0, SCALE, 0),
        v(0, -SCALE, 0),
        10,
    );
    assert_eq!(spec, 0);
}

#[test]
fn lighting_sums_all_lights() {
    // Ambient 0.2 plus a full-strength point light 0.5 directly above.
    let sc = scene_with(
        (0, 0, 0),
        vec![],
        vec![
            Light::Ambient { intensity: 200_000 },
            Light::Point { intensity: 500_000, position: v(0, 5 * SCALE, 0) },
        ],
    );
    let total = compute_lighting(&sc, v(0, 0, 0), v(0, SCALE, 0), v(0, SCALE, 0), -1);
    assert_eq!(total, 700_000);
}

#[test]
fn directional_light_uses_fixed_direction() {
    let sc = scene_with(
        (0, 0, 0),
        vec![],
        vec![Light::Directional { intensity: 400_000, direction: v(0, 3 * SCALE, 0) }],
    );
    let total = compute_lighting(&sc, v(0, 0, 0), v(0, SCALE, 0), v(0, SCALE, 0), -1);
    assert_eq!(total, 400_000);
}

#[test]
fn color_multiply_rounds_and_clamps() {
    let c = Color { r: 200, g: 100, b: 50 };
    assert_eq!(c.mul(300_000), Color { r: 60, g: 30, b: 15 });
    // Intensities past 1.0 clamp at 255 instead of wrapping.
    assert_eq!(c.mul(10_000_000), Color { r: 255, g: 255, b: 255 });
    // Summed intensities just over 1.0 round per channel.
    assert_eq!(c.mul(1_300_000), Color { r: 255, g: 130, b: 65 });
    // Zero and negative intensities clamp at 0.
    assert_eq!(c.mul(0), Color { r: 0, g: 0, b: 0 });
    assert_eq!(c.mul(-2_000_000), Color { r: 0, g: 0, b: 0 });
    // Rounding is to the nearest unit: 0.5 * 3 rounds up to 2.
    let d = Color { r: 3, g: 1, b: 0 };
    assert_eq!(d.mul(500_000), Color { r: 2, g: 1, b: 0 });
}

#[test]
fn tie_break_selects_first_sphere_in_traversal_order() {
    // Two spheres with identical geometry: both yield the same t, and the
    // first one's colour must win, deterministically.
    let first = sphere(0, 0, 3 * SCALE, SCALE, -1, (100, 0, 0));
    let second = sphere(0, 0, 3 * SCALE, SCALE, -1, (0, 100, 0));
    let sc = scene_with(
        (0, 0, 0),
        vec![first, second],
        vec![Light::Ambient { intensity: SCALE }],
    );
    let color = trace_ray(&sc, v(0, 0, 0), v(0, 0, SCALE), SCALE, i64::MAX);
    assert_eq!(color, (100, 0, 0));

    let sc_swapped = scene_with(
        (0, 0, 0),
        vec![second, first],
        vec![Light::Ambient { intensity: SCALE }],
    );
    let color_swapped = trace_ray(&sc_swapped, v(0, 0, 0), v(0, 0, SCALE), SCALE, i64::MAX);
    assert_eq!(color_swapped, (0, 100, 0));
}

#[test]
fn closer_sphere_wins_regardless_of_order() {
    let near = sphere(0, 0, 3 * SCALE, SCALE, -1, (100, 0, 0));
    let far = sphere(0, 0, 8 * SCALE, SCALE, -1, (0, 100, 0));
    let sc = scene_with(
        (0, 0, 0),
        vec![far, near],
        vec![Light::Ambient { intensity: SCALE }],
    );
    let color = trace_ray(&sc, v(0, 0, 0), v(0, 0, SCALE), SCALE, i64::MAX);
    assert_eq!(color, (100, 0, 0));
}

#[test]
fn traced_hit_sums_diffuse_and_specular() {
    // Sphere ahead at z = 3, hit at t = 2: point (0,0,2), normal (0,0,-1).
    // A point light at the eye gives full diffuse (L along N) and a full
    // specular highlight (R along V), so intensity = 0.4 + 0.4 = 0.8.
    let sc = scene_with(
        (0, 0, 0),
        vec![sphere(0, 0, 3 * SCALE, SCALE, 7, (100, 50, 25))],
        vec![Light::Point { intensity: 400_000, position: v(0, 0, 0) }],
    );
    let color = trace_ray(&sc, v(0, 0, 0), v(0, 0, SCALE), SCALE, i64::MAX);
    assert_eq!(color, (80, 40, 20));
}

#[test]
fn center_pixel_ray_traces_through_viewport() {
    let sc = scene_with(
        (5, 6, 7),
        vec![sphere(0, 0, 3 * SCALE, SCALE, -1, (200, 100, 50))],
        vec![Light::Ambient { intensity: 300_000 }],
    );
    let dir = sc.canvas_to_viewport(0, 0, 800, 600);
    let hit = trace_ray(&sc, sc.get_origin(), dir, SCALE, i64::MAX);
    assert_eq!(hit, (60, 30, 15));
    // A pixel far toward the canvas corner misses the sphere.
    let dir_corner = sc.canvas_to_viewport(400, 300, 800, 600);
    let miss = trace_ray(&sc, sc.get_origin(), dir_corner, SCALE, i64::MAX);
    assert_eq!(miss, (5, 6, 7));
}

#[test]
fn scene_validation_rejects_bad_values() {
    let bad_radius = Scene::new(
        Color { r: 0, g: 0, b: 0 },
        v(0, 0, 0),
        Viewport { width: SCALE, height: SCALE, distance: SCALE },
        vec![sphere(0, 0, 0, 0, -1, (0, 0, 0))],
        vec![],
    );
    assert!(bad_radius.is_none());

    let bad_intensity = Scene::new(
        Color { r: 0, g: 0, b: 0 },
        v(0, 0, 0),
        Viewport { width: SCALE, height: SCALE, distance: SCALE },
        vec![],
        vec![Light::Ambient { intensity: -1 }],
    );
    assert!(bad_intensity.is_none());

    let bad_viewport = Scene::new(
        Color { r: 0, g: 0, b: 0 },
        v(0, 0, 0),
        Viewport { width: SCALE, height: SCALE, distance: SCALE / 2 },
        vec![],
        vec![],
    );
    assert!(bad_viewport.is_none());
}

#[test]
fn scene_getters_return_construction_values() {
    let sc = scene_with(
        (9, 8, 7),
        vec![sphere(SCALE, 2 * SCALE, 3 * SCALE, SCALE, 500, (1, 2, 3))],
        vec![Light::Ambient { intensity: 100_000 }],
    );
    assert_eq!(sc.get_background(), (9, 8, 7));
    assert_eq!(sc.get_origin(), v(0, 0, 0));
    assert_eq!(sc.get_viewport_info(), (SCALE, SCALE, SCALE));
    assert_eq!(sc.get_spheres().len(), 1);
    assert_eq!(sc.get_lights().len(), 1);
}

#[test]
fn canvas_to_viewport_scales_pixels() {
    let sc = scene_with((0, 0, 0), vec![], vec![]);
    let d = sc.canvas_to_viewport(50, -50, 100, 100);
    assert_eq!(d, v(500_000, -500_000, SCALE));
    let center = sc.canvas_to_viewport(0, 0, 100, 100);
    assert_eq!(center, v(0, 0, SCALE));
}
