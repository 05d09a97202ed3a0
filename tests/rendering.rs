use pathtrace::accumulator::{clamp, Accumulator, ConfigError};
use pathtrace::color::Color;
use pathtrace::integrator::{bounce_direction_of, render_pixel, shoot_ray, trace_path, BounceSample};
use pathtrace::render::{check_config, primary_direction, render_pass};
use pathtrace::scene::{nearest_hit, Plane, Primitive, Sphere};
use pathtrace::vector::{Vector, SCALE};

const S: i64 = SCALE;
const US: u64 = 1_000_000;

fn v(x: i64, y: i64, z: i64) -> Vector {
    Vector::new(x, y, z)
}

fn floor_under_sky() -> Vec<Primitive> {
    vec![
        Primitive::Plane(Plane { point: v(0, -S, 0), normal: v(0, S, 0), color: Color::new(US / 2, US / 2, US / 4) }),
        Primitive::Sphere(Sphere { center: v(0, 0, 0), radius: 100 * S, color: Color::new(US, US, US), light: true }),
    ]
}

fn straight_up() -> BounceSample {
    BounceSample { seed: v(S, 0, 0), disk_x: 0, disk_y: 0 }
}

#[test]
fn attenuate_multiplies_in_fixed_point() {
    let a = Color::new(US / 2, US, 0);
    let c = a.attenuate(&Color::new(2 * US, 3, 7));
    assert_eq!(c, Color::new(US, 3, 0));
}

#[test]
fn bounce_along_the_normal() {
    let d = bounce_direction_of(&v(0, S, 0), &straight_up()).unwrap();
    assert_eq!(d, v(0, S, 0));
}

#[test]
fn bounce_with_seed_parallel_to_normal_is_none() {
    let s = BounceSample { seed: v(0, S, 0), disk_x: 0, disk_y: 0 };
    assert!(bounce_direction_of(&v(0, S, 0), &s).is_none());
}

#[test]
fn bounce_stays_in_the_upper_hemisphere() {
    let s = BounceSample { seed: v(3, 5, 7), disk_x: 600_000, disk_y: -800_000 };
    let d = bounce_direction_of(&v(0, S, 0), &s).unwrap();
    assert!(d.y >= 0);
    let len = d.length();
    assert!(len <= S && len >= S - 4);
}

#[test]
fn trace_path_multiplies_albedo_by_incoming_light() {
    let scene = floor_under_sky();
    let samples = vec![straight_up(), straight_up()];
    let c = trace_path(&scene, &v(0, 0, 0), &v(0, -S, 0), 1, &samples);
    assert_eq!(c, Color::new(US / 2, US / 2, US / 4));
}

#[test]
fn trace_path_past_the_bounce_limit_is_black() {
    let scene = floor_under_sky();
    let samples = vec![straight_up()];
    let c = trace_path(&scene, &v(0, 0, 0), &v(0, -S, 0), 0, &samples);
    assert_eq!(c, Color::black());
}

#[test]
fn light_on_first_hit_returns_its_emission() {
    let scene = floor_under_sky();
    for max in [0u32, 1, 20] {
        let c = shoot_ray(&scene, &v(0, 0, 0), &v(0, S, 0), max);
        assert_eq!(c, Color::new(US, US, US));
    }
}

#[test]
fn diffuse_floor_under_light_sky_is_exact() {
    let scene = floor_under_sky();
    for _ in 0..20 {
        let c = shoot_ray(&scene, &v(0, 0, 0), &v(0, -S, 0), 20);
        assert_eq!(c, Color::new(US / 2, US / 2, US / 4));
    }
}

#[test]
fn empty_scene_is_black() {
    let scene: Vec<Primitive> = vec![];
    for d in [v(0, 0, S), v(S, 0, 0), v(-3, 4, -5)] {
        assert_eq!(shoot_ray(&scene, &v(1, 2, 3), &d, 20), Color::black());
        assert_eq!(render_pixel(&scene, &v(0, 0, 0), &d, 5, 20), Color::black());
    }
}

#[test]
fn center_ray_hits_sphere_and_off_axis_ray_misses() {
    let scene = vec![Primitive::Sphere(Sphere {
        center: v(0, 0, 20 * S),
        radius: 3 * S,
        color: Color::new(US, US / 2, US / 2),
        light: false,
    })];
    let center = primary_direction(200, 150, 400, 300);
    assert_eq!(center, v(0, 0, S));
    assert!(nearest_hit(&scene, &v(0, 0, 0), &center).is_some());
    let corner = primary_direction(0, 0, 400, 300);
    assert!(nearest_hit(&scene, &v(0, 0, 0), &corner).is_none());
    assert_eq!(render_pixel(&scene, &v(0, 0, 0), &corner, 50, 20), Color::black());
}

#[test]
fn light_sphere_pixel_has_no_variance() {
    let e = 10 * US;
    let scene = vec![Primitive::Sphere(Sphere { center: v(0, 0, 20 * S), radius: 3 * S, color: Color::new(e, e, e), light: true })];
    let center = primary_direction(200, 150, 400, 300);
    for _ in 0..10 {
        assert_eq!(shoot_ray(&scene, &v(0, 0, 0), &center, 20), Color::new(e, e, e));
    }
    assert_eq!(render_pixel(&scene, &v(0, 0, 0), &center, 50, 20), Color::new(e, e, e));
}

#[test]
fn render_pass_covers_every_pixel() {
    let e = 10 * US;
    let scene = vec![Primitive::Sphere(Sphere { center: v(0, 0, 20 * S), radius: 3 * S, color: Color::new(e, e, e), light: true })];
    let pass = render_pass(&scene, &v(0, 0, 0), 4, 3, 2, 5);
    assert_eq!(pass.len(), 12);
    assert_eq!(pass[2 * 3 + 1], Color::new(e, e, e));
    assert_eq!(pass[0], Color::black());
}

#[test]
fn clamp_limits_both_ends() {
    assert_eq!(clamp(300, 0, 255), 255);
    assert_eq!(clamp(3, 5, 255), 5);
    assert_eq!(clamp(100, 0, 255), 100);
}

#[test]
fn accumulator_rejects_empty_and_huge_images() {
    assert_eq!(Accumulator::new(0, 5).err(), Some(ConfigError::EmptyImage));
    assert_eq!(Accumulator::new(5, 0).err(), Some(ConfigError::EmptyImage));
    assert_eq!(Accumulator::new(1 << 13, 1 << 12).err(), Some(ConfigError::ImageTooLarge));
    let a = Accumulator::new(2, 3).unwrap();
    assert_eq!((a.width(), a.height(), a.passes()), (2, 3, 0));
}

#[test]
fn accumulator_averages_over_passes() {
    let mut a = Accumulator::new(1, 2).unwrap();
    a.add_pass(&vec![Color::new(US, 0, 2 * US), Color::new(0, US / 2, 0)]);
    assert_eq!(a.display(), vec![255, 0, 255, 0, 127, 0]);
    a.add_pass(&vec![Color::new(0, 0, 0), Color::new(0, US / 2, 0)]);
    assert_eq!(a.passes(), 2);
    assert_eq!(a.display(), vec![127, 0, 255, 0, 127, 0]);
}

#[test]
fn passes_of_one_sample_match_one_pass_of_all_samples() {
    let samples = [Color::new(US, 0, US / 2), Color::new(US / 2, US, 0), Color::new(0, 0, US / 2)];
    let mut many = Accumulator::new(1, 1).unwrap();
    for s in samples.iter() {
        many.add_pass(&vec![*s]);
    }
    let n = samples.len() as u64;
    let mean = Color::new(
        samples.iter().map(|c| c.r).sum::<u64>() / n,
        samples.iter().map(|c| c.g).sum::<u64>() / n,
        samples.iter().map(|c| c.b).sum::<u64>() / n,
    );
    let mut one = Accumulator::new(1, 1).unwrap();
    one.add_pass(&vec![mean]);
    assert_eq!(many.display(), one.display());
    assert_eq!(one.display(), vec![127, 84, 84]);
}

#[test]
fn config_errors() {
    let ok = floor_under_sky();
    assert_eq!(check_config(0, 3, 1, &ok), Err(ConfigError::EmptyImage));
    assert_eq!(check_config(1 << 13, 1 << 12, 1, &ok), Err(ConfigError::ImageTooLarge));
    assert_eq!(check_config(4, 3, 0, &ok), Err(ConfigError::NoSamples));
    let bad = vec![Primitive::Sphere(Sphere { center: v(0, 0, 0), radius: -1, color: Color::black(), light: false })];
    assert_eq!(check_config(4, 3, 1, &bad), Err(ConfigError::InvalidPrimitive));
    assert_eq!(check_config(4, 3, 1, &ok), Ok(()));
}

#[test]
fn path_ends_black_past_the_coordinate_bound() {
    let scene = vec![
        Primitive::Plane(Plane { point: v(0, 0, 0), normal: v(0, S, 0), color: Color::new(US, US, US) }),
        Primitive::Sphere(Sphere { center: v(0, 0, 0), radius: 100 * S, color: Color::new(US, US, US), light: true }),
    ];
    let hit = nearest_hit(&scene, &v(0, S, 0), &v(S, -1, 0)).unwrap();
    assert_eq!(hit.0, 1);
    let floor_only = vec![scene[0]];
    let (i, far) = nearest_hit(&floor_only, &v(0, S, 0), &v(S, -1, 0)).unwrap();
    assert_eq!((i, far.position), (0, v(S * S, 0, 0)));
    let samples = vec![straight_up(), straight_up()];
    assert_eq!(trace_path(&floor_only, &v(0, S, 0), &v(S, -1, 0), 1, &samples), Color::black());
}
