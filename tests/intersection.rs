use pathtrace::color::Color;
use pathtrace::scene::{
    nearest_hit, ray_plane_intersection, ray_sphere_intersection, Plane, Primitive, Sphere,
};
use pathtrace::vector::{Vector, SCALE};

const S: i64 = SCALE;
const US: u64 = 1_000_000;

fn v(x: i64, y: i64, z: i64) -> Vector {
    Vector::new(x, y, z)
}

fn sphere(center: Vector, radius: i64, light: bool) -> Sphere {
    Sphere { center, radius, color: Color::new(US / 2, US / 2, US / 2), light }
}

#[test]
fn ray_through_center_hits_at_distance_minus_radius() {
    let s = sphere(v(0, 0, 20 * S), 3 * S, false);
    let hit = ray_sphere_intersection(&v(0, 0, 0), &v(0, 0, S), &s).unwrap();
    assert_eq!(hit.position, v(0, 0, 17 * S));
    assert_eq!(hit.normal, v(0, 0, -S));
    assert_eq!(hit.color, s.color);
    assert_eq!(hit.position.minus(&v(0, 0, 0)).length(), 17 * S);
}

#[test]
fn ray_from_inside_hits_the_far_root() {
    let s = sphere(v(0, 0, 20 * S), 3 * S, false);
    let hit = ray_sphere_intersection(&v(0, 0, 20 * S), &v(0, 0, S), &s).unwrap();
    assert_eq!(hit.position, v(0, 0, 23 * S));
    assert_eq!(hit.normal, v(0, 0, S));
}

#[test]
fn sphere_behind_the_ray_is_missed() {
    let s = sphere(v(0, 0, 20 * S), 3 * S, false);
    assert!(ray_sphere_intersection(&v(0, 0, 0), &v(0, 0, -S), &s).is_none());
}

#[test]
fn ray_passing_beside_the_sphere_misses() {
    let s = sphere(v(0, 0, 20 * S), 3 * S, false);
    assert!(ray_sphere_intersection(&v(0, 0, 0), &v(0, S, 0), &s).is_none());
    assert!(ray_sphere_intersection(&v(4 * S, 0, 0), &v(0, 0, S), &s).is_none());
}

#[test]
fn tangent_ray_misses() {
    let s = sphere(v(0, 0, 20 * S), 3 * S, false);
    assert!(ray_sphere_intersection(&v(3 * S, 0, 0), &v(0, 0, S), &s).is_none());
}

#[test]
fn plane_is_hit_ahead() {
    let p = Plane { point: v(0, -S, 0), normal: v(0, S, 0), color: Color::new(7, 7, 7) };
    let hit = ray_plane_intersection(&v(0, 0, 0), &v(0, -S, 0), &p).unwrap();
    assert_eq!(hit.position, v(0, -S, 0));
    assert_eq!(hit.normal, v(0, S, 0));
    assert_eq!(hit.color, Color::new(7, 7, 7));
}

#[test]
fn parallel_ray_misses_plane() {
    let p = Plane { point: v(0, -S, 0), normal: v(0, S, 0), color: Color::new(7, 7, 7) };
    assert!(ray_plane_intersection(&v(0, 0, 0), &v(S, 0, 0), &p).is_none());
    assert!(ray_plane_intersection(&v(0, 0, 0), &v(0, 0, S), &p).is_none());
}

#[test]
fn plane_behind_the_ray_is_missed() {
    let p = Plane { point: v(0, -S, 0), normal: v(0, S, 0), color: Color::new(7, 7, 7) };
    assert!(ray_plane_intersection(&v(0, 0, 0), &v(0, S, 0), &p).is_none());
}

#[test]
fn nearest_hit_takes_the_closest_primitive() {
    let far = Primitive::Sphere(sphere(v(0, 0, 40 * S), 3 * S, false));
    let near = Primitive::Sphere(sphere(v(0, 0, 20 * S), 3 * S, true));
    let scene = vec![far, near];
    let (i, hit) = nearest_hit(&scene, &v(0, 0, 0), &v(0, 0, S)).unwrap();
    assert_eq!(i, 1);
    assert_eq!(hit.position, v(0, 0, 17 * S));
}

#[test]
fn nearest_hit_ties_go_to_the_first() {
    let a = Primitive::Sphere(sphere(v(0, 0, 20 * S), 3 * S, false));
    let b = Primitive::Sphere(sphere(v(0, 0, 20 * S), 3 * S, true));
    let scene = vec![a, b];
    assert_eq!(nearest_hit(&scene, &v(0, 0, 0), &v(0, 0, S)).unwrap().0, 0);
}

#[test]
fn nearest_hit_in_empty_scene_is_none() {
    assert!(nearest_hit(&vec![], &v(0, 0, 0), &v(0, 0, S)).is_none());
}

#[test]
fn primitive_validation() {
    assert!(Primitive::Sphere(sphere(v(0, 0, 20 * S), 3 * S, false)).is_valid());
    assert!(!Primitive::Sphere(sphere(v(0, 0, 20 * S), 0, false)).is_valid());
    let bright = Sphere { center: v(0, 0, 0), radius: S, color: Color::new(10 * US, 0, 0), light: false };
    assert!(!Primitive::Sphere(bright).is_valid());
    assert!(Primitive::Sphere(Sphere { light: true, ..bright }).is_valid());
    let flat = Plane { point: v(0, 0, 0), normal: v(0, 0, 0), color: Color::new(1, 1, 1) };
    assert!(!Primitive::Plane(flat).is_valid());
}

#[test]
fn grazing_ray_hits_plane_far_away() {
    let p = Plane { point: v(0, 0, 0), normal: v(0, S, 0), color: Color::new(7, 7, 7) };
    let hit = ray_plane_intersection(&v(0, S, 0), &v(S, -1, 0), &p).unwrap();
    assert_eq!(hit.position, v(S * S, 0, 0));
    assert_eq!(hit.normal, v(0, S, 0));
}

#[test]
fn far_root_of_large_sphere_is_hit() {
    let s = sphere(v(0, 0, 1 << 30), 1 << 31, false);
    let hit = ray_sphere_intersection(&v(0, 0, 0), &v(0, 0, S), &s).unwrap();
    assert_eq!(hit.position, v(0, 0, 3 << 30));
    assert_eq!(hit.normal, v(0, 0, S));
}
