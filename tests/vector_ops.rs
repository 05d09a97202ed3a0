use pathtrace::vector::{div_floor, isqrt, Vector, SCALE};

fn v(x: i64, y: i64, z: i64) -> Vector {
    Vector::new(x, y, z)
}

#[test]
fn dot_is_the_inner_product() {
    assert_eq!(v(1, 2, 3).dot(&v(4, -5, 6)), 4 - 10 + 18);
}

#[test]
fn cross_follows_the_right_hand_rule() {
    let x = v(1, 0, 0);
    let y = v(0, 1, 0);
    assert_eq!(x.cross(&y), v(0, 0, 1));
    assert_eq!(v(1, 2, 3).cross(&v(4, 5, 6)), v(-3, 6, -3));
}

#[test]
fn cross_is_antisymmetric() {
    let pairs = [(v(1, 2, 3), v(4, 5, 6)), (v(-7, 0, 9), v(2, -3, 11)), (v(SCALE, 5, -8), v(0, 3, SCALE))];
    for (a, b) in pairs.iter() {
        let ab = a.cross(b);
        let ba = b.cross(a);
        assert_eq!(ab, ba.multiply(-1));
    }
}

#[test]
fn add_minus_multiply_work_by_component() {
    assert_eq!(v(1, 2, 3).add(&v(10, 20, 30)), v(11, 22, 33));
    assert_eq!(v(1, 2, 3).minus(&v(10, 20, 30)), v(-9, -18, -27));
    assert_eq!(v(1, -2, 3).multiply(4), v(4, -8, 12));
}

#[test]
fn length_rounds_down() {
    assert_eq!(v(3, 4, 0).length(), 5);
    assert_eq!(v(1, 1, 1).length(), 1);
    assert_eq!(v(0, 0, 0).length(), 0);
    assert_eq!(v(2, 3, 6).length(), 7);
}

#[test]
fn normalize_scales_to_unit_length() {
    assert_eq!(v(3, 4, 0).normalize(), v(600_000, 800_000, 0));
    assert_eq!(v(0, 0, -5).normalize(), v(0, 0, -SCALE));
}

#[test]
fn normalized_length_is_scale_within_tolerance() {
    let samples = [v(1, 1, 1), v(1, 2, 3), v(-7, 3, 100), v(123_456, -98_765, 4_321), v(1, 0, 0), v(2_000_000_000, 1, -1)];
    for s in samples.iter() {
        let len = s.normalize().length();
        assert!(len <= SCALE && len >= SCALE - 4, "{:?} -> {}", s, len);
    }
}

#[test]
fn integer_square_root() {
    assert_eq!(isqrt(0), 0);
    assert_eq!(isqrt(15), 3);
    assert_eq!(isqrt(16), 4);
    assert_eq!(isqrt(u128::MAX), u64::MAX);
}

#[test]
fn floor_division_rounds_toward_minus_infinity() {
    assert_eq!(div_floor(7, 2), 3);
    assert_eq!(div_floor(-7, 2), -4);
    assert_eq!(div_floor(-8, 2), -4);
}
