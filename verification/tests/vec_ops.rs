use seldom_map_nav::vec2::{isqrt_ceil, Vec2};

#[test]
fn isqrt_ceil_exact_squares() {
    assert_eq!(isqrt_ceil(0), 0);
    assert_eq!(isqrt_ceil(1), 1);
    assert_eq!(isqrt_ceil(4), 2);
    assert_eq!(isqrt_ceil(1_000_000), 1000);
    assert_eq!(isqrt_ceil(9_000_000_000_000_000_000), 3_000_000_000);
}

#[test]
fn isqrt_ceil_rounds_up() {
    assert_eq!(isqrt_ceil(2), 2);
    assert_eq!(isqrt_ceil(3), 2);
    assert_eq!(isqrt_ceil(5), 3);
    assert_eq!(isqrt_ceil(10), 4);
    assert_eq!(isqrt_ceil(999_999), 1000);
}

#[test]
fn normalize_three_four_five() {
    let v = Vec2::new(3000, 4000).normalize_or_zero();
    assert_eq!((v.x, v.y), (600, 800));
}

#[test]
fn normalize_zero_stays_zero() {
    let v = Vec2::zero().normalize_or_zero();
    assert_eq!((v.x, v.y), (0, 0));
}

#[test]
fn normalize_axis_is_unit() {
    let v = Vec2::new(123_456, 0).normalize_or_zero();
    assert_eq!((v.x, v.y), (1000, 0));
    let w = Vec2::new(0, -70_000).normalize_or_zero();
    assert_eq!((w.x, w.y), (0, -1000));
}

#[test]
fn dist_ceil_rounds_up() {
    let a = Vec2::new(0, 0);
    assert_eq!(a.dist_ceil(Vec2::new(100_000, 0)), 100_000);
    // 1 x 1 diagonal: exact length sqrt(2), stated distance rounds up to 2.
    assert_eq!(a.dist_ceil(Vec2::new(1, 1)), 2);
}

#[test]
fn scale_div_truncates_toward_zero() {
    let v = Vec2::new(7, -7).scale_div(1, 2);
    assert_eq!((v.x, v.y), (3, -3));
}
