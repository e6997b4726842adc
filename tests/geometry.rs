use platformer_nav::geometry::{distance, isqrt, normalize_or_zero, segments_intersect, squared_distance, Point};

fn p(x: i64, y: i64) -> Point {
    Point { x, y }
}

#[test]
fn isqrt_rounds_down() {
    assert_eq!(isqrt(0), 0);
    assert_eq!(isqrt(1), 1);
    assert_eq!(isqrt(15), 3);
    assert_eq!(isqrt(16), 4);
    assert_eq!(isqrt(17), 4);
    assert_eq!(isqrt(50_000_000), 7071);
    assert_eq!(isqrt(1u128 << 98), 1u64 << 49);
}

#[test]
fn distance_of_a_three_four_five_triangle() {
    assert_eq!(squared_distance(p(0, 0), p(3000, 4000)), 25_000_000);
    assert_eq!(distance(p(0, 0), p(3000, 4000)), 5000);
    assert_eq!(distance(p(-1_000_000_000, -1_000_000_000), p(1_000_000_000, 1_000_000_000)), 2_828_427_124);
}

#[test]
fn crossing_segments_meet() {
    assert!(segments_intersect(p(0, 0), p(10, 10), p(0, 10), p(10, 0)));
    assert!(segments_intersect(p(0, 0), p(10, 0), p(5, -5), p(5, 0)));
}

#[test]
fn separate_or_parallel_segments_do_not_meet() {
    assert!(!segments_intersect(p(0, 0), p(10, 0), p(0, 5), p(10, 5)));
    assert!(!segments_intersect(p(0, 0), p(10, 0), p(11, -5), p(11, 5)));
    assert!(!segments_intersect(p(0, 0), p(10, 0), p(2, 0), p(8, 0)));
    assert!(!segments_intersect(p(3, 3), p(3, 3), p(0, 0), p(10, 10)));
}

#[test]
fn normalize_scales_to_one_unit() {
    assert_eq!(normalize_or_zero(p(3000, 4000)), p(600, 800));
    assert_eq!(normalize_or_zero(p(0, -5)), p(0, -1000));
    assert_eq!(normalize_or_zero(p(0, 0)), p(0, 0));
}
