use smart_road::geometry::Point;
use smart_road::traffic::curve::{quadratic_curve, RESOLUTION};

#[test]
fn curve_has_one_sample_per_step_and_both_ends() {
    let start = Point { x: 231_250, y: 107_500 };
    let control = Point { x: 226_250, y: 226_250 };
    let end = Point { x: 107_500, y: 231_250 };
    let points = quadratic_curve(start, control, end);
    assert_eq!(RESOLUTION, 100);
    assert_eq!(points.len(), 101);
    assert_eq!(points[0], start);
    assert_eq!(points[100], end);
}

#[test]
fn curve_samples_are_exact() {
    let start = Point { x: 231_250, y: 107_500 };
    let control = Point { x: 226_250, y: 226_250 };
    let end = Point { x: 107_500, y: 231_250 };
    let points = quadratic_curve(start, control, end);
    // (2500 * 231250 + 5000 * 226250 + 2500 * 107500) / 10000 = 197812.5
    assert_eq!(points[50], Point { x: 197_812, y: 197_812 });
    // (9801 * 231250 + 198 * 226250 + 107500) / 10000 = 231138.6
    assert_eq!(points[1], Point { x: 231_138, y: 109_863 });
    // (5625 * 231250 + 3750 * 226250 + 625 * 107500) / 10000 = 221640.6
    assert_eq!(points[25], Point { x: 221_640, y: 159_765 });
}

#[test]
fn curve_with_control_on_the_line_is_the_line() {
    let points = quadratic_curve(
        Point { x: 0, y: 0 },
        Point { x: 50_000, y: 100_000 },
        Point { x: 100_000, y: 200_000 },
    );
    for i in 0..=100 {
        assert_eq!(points[i], Point { x: 1_000 * i as i64, y: 2_000 * i as i64 });
    }
}

#[test]
fn curve_rounds_down_below_zero_too() {
    let up = quadratic_curve(Point { x: 0, y: 0 }, Point { x: 0, y: 0 }, Point { x: 1, y: 3 });
    // 2500 / 10000 and 7500 / 10000
    assert_eq!(up[50], Point { x: 0, y: 0 });
    assert_eq!(up[99], Point { x: 0, y: 2 });
    let down = quadratic_curve(Point { x: 0, y: 0 }, Point { x: 0, y: 0 }, Point { x: -1, y: -3 });
    assert_eq!(down[50], Point { x: -1, y: -1 });
    assert_eq!(down[99], Point { x: -1, y: -3 });
    assert_eq!(down[0], Point { x: 0, y: 0 });
}

#[test]
fn curve_is_the_same_each_time() {
    let a = quadratic_curve(
        Point { x: 333_750, y: 107_500 },
        Point { x: 324_125, y: 375_875 },
        Point { x: 592_500, y: 366_250 },
    );
    let b = quadratic_curve(
        Point { x: 333_750, y: 107_500 },
        Point { x: 324_125, y: 375_875 },
        Point { x: 592_500, y: 366_250 },
    );
    assert_eq!(a, b);
    assert_eq!(a[50], Point { x: 393_625, y: 306_375 });
}
