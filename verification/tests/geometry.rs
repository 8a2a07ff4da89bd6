use smart_road::geometry::{distance_squared, div_floor, integer_sqrt, step_toward, Point};

#[test]
fn integer_sqrt_rounds_down() {
    assert_eq!(integer_sqrt(0), 0);
    assert_eq!(integer_sqrt(1), 1);
    assert_eq!(integer_sqrt(3), 1);
    assert_eq!(integer_sqrt(24), 4);
    assert_eq!(integer_sqrt(25), 5);
    assert_eq!(integer_sqrt(26), 5);
    assert_eq!(integer_sqrt(980_000_000_000), 989_949);
    assert_eq!(integer_sqrt(i64::MAX), 3_037_000_499);
}

#[test]
fn integer_sqrt_brackets_its_argument() {
    let mut n: i64 = 0;
    while n < 5_000 {
        let r = integer_sqrt(n);
        assert!(r * r <= n && n < (r + 1) * (r + 1));
        n += 1;
    }
}

#[test]
fn distance_squared_is_exact() {
    let a = Point { x: 3_000, y: -4_000 };
    let b = Point { x: 0, y: 0 };
    assert_eq!(distance_squared(a, b), 25_000_000);
    assert_eq!(distance_squared(b, a), 25_000_000);
    assert_eq!(distance_squared(a, a), 0);
    let far = Point { x: 1_000_000_000, y: 1_000_000_000 };
    let near = Point { x: -1_000_000_000, y: -1_000_000_000 };
    assert_eq!(distance_squared(far, near), 8_000_000_000_000_000_000);
}

#[test]
fn div_floor_rounds_towards_minus_infinity() {
    assert_eq!(div_floor(7, 2), 3);
    assert_eq!(div_floor(-7, 2), -4);
    assert_eq!(div_floor(-8, 2), -4);
    assert_eq!(div_floor(-1, 10), -1);
    assert_eq!(div_floor(0, 5), 0);
    assert_eq!(div_floor(-258_750, 10), -25_875);
    assert_eq!(div_floor(i64::MAX, 1), i64::MAX);
    assert_eq!(div_floor(i64::MIN + 1, i64::MAX), -1);
}

#[test]
fn step_toward_scales_the_way() {
    let from = Point { x: 0, y: 0 };
    let to = Point { x: 3_000, y: 4_000 };
    assert_eq!(step_toward(from, to, 2_500), Point { x: 1_500, y: 2_000 });
    assert_eq!(step_toward(from, to, 5_000), to);
    assert_eq!(step_toward(from, to, 0), from);
}

#[test]
fn step_toward_rounds_towards_where_it_starts() {
    // The way is the square root of 200, taken as 14: 10 * 7 / 14 = 5.
    let from = Point { x: 10, y: 10 };
    let to = Point { x: 0, y: 0 };
    assert_eq!(step_toward(from, to, 7), Point { x: 5, y: 5 });
    let back = step_toward(to, from, 7);
    assert_eq!(back, Point { x: 5, y: 5 });
    // 3 * 2 / 5 = 1 and 4 * 2 / 5 = 1, in both directions.
    let a = Point { x: 100, y: 100 };
    assert_eq!(step_toward(a, Point { x: 103, y: 96 }, 2), Point { x: 101, y: 99 });
    assert_eq!(step_toward(a, Point { x: 97, y: 104 }, 2), Point { x: 99, y: 101 });
}

#[test]
fn step_toward_itself_stays() {
    let p = Point { x: 350_000, y: 350_000 };
    assert_eq!(step_toward(p, p, 0), p);
}
