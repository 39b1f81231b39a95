use flid_engine::geometry::{isqrt, Point};

#[test]
fn isqrt_of_small_numbers() {
    assert_eq!(isqrt(0), 0);
    assert_eq!(isqrt(1), 1);
    assert_eq!(isqrt(3), 1);
    assert_eq!(isqrt(4), 2);
    assert_eq!(isqrt(99), 9);
    assert_eq!(isqrt(100), 10);
    assert_eq!(isqrt(101), 10);
}

#[test]
fn isqrt_of_the_largest_number() {
    assert_eq!(isqrt(u128::MAX), u64::MAX);
}

#[test]
fn squared_distance_is_exact() {
    let a = Point { x: -3, y: 0 };
    let b = Point { x: 0, y: 4 };
    assert_eq!(a.dist2(b), 25);
    assert_eq!(b.dist2(a), 25);
    let far = Point { x: i32::MAX, y: i32::MAX };
    let near = Point { x: i32::MIN, y: i32::MIN };
    assert_eq!(far.dist2(near), 2 * (u32::MAX as u128) * (u32::MAX as u128));
}

#[test]
fn travel_time_is_ten_milliseconds_per_unit() {
    let a = Point { x: 0, y: 0 };
    assert_eq!(a.time_to(Point { x: 3, y: 4 }), 50);
    assert_eq!(a.time_to(Point { x: 100, y: 0 }), 1000);
    // sqrt(2) * 1000 / 100 = 14.14...
    assert_eq!(a.time_to(Point { x: 1, y: 1 }), 14);
    assert_eq!(a.time_to(a), 0);
}

#[test]
fn distance_is_rounded_down() {
    let a = Point { x: 0, y: 0 };
    assert_eq!(a.dist(Point { x: 3, y: 4 }), 5);
    assert_eq!(a.dist(Point { x: 2, y: 2 }), 2);
    assert_eq!(a.dist(Point { x: -99, y: 14 }), 99);
    assert_eq!(a.dist(Point { x: -99, y: 15 }), 100);
}
