use closest_pair_rs::algorithms::{
    closest_pair_bit_shift, closest_pair_brute_force, ClosestPairError,
};
use closest_pair_rs::utils::Point;
use rand::Rng;

fn euclidean(squared: u128) -> f32 {
    (squared as f64).sqrt() as f32
}

#[test]
fn algorithms_test_small_set() {
    let points = vec![
        Point { x: 0, y: 0 },
        Point { x: 3, y: 0 },
        Point { x: 0, y: 4 },
        Point { x: 10, y: 10 },
    ];

    let (p1, p2, dist) = closest_pair_bit_shift(points, 8).unwrap();
    assert_eq!(euclidean(dist), 3.0);
    assert!(
        (p1.x == 0 && p1.y == 0 && p2.x == 3 && p2.y == 0)
            || (p2.x == 0 && p2.y == 0 && p1.x == 3 && p1.y == 0)
    );
}

#[test]
fn algorithms_test_single_pair() {
    let points = vec![Point { x: 5, y: 10 }, Point { x: 8, y: 14 }];

    let (_, _, dist) = closest_pair_bit_shift(points, 8).unwrap();
    assert!((euclidean(dist) - 5.0).abs() < 0.001);
}

#[test]
fn algorithms_test_collinear_points() {
    let points = vec![
        Point { x: 1, y: 1 },
        Point { x: 3, y: 3 },
        Point { x: 5, y: 5 },
        Point { x: 7, y: 7 },
        Point { x: 9, y: 9 },
    ];

    let (_, _, dist) = closest_pair_bit_shift(points, 8).unwrap();
    assert!((euclidean(dist) - 2.0 * f32::sqrt(2.0)).abs() < 0.001);
}

#[test]
fn algorithms_test_grid_points() {
    let mut points = Vec::new();
    for x in 0..5 {
        for y in 0..5 {
            points.push(Point { x, y });
        }
    }

    let (_, _, dist) = closest_pair_bit_shift(points, 8).unwrap();
    assert_eq!(euclidean(dist), 1.0);
}

#[test]
fn algorithms_test_duplicate_points() {
    let points = vec![
        Point { x: 10, y: 20 },
        Point { x: 30, y: 40 },
        Point { x: 10, y: 20 },
        Point { x: 50, y: 60 },
    ];

    let (_, _, dist) = closest_pair_bit_shift(points, 8).unwrap();
    assert_eq!(euclidean(dist), 0.0);
}

#[test]
fn algorithms_test_large_range() {
    let points = vec![
        Point { x: 0, y: 0 },
        Point { x: 10000, y: 10000 },
        Point { x: 20000, y: 20000 },
        Point { x: 20005, y: 20005 },
    ];

    let (_, _, dist) = closest_pair_bit_shift(points, 16).unwrap();
    assert!((euclidean(dist) - 5.0 * f32::sqrt(2.0)).abs() < 0.001);
}

#[test]
fn algorithms_test_random_points() {
    let mut rng = rand::thread_rng();
    let bits = 31;

    // Generate 50000 random points
    let mut points = Vec::new();
    for _ in 0..50000 {
        points.push(Point {
            x: rng.gen_range(0..(u32::pow(2, bits))),
            y: rng.gen_range(0..(u32::pow(2, bits))),
        });
    }

    let (_, _, dist) = closest_pair_bit_shift(points.clone(), 32).unwrap();
    let (_, _, bf_dist) = closest_pair_brute_force(&points).unwrap();
    assert!(dist == bf_dist);
}

#[test]
fn bit_shift_rejects_empty_input() {
    let points: Vec<Point> = Vec::new();
    assert_eq!(closest_pair_bit_shift(points, 8), Err(ClosestPairError::InvalidInput));
}

#[test]
fn bit_shift_rejects_single_point() {
    let points = vec![Point { x: 1, y: 2 }];
    assert_eq!(closest_pair_bit_shift(points, 32), Err(ClosestPairError::InvalidInput));
}

#[test]
fn bit_shift_two_points_are_reported() {
    let a = Point { x: 7, y: 1 };
    let b = Point { x: 2, y: 13 };
    let (p1, p2, dist) = closest_pair_bit_shift(vec![a, b], 8).unwrap();
    assert_eq!((p1, p2), (b, a));
    assert_eq!(dist, 169);
}

#[test]
fn bit_shift_reports_truncated_points() {
    // With 8-bit fields 300 reads as 44 and 260 as 4.
    let points = vec![Point { x: 300, y: 0 }, Point { x: 260, y: 0 }];
    let (p1, p2, dist) = closest_pair_bit_shift(points, 8).unwrap();
    assert_eq!(p1, Point { x: 4, y: 0 });
    assert_eq!(p2, Point { x: 44, y: 0 });
    assert_eq!(dist, 1600);
}

#[test]
fn bit_shift_window_misses_far_neighbours() {
    // Sorted by x, the two closest points are ten keys apart: a window of
    // eight keys misses them, one of sixteen finds them.
    let mut points = vec![Point { x: 0, y: 0 }];
    for i in 1..10u32 {
        points.push(Point { x: i, y: 100 + 15 * i });
    }
    points.push(Point { x: 10, y: 1 });
    let (_, _, narrow) = closest_pair_bit_shift(points.clone(), 8).unwrap();
    let (_, _, wide) = closest_pair_bit_shift(points.clone(), 16).unwrap();
    let (_, _, exact) = closest_pair_brute_force(&points).unwrap();
    assert_eq!(narrow, 1 + 15 * 15);
    assert_eq!(wide, 101);
    assert_eq!(exact, 101);
}

#[test]
fn bit_shift_duplicates_give_zero_with_narrow_fields() {
    let points = vec![
        Point { x: 1000, y: 3 },
        Point { x: 5, y: 9 },
        Point { x: 1000, y: 3 },
    ];
    let (p1, p2, dist) = closest_pair_bit_shift(points, 4).unwrap();
    assert_eq!(dist, 0);
    assert_eq!(p1, p2);
}

#[test]
fn bit_shift_full_width_can_miss_the_closest_pair() {
    // The two closest points are 33 keys apart, beyond a 32-key window.
    let mut points = vec![Point { x: 0, y: 0 }];
    for i in 1..33u32 {
        points.push(Point { x: i, y: 1000 + 40 * i });
    }
    points.push(Point { x: 33, y: 1 });
    let (_, _, dist) = closest_pair_bit_shift(points.clone(), 32).unwrap();
    let (_, _, exact) = closest_pair_brute_force(&points).unwrap();
    assert_eq!(exact, 33 * 33 + 1);
    assert_eq!(dist, 1 + 40 * 40);
}

#[test]
fn bit_shift_full_width_is_exact_on_small_inputs() {
    let points = vec![
        Point { x: 0, y: 0 },
        Point { x: 1, y: 1000 },
        Point { x: 2, y: 2000 },
        Point { x: 3, y: 1 },
    ];
    let (_, _, dist) = closest_pair_bit_shift(points.clone(), 32).unwrap();
    let (_, _, exact) = closest_pair_brute_force(&points).unwrap();
    assert_eq!(dist, exact);
    assert_eq!(dist, 10);
}

#[test]
fn bit_shift_first_tied_pair_wins() {
    // Sorted keys: (0,0) (0,1) (5,5) (5,6); both unit pairs tie, the first
    // one in window order is reported.
    let points = vec![
        Point { x: 5, y: 6 },
        Point { x: 5, y: 5 },
        Point { x: 0, y: 1 },
        Point { x: 0, y: 0 },
    ];
    let (p1, p2, dist) = closest_pair_bit_shift(points, 8).unwrap();
    assert_eq!((p1, p2), (Point { x: 0, y: 0 }, Point { x: 0, y: 1 }));
    assert_eq!(dist, 1);
}

#[test]
fn bit_shift_ignores_input_order() {
    let points = vec![
        Point { x: 9, y: 2 },
        Point { x: 4, y: 4 },
        Point { x: 1, y: 7 },
        Point { x: 4, y: 5 },
        Point { x: 12, y: 0 },
    ];
    let mut reversed = points.clone();
    reversed.reverse();
    assert_eq!(
        closest_pair_bit_shift(points, 8),
        closest_pair_bit_shift(reversed, 8)
    );
}
