use closest_pair_rs::algorithms::{
    closest_pair_brute_force, closest_pair_optimized, ClosestPairError,
};
use closest_pair_rs::utils::Point;
use rand::Rng;

fn euclidean(squared: u128) -> f32 {
    (squared as f64).sqrt() as f32
}

#[test]
fn test_small_set() {
    let points = vec![
        Point { x: 0, y: 0 },
        Point { x: 3, y: 0 },
        Point { x: 0, y: 4 },
        Point { x: 10, y: 10 },
    ];

    let (p1, p2, dist) = closest_pair_optimized(points).unwrap();
    assert_eq!(euclidean(dist), 3.0);
    assert!(
        (p1.x == 0 && p1.y == 0 && p2.x == 3 && p2.y == 0)
            || (p2.x == 0 && p2.y == 0 && p1.x == 3 && p1.y == 0)
    );
}

#[test]
fn test_single_pair() {
    let points = vec![Point { x: 5, y: 10 }, Point { x: 8, y: 14 }];

    let (_, _, dist) = closest_pair_optimized(points).unwrap();
    assert!((euclidean(dist) - 5.0).abs() < 0.001);
}

#[test]
fn test_collinear_points() {
    let points = vec![
        Point { x: 1, y: 1 },
        Point { x: 3, y: 3 },
        Point { x: 5, y: 5 },
        Point { x: 7, y: 7 },
        Point { x: 9, y: 9 },
    ];

    let (_, _, dist) = closest_pair_optimized(points).unwrap();
    assert!((euclidean(dist) - 2.0 * f32::sqrt(2.0)).abs() < 0.001);
}

#[test]
fn test_grid_points() {
    let mut points = Vec::new();
    for x in 0..5 {
        for y in 0..5 {
            points.push(Point { x, y });
        }
    }

    let (_, _, dist) = closest_pair_optimized(points).unwrap();
    assert_eq!(euclidean(dist), 1.0);
}

#[test]
fn test_duplicate_points() {
    let points = vec![
        Point { x: 10, y: 20 },
        Point { x: 30, y: 40 },
        Point { x: 10, y: 20 },
        Point { x: 50, y: 60 },
    ];

    let (_, _, dist) = closest_pair_optimized(points).unwrap();
    assert_eq!(euclidean(dist), 0.0);
}

#[test]
fn test_large_range() {
    let points = vec![
        Point { x: 0, y: 0 },
        Point { x: 10000, y: 10000 },
        Point { x: 20000, y: 20000 },
        Point { x: 20005, y: 20005 },
    ];

    let (_, _, dist) = closest_pair_optimized(points).unwrap();
    assert!((euclidean(dist) - 5.0 * f32::sqrt(2.0)).abs() < 0.001);
}

#[test]
fn test_random_points() {
    let mut rng = rand::thread_rng();
    let bits = 31;

    // Generate 50000 random points
    let mut points = Vec::new();
    for _ in 0..50000 {
        points.push(Point {
            x: rng.gen_range(0..(u32::pow(2, bits))),
            y: rng.gen_range(0..(u32::pow(2, bits))),
        });
    }

    let (_, _, dist) = closest_pair_optimized(points.clone()).unwrap();
    let (_, _, bf_dist) = closest_pair_brute_force(&points).unwrap();
    assert!(dist == bf_dist);
}

#[test]
fn optimized_rejects_empty_input() {
    let points: Vec<Point> = Vec::new();
    assert_eq!(closest_pair_optimized(points), Err(ClosestPairError::InvalidInput));
}

#[test]
fn optimized_rejects_single_point() {
    let points = vec![Point { x: 1, y: 2 }];
    assert_eq!(closest_pair_optimized(points), Err(ClosestPairError::InvalidInput));
}

#[test]
fn optimized_two_points_are_reported() {
    let a = Point { x: 7, y: 1 };
    let b = Point { x: 2, y: 13 };
    let (p1, p2, dist) = closest_pair_optimized(vec![a, b]).unwrap();
    assert!((p1 == a && p2 == b) || (p1 == b && p2 == a));
    assert_eq!(dist, 169);
}

#[test]
fn optimized_matches_brute_force_on_a_vertical_line() {
    let ys = [0u32, 100, 1, 200, 1000, 2000, 3000, 4000, 57, 58, 900, 13];
    let points: Vec<Point> = ys.iter().map(|&y| Point { x: 0, y }).collect();
    let (_, _, dist) = closest_pair_optimized(points.clone()).unwrap();
    let (_, _, bf_dist) = closest_pair_brute_force(&points).unwrap();
    assert_eq!(dist, 1);
    assert_eq!(dist, bf_dist);
}

#[test]
fn optimized_finds_a_pair_across_the_split() {
    let points = vec![
        Point { x: 0, y: 0 },
        Point { x: 10, y: 50 },
        Point { x: 49, y: 25 },
        Point { x: 51, y: 26 },
        Point { x: 90, y: 0 },
        Point { x: 100, y: 60 },
    ];
    let (p1, p2, dist) = closest_pair_optimized(points).unwrap();
    assert_eq!(dist, 5);
    assert!(p1.x + p2.x == 100);
}

#[test]
fn optimized_matches_brute_force_on_a_crowded_grid() {
    let mut points = Vec::new();
    for i in 0..300u32 {
        points.push(Point { x: (i * 37) % 23, y: (i * 91) % 29 * 3 });
    }
    let (_, _, dist) = closest_pair_optimized(points.clone()).unwrap();
    let (_, _, bf_dist) = closest_pair_brute_force(&points).unwrap();
    assert_eq!(dist, bf_dist);
}
