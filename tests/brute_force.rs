use closest_pair_rs::algorithms::{closest_pair_brute_force, ClosestPairError};
use closest_pair_rs::utils::Point;

#[test]
fn brute_force_three_points() {
    let points = vec![
        Point { x: 0, y: 0 },
        Point { x: 3, y: 0 },
        Point { x: 0, y: 4 },
    ];
    let (p1, p2, dist) = closest_pair_brute_force(&points).unwrap();
    assert_eq!(p1, Point { x: 0, y: 0 });
    assert_eq!(p2, Point { x: 3, y: 0 });
    assert_eq!(dist, 9);
}

#[test]
fn brute_force_first_tied_pair_wins() {
    let points = vec![
        Point { x: 0, y: 0 },
        Point { x: 10, y: 10 },
        Point { x: 0, y: 1 },
        Point { x: 10, y: 11 },
    ];
    let (p1, p2, dist) = closest_pair_brute_force(&points).unwrap();
    assert_eq!((p1, p2), (points[0], points[2]));
    assert_eq!(dist, 1);
}

#[test]
fn brute_force_two_points_in_order() {
    let points = vec![Point { x: 9, y: 0 }, Point { x: 0, y: 0 }];
    assert_eq!(
        closest_pair_brute_force(&points),
        Ok((points[0], points[1], 81))
    );
}

#[test]
fn brute_force_duplicates_give_zero() {
    let points = vec![
        Point { x: 10, y: 20 },
        Point { x: 30, y: 40 },
        Point { x: 10, y: 20 },
        Point { x: 50, y: 60 },
    ];
    let (_, _, dist) = closest_pair_brute_force(&points).unwrap();
    assert_eq!(dist, 0);
}

#[test]
fn brute_force_collinear_points() {
    let points = vec![
        Point { x: 1, y: 1 },
        Point { x: 3, y: 3 },
        Point { x: 5, y: 5 },
        Point { x: 7, y: 7 },
        Point { x: 9, y: 9 },
    ];
    let (_, _, dist) = closest_pair_brute_force(&points).unwrap();
    assert_eq!(dist, 8);
}

#[test]
fn brute_force_extreme_coordinates() {
    let points = vec![
        Point { x: 0, y: 0 },
        Point { x: u32::MAX, y: u32::MAX },
    ];
    let m = u32::MAX as u128;
    let (_, _, dist) = closest_pair_brute_force(&points).unwrap();
    assert_eq!(dist, 2 * m * m);
}

#[test]
fn brute_force_rejects_empty_input() {
    let points: Vec<Point> = Vec::new();
    assert_eq!(closest_pair_brute_force(&points), Err(ClosestPairError::InvalidInput));
}

#[test]
fn brute_force_rejects_single_point() {
    let points = vec![Point { x: 4, y: 4 }];
    assert_eq!(closest_pair_brute_force(&points), Err(ClosestPairError::InvalidInput));
}
