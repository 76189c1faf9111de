use modgeosys_graph::distance::{euclidean_distance, manhattan_distance, squared_euclidean_distance, DistanceFunction};
use modgeosys_graph::types::Node;

fn node(coordinates: Vec<i64>) -> Node {
    Node::new(coordinates, Vec::new())
}

#[test]
fn distance_test_manhattan_distance_between_identical_points_is_zero() {
    let a = node(vec![1, 2]);
    let b = node(vec![1, 2]);
    assert_eq!(manhattan_distance(&a, &b), 0);
}

#[test]
fn distance_test_manhattan_distance_between_points_on_same_axis_is_absolute_difference() {
    let a = node(vec![1, 2]);
    let b = node(vec![1, 5]);
    assert_eq!(manhattan_distance(&a, &b), 3);
}

#[test]
fn distance_test_manhattan_distance_between_points_on_different_axes_is_sum_of_absolute_differences() {
    let a = node(vec![0, 0]);
    let b = node(vec![1, 1]);
    assert_eq!(manhattan_distance(&a, &b), 2);
}

#[test]
fn distance_test_euclidean_distance_between_identical_points_is_zero() {
    let a = node(vec![1, 2]);
    let b = node(vec![1, 2]);
    assert_eq!(euclidean_distance(&a, &b), 0);
}

#[test]
fn distance_test_euclidean_distance_between_points_on_same_axis_is_absolute_difference() {
    let a = node(vec![1, 2]);
    let b = node(vec![1, 5]);
    assert_eq!(euclidean_distance(&a, &b), 3);
}

#[test]
fn distance_test_euclidean_distance_follows_pythagorean_theorem() {
    let a = node(vec![0, 0]);
    let b = node(vec![3, 4]);
    assert_eq!(euclidean_distance(&a, &b), 5);
}

#[test]
fn test_squared_euclidean_distance_between_identical_points_is_zero() {
    let a = node(vec![1, 2]);
    let b = node(vec![1, 2]);
    assert_eq!(squared_euclidean_distance(&a, &b), 0);
}

#[test]
fn test_squared_euclidean_distance_between_points_on_same_axis_is_squared_absolute_difference() {
    let a = node(vec![1, 2]);
    let b = node(vec![1, 5]);
    assert_eq!(squared_euclidean_distance(&a, &b), 9);
}

#[test]
fn test_squared_euclidean_distance_on_different_axes_follows_pythagorean_theorem() {
    let a = node(vec![0, 0]);
    let b = node(vec![3, 4]);
    assert_eq!(squared_euclidean_distance(&a, &b), 25);
}

#[test]
fn distances_are_zero_to_self_and_symmetric() {
    let a = node(vec![-7, 3, 12]);
    let b = node(vec![4, -9, 0]);
    for f in [DistanceFunction::Manhattan, DistanceFunction::Euclidean, DistanceFunction::SquaredEuclidean] {
        assert_eq!(f.distance(&a, &a), 0);
        assert_eq!(f.distance(&b, &b), 0);
        assert_eq!(f.distance(&a, &b), f.distance(&b, &a));
    }
    assert_eq!(manhattan_distance(&a, &b), 11 + 12 + 12);
    assert_eq!(squared_euclidean_distance(&a, &b), 121 + 144 + 144);
}

#[test]
fn euclidean_squared_is_squared_euclidean_on_perfect_squares() {
    let a = node(vec![1, 1]);
    let b = node(vec![7, 9]);
    let e = euclidean_distance(&a, &b);
    assert_eq!(e, 10);
    assert_eq!(e * e, squared_euclidean_distance(&a, &b));
}

#[test]
fn euclidean_distance_rounds_down_between_lattice_points() {
    let a = node(vec![0, 0]);
    let b = node(vec![1, 1]);
    assert_eq!(squared_euclidean_distance(&a, &b), 2);
    assert_eq!(euclidean_distance(&a, &b), 1);
    let c = node(vec![0, 0]);
    let d = node(vec![2, 3]);
    assert_eq!(euclidean_distance(&c, &d), 3);
}

#[test]
fn distances_at_the_ends_of_the_coordinate_range() {
    let a = node(vec![i64::MIN]);
    let b = node(vec![i64::MAX]);
    assert_eq!(manhattan_distance(&a, &b), u64::MAX);
    assert_eq!(euclidean_distance(&a, &b), u64::MAX);
    assert_eq!(DistanceFunction::SquaredEuclidean.checked(&a.coordinates, &b.coordinates), None);
    assert_eq!(DistanceFunction::Manhattan.checked(&vec![i64::MIN, 0], &vec![i64::MAX, 1]), None);
}

#[test]
fn distances_pair_coordinates_up_to_the_shorter_vector() {
    let a = node(vec![1, 2, 3]);
    let b = node(vec![4, 6]);
    assert_eq!(manhattan_distance(&a, &b), 7);
    assert_eq!(squared_euclidean_distance(&a, &b), 25);
}
