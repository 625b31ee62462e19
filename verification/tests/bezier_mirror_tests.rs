use bezier_mirror::binomial::binomial_coefficient;
use bezier_mirror::mirror::{BezierMirror, MirrorError, Ray};
use bezier_mirror::vecmath::reflection_transform;

fn mirror(points: Vec<Vec<i64>>) -> BezierMirror {
    BezierMirror { control_points: points }
}

/// Coordinate `j` of the curve point at `t_num / t_den`, as a float, in the
/// fixed-point scale `scale` of the control points.
fn point_coord(m: &BezierMirror, t_num: u32, t_den: u32, j: usize, scale: f64) -> f64 {
    let (nums, den) = m.calculate_point(t_num, t_den);
    nums[j] as f64 / den as f64 / scale
}

#[test]
fn test_binomial_coefficient() {
    assert_eq!(binomial_coefficient(0, 0), 1);
    assert_eq!(binomial_coefficient(1, 0), 1);
    assert_eq!(binomial_coefficient(1, 1), 1);
    assert_eq!(binomial_coefficient(2, 0), 1);
    assert_eq!(binomial_coefficient(2, 1), 2);
    assert_eq!(binomial_coefficient(2, 2), 1);
    assert_eq!(binomial_coefficient(3, 0), 1);
    assert_eq!(binomial_coefficient(3, 1), 3);
    assert_eq!(binomial_coefficient(3, 2), 3);
    assert_eq!(binomial_coefficient(3, 3), 1);
    assert_eq!(binomial_coefficient(4, 0), 1);
    assert_eq!(binomial_coefficient(4, 1), 4);
    assert_eq!(binomial_coefficient(4, 2), 6);
    assert_eq!(binomial_coefficient(4, 3), 4);
    assert_eq!(binomial_coefficient(4, 4), 1);
}

#[test]
fn test_binomial_coefficient_above_diagonal() {
    assert_eq!(binomial_coefficient(3, 5), 0);
    assert_eq!(binomial_coefficient(0, 1), 0);
}

#[test]
fn test_binomial_coefficient_symmetry() {
    for n in 0..10usize {
        for k in 0..=n {
            assert_eq!(binomial_coefficient(n, k), binomial_coefficient(n, n - k));
        }
        assert_eq!(binomial_coefficient(n, 0), 1);
        assert_eq!(binomial_coefficient(n, n), 1);
    }
}

#[test]
fn test_calculate_linear_point_2d() {
    // endpoints (0, 0) and (1, 1), padded to three dimensions
    let m = mirror(vec![vec![0, 0, 0], vec![1, 1, 0]]);
    assert_eq!(point_coord(&m, 0, 1, 0, 1.0), 0.0);
    assert_eq!(point_coord(&m, 0, 1, 1, 1.0), 0.0);
    assert_eq!(point_coord(&m, 1, 2, 0, 1.0), 0.5);
    assert_eq!(point_coord(&m, 1, 2, 1, 1.0), 0.5);
    assert_eq!(point_coord(&m, 1, 1, 0, 1.0), 1.0);
    assert_eq!(point_coord(&m, 1, 1, 1, 1.0), 1.0);
}

#[test]
fn test_calculate_cubic_point_2d() {
    // control points (0, 0), (0.5, 1), (1, 0) at fixed-point scale 2
    let m = mirror(vec![vec![0, 0, 0], vec![1, 2, 0], vec![2, 0, 0]]);
    assert_eq!(point_coord(&m, 0, 1, 0, 2.0), 0.0);
    assert_eq!(point_coord(&m, 0, 1, 1, 2.0), 0.0);
    assert_eq!(point_coord(&m, 1, 2, 0, 2.0), 0.5);
    assert_eq!(point_coord(&m, 1, 2, 1, 2.0), 0.5);
    assert_eq!(point_coord(&m, 1, 1, 0, 2.0), 1.0);
    assert_eq!(point_coord(&m, 1, 1, 1, 2.0), 0.0);
}

#[test]
fn test_calculate_quadratic_point_2d() {
    // control points (0, 0), (0.5, 0), (0.5, 1), (1, 1) at fixed-point scale 2
    let m = mirror(vec![vec![0, 0, 0], vec![1, 0, 0], vec![1, 2, 0], vec![2, 2, 0]]);
    assert_eq!(point_coord(&m, 0, 1, 0, 2.0), 0.0);
    assert_eq!(point_coord(&m, 0, 1, 1, 2.0), 0.0);
    assert_eq!(point_coord(&m, 1, 2, 0, 2.0), 0.5);
    assert_eq!(point_coord(&m, 1, 2, 1, 2.0), 0.5);
    assert_eq!(point_coord(&m, 1, 1, 0, 2.0), 1.0);
    assert_eq!(point_coord(&m, 1, 1, 1, 2.0), 1.0);
}

#[test]
fn test_calculate_tangent() {
    // control points (0, 0), (0.5, 1), (1, 0) at fixed-point scale 2
    let m = mirror(vec![vec![0, 0, 0], vec![1, 2, 0], vec![2, 0, 0]]);
    let (end, _) = m.calculate_tangent(1, 1).unwrap();
    // reflect the tangent at the end across the horizontal axis
    let axis: Vec<i128> = vec![1, 0, 0];
    let dp: i128 = end.iter().zip(axis.iter()).map(|(a, b)| a * b).sum();
    let reflected: Vec<i128> =
        (0..3).map(|j| 2 * dp * axis[j] - end[j]).collect();
    let (start, _) = m.calculate_tangent(0, 1).unwrap();
    assert_eq!(start, reflected);
}

#[test]
fn test_degenerate_tangent() {
    // both control points coincide: the derivative vanishes everywhere
    let m = mirror(vec![vec![5, 5, 5], vec![5, 5, 5]]);
    assert_eq!(m.calculate_tangent(0, 1), Err(MirrorError::DegenerateTangent));
    assert_eq!(m.calculate_tangent(1, 2), Err(MirrorError::DegenerateTangent));
}

#[test]
fn test_from_serialized_rejects_too_few_points() {
    let r = BezierMirror::from_serialized(vec![vec![1, 2, 3]], 3);
    assert_eq!(r.err(), Some(MirrorError::MalformedInput));
}

#[test]
fn test_from_serialized_rejects_wrong_dimension() {
    let r = BezierMirror::from_serialized(vec![vec![1, 2, 3], vec![4, 5]], 3);
    assert_eq!(r.err(), Some(MirrorError::MalformedInput));
}

#[test]
fn test_from_serialized_rejects_out_of_range_coordinate() {
    let r = BezierMirror::from_serialized(vec![vec![1, 2], vec![1 << 40, 5]], 2);
    assert_eq!(r.err(), Some(MirrorError::MalformedInput));
}

#[test]
fn test_serialization_round_trip() {
    let data = vec![vec![1, 2, 3], vec![4, 5, 6], vec![7, 8, 9]];
    let m = BezierMirror::from_serialized(data.clone(), 3).unwrap();
    let stored = m.serialized();
    assert_eq!(stored, data);
    let m2 = BezierMirror::from_serialized(stored, 3).unwrap();
    for (t_num, t_den) in [(0, 1), (1, 4), (1, 2), (3, 4), (1, 1)] {
        assert_eq!(m.calculate_point(t_num, t_den), m2.calculate_point(t_num, t_den));
        assert_eq!(m.calculate_tangent(t_num, t_den), m2.calculate_tangent(t_num, t_den));
    }
}

#[test]
fn test_get_type() {
    let m = mirror(vec![vec![0, 0], vec![1, 1]]);
    assert_eq!(m.get_type(), "bezier");
}

#[test]
fn test_intersection_on_curve() {
    // parabola through (0, 0), (0.5, 1), (1, 0) at fixed-point scale 100;
    // the ray starts exactly on the curve at t = 0.3 and points straight up,
    // away from it
    let m = mirror(vec![vec![0, 0, 0], vec![50, 100, 0], vec![100, 0, 0]]);
    let ray = Ray { origin: vec![30, 42, 0], direction: vec![0, 1, 0] };
    let hits = m.intersect(&ray, 10);
    assert_eq!(hits, vec![(3, 0)]);
}

#[test]
fn test_reflect_on_curve() {
    let m = mirror(vec![vec![0, 0, 0], vec![50, 100, 0], vec![100, 0, 0]]);
    let ray = Ray { origin: vec![30, 42, 0], direction: vec![0, 1, 0] };
    let rs = m.reflect(&ray, 10);
    assert_eq!(rs.len(), 1);
    assert_eq!(rs[0].t_num, 3);
    assert_eq!(rs[0].distance_num, 0);
    // the tangent numerators at t = 0.3 are (1000, 800, 0)
    assert_eq!(rs[0].transform_den, 1_640_000);
    assert_eq!(rs[0].transform_num[0][0], 2 * 1000 * 1000 - 1_640_000);
    assert_eq!(rs[0].transform_num[0][1], 2 * 1000 * 800);
    assert_eq!(rs[0].transform_num[2][2], -1_640_000);
}

#[test]
fn test_reflect_miss_is_empty() {
    // a ray far to the side of the curve meets it nowhere
    let m = mirror(vec![vec![0, 0, 0], vec![50, 100, 0], vec![100, 0, 0]]);
    let ray = Ray { origin: vec![10_000, 0, 0], direction: vec![0, 1, 0] };
    assert_eq!(m.reflect(&ray, 10).len(), 0);
}

#[test]
fn test_tangent_normalizes_to_unit_length() {
    // away from a degenerate spot the derivative normalizes cleanly
    let m = mirror(vec![vec![0, 0, 0], vec![1, 2, 0], vec![2, 0, 0]]);
    for (t_num, t_den) in [(0, 1), (1, 4), (1, 2), (3, 4), (1, 1)] {
        let (nums, _) = m.calculate_tangent(t_num, t_den).unwrap();
        let norm = nums.iter().map(|&x| (x as f64) * (x as f64)).sum::<f64>().sqrt();
        assert!(norm > 0.0);
        let unit: Vec<f64> = nums.iter().map(|&x| x as f64 / norm).collect();
        let len = unit.iter().map(|x| x * x).sum::<f64>().sqrt();
        assert!((len - 1.0).abs() < 1e-9);
    }
}

#[test]
fn test_multiple_intersections_sorted() {
    // a ray running along a straight curve meets it at every grid sample,
    // nearest first
    let m = mirror(vec![vec![0, 0, 0], vec![10, 0, 0]]);
    let ray = Ray { origin: vec![0, 0, 0], direction: vec![1, 0, 0] };
    let hits = m.intersect(&ray, 5);
    assert_eq!(hits, vec![(0, 0), (1, 10), (2, 20), (3, 30), (4, 40), (5, 50)]);
}

#[test]
fn test_intersections_behind_origin_are_dropped() {
    // the same line, but the whole curve lies behind the ray origin
    let m = mirror(vec![vec![0, 0, 0], vec![10, 0, 0]]);
    let ray = Ray { origin: vec![20, 0, 0], direction: vec![1, 0, 0] };
    assert_eq!(m.intersect(&ray, 5), vec![]);
}

fn apply(mat: &Vec<Vec<i128>>, v: &Vec<i128>) -> Vec<i128> {
    (0..mat.len())
        .map(|i| (0..v.len()).map(|j| mat[i][j] * v[j]).sum())
        .collect()
}

#[test]
fn test_reflection_involution() {
    // reflecting twice across the axis scales by the squared denominator
    let w: Vec<i64> = vec![3, 4];
    let (mat, den) = reflection_transform(&w);
    assert_eq!(den, 25);
    let v: Vec<i128> = vec![1, 2];
    let twice = apply(&mat, &apply(&mat, &v));
    assert_eq!(twice, vec![den * den * 1, den * den * 2]);
}

#[test]
fn test_reflection_preserves_norm() {
    let w: Vec<i64> = vec![3, 4];
    let (mat, den) = reflection_transform(&w);
    let v: Vec<i128> = vec![1, 2];
    let rv = apply(&mat, &v);
    let norm2_before: i128 = v.iter().map(|x| x * x).sum();
    let norm2_after: i128 = rv.iter().map(|x| x * x).sum();
    assert_eq!(norm2_after, den * den * norm2_before);
}
