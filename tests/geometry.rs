use auto_palette::distance::{isqrt, DistanceMetric, EuclideanDistance, SquaredEuclideanDistance};
use auto_palette::point::{Point, Point2, Point3, Point5, UNIT};

fn point2d(x: f64, y: f64) -> Point2 {
    Point2::new((x * UNIT as f64) as i64, (y * UNIT as f64) as i64)
}

fn point3d(x: f64, y: f64, z: f64) -> Point3 {
    Point3::new(
        (x * UNIT as f64) as i64,
        (y * UNIT as f64) as i64,
        (z * UNIT as f64) as i64,
    )
}

fn fixed(v: f64) -> i64 {
    (v * UNIT as f64).floor() as i64
}

#[test]
fn euclidean_compute_should_compute_euclidean_distance() {
    let euclidean = EuclideanDistance;
    assert_eq!(
        euclidean.measure(&point2d(0.0, 1.0), &point2d(1.0, 0.0)),
        fixed(2.0_f64.sqrt())
    );
    assert_eq!(
        euclidean.measure(&point3d(0.0, 1.0, 2.0), &point3d(1.0, 2.0, 3.0)),
        fixed(3.0_f64.sqrt())
    );
}

#[test]
fn euclidean_compute_should_compute_squared_euclidean_distance() {
    let distance = SquaredEuclideanDistance;
    assert_eq!(distance.measure(&point2d(0.0, 1.0), &point2d(1.0, 0.0)), fixed(2.0));
    assert_eq!(
        distance.measure(&point3d(0.0, 1.0, 2.0), &point3d(1.0, 2.0, 3.0)),
        fixed(3.0)
    );
}

#[test]
fn metric_compute_should_compute_euclidean_distance() {
    let metric = DistanceMetric::Euclidean;
    assert_eq!(
        metric.measure(&point2d(0.0, 1.0), &point2d(1.0, 0.0)),
        fixed(2.0_f64.sqrt())
    );
    assert_eq!(
        metric.measure(&point3d(0.0, 1.0, 2.0), &point3d(1.0, 2.0, 3.0)),
        fixed(3.0_f64.sqrt())
    );
}

#[test]
fn metric_compute_should_compute_squared_euclidean_distance() {
    let metric = DistanceMetric::SquaredEuclidean;
    assert_eq!(metric.measure(&point2d(0.0, 1.0), &point2d(1.0, 0.0)), fixed(2.0));
    assert_eq!(
        metric.measure(&point3d(0.0, 1.0, 2.0), &point3d(1.0, 2.0, 3.0)),
        fixed(3.0)
    );
}

#[test]
fn radius_is_read_by_the_metric() {
    assert!(DistanceMetric::Euclidean.within(4 * (UNIT as u128) * (UNIT as u128), 2 * UNIT));
    assert!(!DistanceMetric::Euclidean.within(4 * (UNIT as u128) * (UNIT as u128) + 1, 2 * UNIT));
    assert!(DistanceMetric::SquaredEuclidean.within(4 * (UNIT as u128) * (UNIT as u128), 4 * UNIT));
    assert!(!DistanceMetric::SquaredEuclidean.within(0, -1));
}

#[test]
fn isqrt_rounds_down() {
    assert_eq!(isqrt(0), 0);
    assert_eq!(isqrt(15), 3);
    assert_eq!(isqrt(16), 4);
    assert_eq!(isqrt(u128::MAX), u64::MAX as u128);
}

#[test]
fn index_should_return_value_corresponding_to_index() {
    let point2 = point2d(1.0, 2.0);
    assert_eq!(point2.index(0), fixed(1.0));
    assert_eq!(point2.index(1), fixed(2.0));

    let point3 = point3d(1.0, 2.0, 3.0);
    assert_eq!(point3.index(0), fixed(1.0));
    assert_eq!(point3.index(1), fixed(2.0));
    assert_eq!(point3.index(2), fixed(3.0));

    let point5 = Point5::new(UNIT, 2 * UNIT, 3 * UNIT, 4 * UNIT, 5 * UNIT);
    assert_eq!(point5.index(0), fixed(1.0));
    assert_eq!(point5.index(1), fixed(2.0));
    assert_eq!(point5.index(2), fixed(3.0));
    assert_eq!(point5.index(3), fixed(4.0));
    assert_eq!(point5.index(4), fixed(5.0));
}

#[test]
fn dim_should_return_dimension() {
    assert_eq!(point2d(1.0, 2.0).dim(), 2);
    assert_eq!(point3d(1.0, 2.0, 3.0).dim(), 3);
}

#[test]
fn to_vec_should_return_vec_representation() {
    assert_eq!(point2d(1.0, 2.0).to_vec(), vec![fixed(1.0), fixed(2.0)]);
    assert_eq!(
        point3d(1.0, 2.0, 3.0).to_vec(),
        vec![fixed(1.0), fixed(2.0), fixed(3.0)]
    );
}

#[test]
fn point_to_string_should_return_string_representation() {
    assert_eq!(point2d(1.0, 2.0).to_string(), "Point2(1.0, 2.0)");
    assert_eq!(point3d(1.0, 2.0, 3.0).to_string(), "Point3(1.0, 2.0, 3.0)");
}

#[test]
fn add_should_add_other_point() {
    let point1 = point2d(1.0, 2.0);
    let point2 = point2d(2.0, 3.0);
    assert_eq!(point1.add(point2), point2d(3.0, 5.0));

    let point1 = &point3d(1.0, 2.0, 3.0);
    let point2 = &point3d(2.0, 3.0, 5.0);
    assert_eq!(point1.add(*point2), point3d(3.0, 5.0, 8.0));
}

#[test]
fn add_assign_should_add_assign_other() {
    let mut point1 = point2d(1.0, 2.0);
    let point2 = point2d(2.0, 3.0);
    point1.add_assign(point2);
    assert_eq!(point1, point2d(3.0, 5.0));
}

#[test]
fn sub_should_sub_other_point() {
    let point1 = point2d(1.0, 3.0);
    let point2 = point2d(2.0, 2.0);
    assert_eq!(point1.sub(point2), point2d(-1.0, 1.0));

    let point1 = &point3d(3.0, 5.0, 7.0);
    let point2 = &point3d(1.0, 2.0, 3.0);
    assert_eq!(point1.sub(*point2), point3d(2.0, 3.0, 4.0));
}

#[test]
fn mul_should_mul_by_scalar() {
    let point = point2d(1.0, 3.0);
    assert_eq!(point.mul(fixed(2.0)), point2d(2.0, 6.0));

    let point = &point3d(3.0, 5.0, 7.0);
    assert_eq!(point.mul(fixed(0.5)), point3d(1.5, 2.5, 3.5));
}

#[test]
fn div_should_div_by_scalar() {
    let point = point2d(1.0, 3.0);
    assert_eq!(point.div(fixed(2.0)), point2d(0.5, 1.5));

    let point = &point3d(3.0, 5.0, 7.0);
    assert_eq!(point.div(fixed(0.5)), point3d(6.0, 10.0, 14.0));
}

#[test]
fn division_rounds_down_for_either_sign() {
    let point = Point2::new(1, -1);
    assert_eq!(point.div(3 * UNIT), Point2::new(0, -1));
    assert_eq!(point.div(-3 * UNIT), Point2::new(-1, 0));
}

#[test]
fn in_place_variants_match() {
    let mut point = point3d(3.0, 5.0, 7.0);
    point.sub_assign(point3d(1.0, 1.0, 1.0));
    assert_eq!(point, point3d(2.0, 4.0, 6.0));
    point.mul_assign(fixed(0.5));
    assert_eq!(point, point3d(1.0, 2.0, 3.0));
    point.div_assign(fixed(0.25));
    assert_eq!(point, point3d(4.0, 8.0, 12.0));
    assert!(Point2::zero().is_zero());
    assert!(!point2d(0.0, 1.0).is_zero());
}
