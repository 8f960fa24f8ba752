use auto_palette::dbscan::{Label, Params, DBSCAN};
use auto_palette::distance::{EuclideanDistance, SquaredEuclideanDistance};
use auto_palette::point::{Point2, UNIT};

fn fixture() -> Vec<Point2> {
    [
        (0, 0),
        (0, 1),
        (0, 7),
        (0, 8),
        (1, 0),
        (1, 1),
        (1, 2),
        (1, 7),
        (1, 8),
        (2, 1),
        (2, 2),
        (4, 3),
        (4, 4),
        (4, 5),
        (5, 3),
        (5, 4),
    ]
    .iter()
    .map(|&(x, y)| Point2::new(x * UNIT, y * UNIT))
    .collect()
}

fn sqrt2() -> i64 {
    (2.0_f64.sqrt() * UNIT as f64).round() as i64
}

#[test]
fn fit_should_fit_dataset() {
    let dataset = fixture();
    let params = Params::new(4, sqrt2(), EuclideanDistance);
    let dbscan = DBSCAN::fit(&dataset, &params);

    let mut centroids = dbscan.centroids();
    centroids.sort_by(|point1, point2| point1.0.cmp(&point2.0));
    assert_eq!(
        centroids,
        Vec::from([
            Point2(500_000, 7_500_000),
            Point2(1_000_000, 1_000_000),
            Point2(4_400_000, 3_800_000)
        ])
    );
    assert_eq!(dbscan.outliers(), Vec::new());
}

#[test]
fn fit_assigns_clusters_in_discovery_order() {
    let dataset = fixture();
    let params = Params::new(4, sqrt2(), EuclideanDistance);
    let dbscan = DBSCAN::fit(&dataset, &params);
    assert_eq!(dbscan.cluster_count(), 3);
    assert_eq!(dbscan.centroids()[0], Point2(1_000_000, 1_000_000));
    assert_eq!(dbscan.count_at(0), 7);
    assert_eq!(dbscan.count_at(1), 4);
    assert_eq!(dbscan.count_at(2), 5);
    assert_eq!(dbscan.count_at(3), 0);
}

#[test]
fn fit_marks_sparse_points_as_outliers() {
    let dataset = fixture();
    let params = Params::new(4, UNIT, EuclideanDistance);
    let dbscan = DBSCAN::fit(&dataset, &params);
    let mut total = dbscan.outliers().len();
    for c in 0..dbscan.cluster_count() {
        total += dbscan.count_at(c);
    }
    assert_eq!(total, dataset.len());
    assert!(dbscan.outliers().contains(&2));

    let params = Params::new(17, sqrt2(), EuclideanDistance);
    let dbscan = DBSCAN::fit(&dataset, &params);
    assert_eq!(dbscan.cluster_count(), 0);
    assert_eq!(dbscan.outliers(), (0..16).collect::<Vec<usize>>());
}

#[test]
fn fit_on_empty_dataset_finds_nothing() {
    let dataset: Vec<Point2> = Vec::new();
    let params = Params::new(4, sqrt2(), EuclideanDistance);
    let dbscan = DBSCAN::fit(&dataset, &params);
    assert_eq!(dbscan.cluster_count(), 0);
    assert!(dbscan.centroids().is_empty());
    assert!(dbscan.outliers().is_empty());
}

#[test]
fn is_assigned_should_return_true_if_label_is_assigned() {
    assert_eq!(Label::Assigned(0).is_assigned(), true);
    assert_eq!(Label::Outlier.is_assigned(), false);
    assert_eq!(Label::Marked.is_assigned(), false);
    assert_eq!(Label::Undefined.is_assigned(), false);
}

#[test]
fn is_outlier_should_return_true_if_label_is_outlier() {
    assert_eq!(Label::Assigned(0).is_outlier(), false);
    assert_eq!(Label::Outlier.is_outlier(), true);
    assert_eq!(Label::Marked.is_outlier(), false);
    assert_eq!(Label::Undefined.is_outlier(), false);
}

#[test]
fn is_undefined_should_return_true_if_label_is_undefined() {
    assert_eq!(Label::Assigned(0).is_undefined(), false);
    assert_eq!(Label::Outlier.is_undefined(), false);
    assert_eq!(Label::Marked.is_undefined(), false);
    assert_eq!(Label::Undefined.is_undefined(), true);
}

#[test]
fn params_new_should_create_params() {
    let params = Params::new(16, 5 * UNIT, SquaredEuclideanDistance);
    assert_eq!(
        params,
        Params {
            min_points: 16,
            epsilon: 5 * UNIT,
            distance: SquaredEuclideanDistance,
        }
    );
    assert_eq!(params.min_points(), 16);
    assert_eq!(params.epsilon(), 5 * UNIT);
    assert_eq!(params.distance(), &SquaredEuclideanDistance);
}
