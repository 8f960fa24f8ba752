use auto_palette::distance::SquaredEuclideanDistance;
use auto_palette::kdtree::KDTree;
use auto_palette::linear::LinearSearch;
use auto_palette::neighbor::Neighbor;
use auto_palette::point::{Point2, UNIT};

fn points(coords: &[(i64, i64)]) -> Vec<Point2> {
    coords
        .iter()
        .map(|&(x, y)| Point2::new(x * UNIT, y * UNIT))
        .collect()
}

fn kd_dataset() -> Vec<Point2> {
    points(&[
        (1, 2),
        (3, 1),
        (4, 5),
        (5, 5),
        (2, 4),
        (0, 5),
        (2, 1),
        (5, 2),
    ])
}

fn linear_dataset() -> Vec<Point2> {
    points(&[(1, 2), (3, 1), (4, 5), (5, 5), (2, 4)])
}

fn n(index: usize, distance: i64) -> Neighbor {
    Neighbor::new(index, distance * UNIT)
}

fn by_index(mut neighbors: Vec<Neighbor>) -> Vec<Neighbor> {
    neighbors.sort_by_key(|neighbor| neighbor.index);
    neighbors
}

#[test]
fn test() {
    let dataset = kd_dataset();
    let kdtree = KDTree::new(&dataset, &SquaredEuclideanDistance);
    let query = Point2::new(3 * UNIT, 3 * UNIT);
    assert_eq!(kdtree.search(&query, 0), vec![]);
    assert_eq!(kdtree.search(&query, 1), vec![n(4, 2)]);
    assert_eq!(kdtree.search(&query, 2), vec![n(4, 2), n(1, 4)]);
    assert_eq!(
        kdtree.search(&query, 10),
        vec![
            n(4, 2),
            n(1, 4),
            n(0, 5),
            n(2, 5),
            n(6, 5),
            n(7, 5),
            n(3, 8),
            n(5, 13),
        ]
    );
}

#[test]
fn mod_search_should_return_knearest_neighbors() {
    let dataset = kd_dataset();
    let kdtree = KDTree::new(&dataset, &SquaredEuclideanDistance);
    let query = Point2::new(3 * UNIT, 3 * UNIT);
    assert_eq!(kdtree.search(&query, 0), vec![]);
    assert_eq!(kdtree.search(&query, 1), vec![n(4, 2)]);
    assert_eq!(kdtree.search(&query, 2), vec![n(4, 2), n(1, 4)]);
    assert_eq!(
        kdtree.search(&query, 10),
        vec![
            n(4, 2),
            n(1, 4),
            n(0, 5),
            n(2, 5),
            n(6, 5),
            n(7, 5),
            n(3, 8),
            n(5, 13),
        ]
    );
}

#[test]
fn search_should_return_neighbors_within_radius() {
    let dataset = kd_dataset();
    let kdtree = KDTree::new(&dataset, &SquaredEuclideanDistance);
    let query = Point2::new(3 * UNIT, 3 * UNIT);
    assert_eq!(kdtree.search_radius(&query, -UNIT), vec![]);
    assert_eq!(kdtree.search_radius(&query, UNIT), vec![]);
    assert_eq!(kdtree.search_radius(&query, 2 * UNIT), vec![n(4, 2)]);
    assert_eq!(kdtree.search_radius(&query, 2_500_000), vec![n(4, 2)]);
    assert_eq!(
        by_index(kdtree.search_radius(&query, 5 * UNIT)),
        by_index(vec![n(4, 2), n(1, 4), n(6, 5), n(7, 5), n(2, 5), n(0, 5)])
    );
    assert_eq!(
        by_index(kdtree.search_radius(&query, 15 * UNIT)),
        by_index(vec![
            n(4, 2),
            n(1, 4),
            n(6, 5),
            n(2, 5),
            n(7, 5),
            n(0, 5),
            n(3, 8),
            n(5, 13),
        ])
    );
}

#[test]
fn kdtree_agrees_with_linear_search() {
    let dataset = points(&[
        (7, 1),
        (3, 3),
        (3, 3),
        (9, 9),
        (0, 4),
        (5, 5),
        (6, 2),
        (1, 8),
        (4, 4),
        (2, 6),
        (8, 3),
        (5, 0),
    ]);
    let kdtree = KDTree::new(&dataset, &SquaredEuclideanDistance);
    let linear = LinearSearch::new(&dataset, &SquaredEuclideanDistance);
    for qx in 0..10 {
        for qy in 0..10 {
            let query = Point2::new(qx * UNIT, qy * UNIT);
            for k in 0..14 {
                assert_eq!(kdtree.search(&query, k), linear.search(&query, k));
            }
            for r in 0..12 {
                assert_eq!(
                    by_index(kdtree.search_radius(&query, r * UNIT)),
                    linear.search_radius(&query, r * UNIT)
                );
            }
            assert_eq!(kdtree.search_nearest(&query), linear.search_nearest(&query));
        }
    }
}

#[test]
fn kdtree_on_empty_dataset_finds_nothing() {
    let dataset: Vec<Point2> = Vec::new();
    let kdtree = KDTree::new(&dataset, &SquaredEuclideanDistance);
    let query = Point2::new(0, 0);
    assert_eq!(kdtree.search(&query, 3), vec![]);
    assert_eq!(kdtree.search_radius(&query, 10 * UNIT), vec![]);
    assert_eq!(kdtree.search_nearest(&query), None);
}

#[test]
fn linear_search_should_return_knearest_neighbors() {
    let dataset: Vec<Point2> = vec![];
    let linear_search = LinearSearch::new(&dataset, &SquaredEuclideanDistance);
    let query = Point2::new(3 * UNIT, 3 * UNIT);
    assert_eq!(linear_search.search(&query, 0), vec![]);

    let dataset = linear_dataset();
    let linear_search = LinearSearch::new(&dataset, &SquaredEuclideanDistance);
    assert_eq!(linear_search.search(&query, 0), vec![]);
    assert_eq!(
        linear_search.search(&query, 3),
        vec![n(4, 2), n(1, 4), n(0, 5)]
    );
    assert_eq!(
        linear_search.search(&query, 5),
        vec![n(4, 2), n(1, 4), n(0, 5), n(2, 5), n(3, 8)]
    );
    assert_eq!(
        linear_search.search(&query, 6),
        vec![n(4, 2), n(1, 4), n(0, 5), n(2, 5), n(3, 8)]
    );
}

#[test]
fn search_nearest_should_return_nearest_neighbor() {
    let dataset: Vec<Point2> = vec![];
    let linear_search = LinearSearch::new(&dataset, &SquaredEuclideanDistance);
    assert_eq!(linear_search.search_nearest(&Point2::new(0, UNIT)), None);

    let dataset = linear_dataset();
    let linear_search = LinearSearch::new(&dataset, &SquaredEuclideanDistance);
    assert_eq!(
        linear_search.search_nearest(&Point2::new(2_500_000, 3 * UNIT)),
        Some(Neighbor::new(4, 1_250_000))
    );
}

#[test]
fn search_radius_should_return_neighbors_within_radius() {
    let dataset = linear_dataset();
    let linear_search = LinearSearch::new(&dataset, &SquaredEuclideanDistance);
    let query = Point2::new(2 * UNIT, 3 * UNIT);
    assert_eq!(linear_search.search_radius(&query, -UNIT), vec![]);
    assert_eq!(linear_search.search_radius(&query, 0), vec![]);
    assert_eq!(linear_search.search_radius(&query, UNIT), vec![n(4, 1)]);
    assert_eq!(linear_search.search_radius(&query, 1_500_000), vec![n(4, 1)]);
    assert_eq!(
        linear_search.search_radius(&query, 10 * UNIT),
        vec![n(0, 2), n(1, 5), n(2, 8), n(4, 1)]
    );
    assert_eq!(
        linear_search.search_radius(&query, 15 * UNIT),
        vec![n(0, 2), n(1, 5), n(2, 8), n(3, 13), n(4, 1)]
    );
}

#[test]
fn new_should_create_neighbor() {
    let neighbor = Neighbor::new(3, 2 * UNIT);
    assert_eq!(
        neighbor,
        Neighbor {
            index: 3,
            distance: 2 * UNIT
        }
    );
}

#[test]
fn nns_to_string_should_return_string_representation() {
    let neighbor = Neighbor::new(5, 7_500_000);
    assert_eq!(neighbor.to_string(), "Neighbor(index=5, distance=7.5)");
}

#[test]
fn neighbor_text_of_small_and_negative_distances() {
    assert_eq!(
        Neighbor::new(0, 1_250).to_string(),
        "Neighbor(index=0, distance=0.00125)"
    );
    assert_eq!(
        Neighbor::new(12, -2_000_000).to_string(),
        "Neighbor(index=12, distance=-2)"
    );
}
