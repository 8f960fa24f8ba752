//! Neighbour search by scanning the whole dataset.
use vstd::prelude::*;
use crate::distance::{DistanceMeasure, DistanceMetric, raw_distance, lemma_sq_dist_bounded};
use crate::kdtree::{KDTree, offer, top_so_far, in_best};
use crate::neighbor::{
    Neighbor,
    raw_to,
    key_lt,
    neighbor_ok,
    listed,
    is_top_k,
    is_radius_result,
    lemma_top_k_unique,
};
use crate::point::{Point, point_ok, dataset_ok};

verus! {

/// A nearest neighbor search using linear search.
pub struct LinearSearch<'a, P: Point> {
    dataset: &'a Vec<P>,
    metric: DistanceMetric,
}

impl<'a, P: Point> LinearSearch<'a, P> {
    /// The dataset that is searched.
    pub closed spec fn data(&self) -> Seq<P> {
        self.dataset@
    }

    /// The metric the search measures with.
    pub closed spec fn spec_metric(&self) -> DistanceMetric {
        self.metric
    }

    /// Create a new linear search over the dataset.
    pub fn new<D: DistanceMeasure>(dataset: &'a Vec<P>, distance: &D) -> (r: Self)
        ensures
            r.data() == dataset@,
            r.spec_metric() == distance.spec_metric(),
    {
        LinearSearch { dataset, metric: distance.metric() }
    }

    /// Search k-nearest neighbor points, nearest first; points at equal
    /// distance come by increasing index.
    pub fn search(&self, query: &P, k: usize) -> (r: Vec<Neighbor>)
        requires
            dataset_ok(self.data()),
            point_ok(query),
        ensures
            is_top_k(self.data(), query, self.spec_metric(), k as int, r@),
    {
        if k == 0 {
            return Vec::new();
        }
        let n = self.dataset.len();
        let mut best: Vec<(usize, u128)> = Vec::new();
        let mut i: usize = 0;
        while i < n
            invariant
                n == self.dataset@.len(),
                i <= n,
                k >= 1,
                dataset_ok(self.dataset@),
                point_ok(query),
                top_so_far(self.dataset@, query, k as int, best@, Set::new(|x: int| 0 <= x < i)),
            decreases n - i,
        {
            proof {
                assert(point_ok(&self.dataset@[i as int]));
            }
            let raw = raw_distance(&self.dataset[i], query);
            offer(self.dataset, query, k, &mut best, i, raw, Ghost(Set::new(|x: int| 0 <= x < i)));
            proof {
                assert(Set::new(|x: int| 0 <= x < i).insert(i as int) =~= Set::new(
                    |x: int| 0 <= x < i + 1,
                ));
            }
            i = i + 1;
        }
        let ghost cov = Set::new(|x: int| 0 <= x < n);
        let mut neighbors: Vec<Neighbor> = Vec::new();
        let mut j: usize = 0;
        while j < best.len()
            invariant
                j <= best@.len(),
                neighbors@.len() == j,
                dataset_ok(self.dataset@),
                point_ok(query),
                top_so_far(self.dataset@, query, k as int, best@, cov),
                forall|t: int|
                    #![trigger neighbors@[t]]
                    0 <= t < j ==> neighbors@[t].index == best@[t].0 && neighbors@[t].distance
                        == self.metric.spec_reported(best@[t].1 as int),
            decreases best@.len() - j,
        {
            let (index, raw) = best[j];
            proof {
                let pt = self.dataset@[index as int];
                assert(point_ok(&pt));
                lemma_sq_dist_bounded(&pt, query);
            }
            let d = self.metric.report(raw);
            neighbors.push(Neighbor::new(index, d));
            j = j + 1;
        }
        proof {
            let ns = neighbors@;
            let b = best@;
            let data = self.dataset@;
            assert forall|i: int| #![trigger listed(ns, i)] listed(ns, i) <==> in_best(b, i) by {
                if listed(ns, i) {
                    let t = choose|t: int| 0 <= t < ns.len() && ns[t].index == i;
                    assert(b[t].0 == i);
                }
                if in_best(b, i) {
                    let t = choose|t: int| 0 <= t < b.len() && b[t].0 == i;
                    assert(ns[t].index == i);
                }
            }
            assert forall|t: int| 0 <= t < ns.len() implies neighbor_ok(
                data,
                query,
                self.metric,
                #[trigger] ns[t],
            ) by {
                assert(b[t].1 == raw_to(data, query, b[t].0 as int));
            }
            assert forall|x: int, y: int|
                #![trigger ns[x], ns[y]]
                0 <= x < y < ns.len() implies key_lt(
                raw_to(data, query, ns[x].index as int),
                ns[x].index as int,
                raw_to(data, query, ns[y].index as int),
                ns[y].index as int,
            ) by {
                assert(b[x].1 == raw_to(data, query, b[x].0 as int));
                assert(b[y].1 == raw_to(data, query, b[y].0 as int));
                assert(key_lt(b[x].1 as int, b[x].0 as int, b[y].1 as int, b[y].0 as int));
            }
            assert forall|i: int| 0 <= i < data.len() && !#[trigger] listed(ns, i) implies ns.len() == k
                && (k > 0 ==> key_lt(
                raw_to(data, query, ns[k - 1].index as int),
                ns[k - 1].index as int,
                raw_to(data, query, i),
                i,
            )) by {
                assert(cov.contains(i));
                assert(!in_best(b, i));
                assert(b[k - 1].1 == raw_to(data, query, b[k - 1].0 as int));
            }
        }
        neighbors
    }

    /// Search nearest neighbor point.
    pub fn search_nearest(&self, query: &P) -> (r: Option<Neighbor>)
        requires
            dataset_ok(self.data()),
            point_ok(query),
        ensures
            self.data().len() == 0 ==> r.is_none(),
            self.data().len() > 0 ==> r.is_some() && is_top_k(
                self.data(),
                query,
                self.spec_metric(),
                1,
                seq![r.unwrap()],
            ),
    {
        let mut found = self.search(query, 1);
        let ghost ns = found@;
        proof {
            if self.dataset@.len() > 0 && ns.len() == 0 {
                assert(!listed(ns, 0));
            }
        }
        let r = found.pop();
        proof {
            if ns.len() == 1 {
                assert(ns =~= seq![r.unwrap()]);
            }
        }
        r
    }

    /// Search neighbor points within the given radius, by increasing index.
    pub fn search_radius(&self, query: &P, radius: i64) -> (r: Vec<Neighbor>)
        requires
            dataset_ok(self.data()),
            point_ok(query),
        ensures
            is_radius_result(self.data(), query, self.spec_metric(), radius as int, r@),
            forall|a: int, b: int| 0 <= a < b < r@.len() ==> r@[a].index < r@[b].index,
    {
        let mut neighbors: Vec<Neighbor> = Vec::new();
        if radius < 0 {
            return neighbors;
        }
        let n = self.dataset.len();
        let mut i: usize = 0;
        while i < n
            invariant
                n == self.dataset@.len(),
                i <= n,
                dataset_ok(self.dataset@),
                point_ok(query),
                forall|j: int|
                    #![trigger neighbors@[j]]
                    0 <= j < neighbors@.len() ==> neighbor_ok(
                        self.dataset@,
                        query,
                        self.metric,
                        neighbors@[j],
                    ) && self.metric.spec_within(
                        raw_to(self.dataset@, query, neighbors@[j].index as int),
                        radius as int,
                    ) && neighbors@[j].index < i,
                forall|a: int, b: int|
                    0 <= a < b < neighbors@.len() ==> neighbors@[a].index < neighbors@[b].index,
                forall|x: int|
                    0 <= x < i && self.metric.spec_within(raw_to(self.dataset@, query, x), radius as int)
                        ==> #[trigger] listed(neighbors@, x),
            decreases n - i,
        {
            let pt = &self.dataset[i];
            proof {
                assert(point_ok(pt));
                lemma_sq_dist_bounded(pt, query);
            }
            let raw = raw_distance(pt, query);
            let ghost before = neighbors@;
            if self.metric.within(raw, radius) {
                let d = self.metric.report(raw);
                neighbors.push(Neighbor::new(i, d));
                proof {
                    assert forall|x: int|
                        0 <= x < i + 1 && self.metric.spec_within(
                            raw_to(self.dataset@, query, x),
                            radius as int,
                        ) implies #[trigger] listed(neighbors@, x) by {
                        if x < i {
                            assert(listed(before, x));
                            let j = choose|j: int| 0 <= j < before.len() && before[j].index == x;
                            assert(neighbors@[j] == before[j]);
                        } else {
                            assert(neighbors@[before.len() as int].index == x);
                        }
                    }
                }
            }
            i = i + 1;
        }
        neighbors
    }
}

/// A k-d tree and a linear scan over the same dataset and metric answer a
/// k-nearest query alike: the two lists of neighbours are equal.
pub proof fn lemma_tree_search_matches_scan<P: Point>(
    tree: &KDTree<'_, P>,
    scan: &LinearSearch<'_, P>,
    query: &P,
    k: int,
    from_tree: Seq<Neighbor>,
    from_scan: Seq<Neighbor>,
)
    requires
        tree.data() == scan.data(),
        tree.spec_metric() == scan.spec_metric(),
        is_top_k(tree.data(), query, tree.spec_metric(), k, from_tree),
        is_top_k(scan.data(), query, scan.spec_metric(), k, from_scan),
    ensures
        from_tree == from_scan,
{
    lemma_top_k_unique(tree.data(), query, tree.spec_metric(), k, from_tree, from_scan);
}

} // verus!
