//! DBSCAN clustering over a k-d tree.
use vstd::prelude::*;
use crate::number::floor_div;
use crate::distance::{DistanceMeasure, lemma_sq_dist_self, lemma_sq_dist_symmetric};
use crate::kdtree::KDTree;
use crate::neighbor::{Neighbor, raw_to, listed, ball, neighbor_ok, is_radius_result, lemma_radius_len};
use crate::distance::DistanceMetric;
use crate::point::{Point, point_ok, dataset_ok, coord_ok};

verus! {

/// Label for DBSCAN clustering.
#[derive(Debug, Clone, Copy, PartialEq, Eq, Structural)]
pub enum Label {
    /// Member of the cluster with this id.
    Assigned(usize),
    /// Not within reach of any core point seen so far.
    Outlier,
    /// Queued for inspection.
    Marked,
    /// Not yet visited.
    Undefined,
}

impl Label {
    /// Return whether the label is assigned.
    pub fn is_assigned(&self) -> (r: bool)
        ensures
            r == (*self is Assigned),
    {
        match self {
            Label::Assigned(_) => true,
            _ => false,
        }
    }

    /// Return whether the label is outlier.
    pub fn is_outlier(&self) -> (r: bool)
        ensures
            r == (*self is Outlier),
    {
        match self {
            Label::Outlier => true,
            _ => false,
        }
    }

    /// Return whether the label is undefined.
    pub fn is_undefined(&self) -> (r: bool)
        ensures
            r == (*self is Undefined),
    {
        match self {
            Label::Undefined => true,
            _ => false,
        }
    }
}

/// Parameters of DBSCAN clustering algorithm.
#[derive(Debug, Clone, PartialEq)]
pub struct Params<D: DistanceMeasure> {
    /// Least number of points, the point itself included, that make a core point.
    pub min_points: usize,
    /// Neighbourhood radius in steps, read by the distance measure's metric.
    pub epsilon: i64,
    /// The distance measure.
    pub distance: D,
}

impl<D: DistanceMeasure> Params<D> {
    /// Create a new Params with required parameters.
    pub fn new(min_points: usize, epsilon: i64, distance: D) -> (r: Self)
        ensures
            r.min_points == min_points,
            r.epsilon == epsilon,
            r.distance == distance,
    {
        Params { min_points, epsilon, distance }
    }

    /// Return the minimum number of points.
    pub fn min_points(&self) -> (r: usize)
        ensures
            r == self.min_points,
    {
        self.min_points
    }

    /// Return the epsilon value.
    pub fn epsilon(&self) -> (r: i64)
        ensures
            r == self.epsilon,
    {
        self.epsilon
    }

    /// Return the distance measure.
    pub fn distance(&self) -> (r: &D)
        ensures
            *r == self.distance,
    {
        &self.distance
    }
}

/// Whether the `x`-th point is a core point: at least `min_points` points,
/// itself included, lie within `epsilon` of it.
pub open spec fn is_core<P: Point>(
    data: Seq<P>,
    metric: DistanceMetric,
    epsilon: int,
    min_points: int,
    x: int,
) -> bool {
    ball(data, &data[x], metric, epsilon).len() >= min_points
}

/// The `x`-th point lies within `epsilon` of the `y`-th point.
pub open spec fn near<P: Point>(
    data: Seq<P>,
    metric: DistanceMetric,
    epsilon: int,
    y: int,
    x: int,
) -> bool {
    ball(data, &data[y], metric, epsilon).contains(x)
}

/// The `x`-th point is assigned, or waits in the queue from `head` on.
pub open spec fn settled_or_queued(
    labels: Seq<Label>,
    queue: Seq<usize>,
    head: int,
    x: int,
) -> bool {
    labels[x] is Assigned || exists|p: int| head <= p < queue.len() && queue[p] == x
}

/// Every point within reach of an assigned core point other than `skip` is
/// assigned or waits in the queue.
pub open spec fn reach_ok<P: Point>(
    data: Seq<P>,
    metric: DistanceMetric,
    epsilon: int,
    min_points: int,
    labels: Seq<Label>,
    queue: Seq<usize>,
    head: int,
    skip: int,
) -> bool {
    forall|y: int, x: int|
        #![trigger near(data, metric, epsilon, y, x)]
        0 <= y < labels.len() && 0 <= x < labels.len() && y != skip && labels[y] is Assigned
            && is_core(data, metric, epsilon, min_points, y) && near(data, metric, epsilon, y, x)
            ==> settled_or_queued(labels, queue, head, x)
}

proof fn lemma_reach_step<P: Point>(
    data: Seq<P>,
    metric: DistanceMetric,
    epsilon: int,
    min_points: int,
    l1: Seq<Label>,
    q1: Seq<usize>,
    h1: int,
    skip1: int,
    l2: Seq<Label>,
    q2: Seq<usize>,
    h2: int,
    skip2: int,
)
    requires
        reach_ok(data, metric, epsilon, min_points, l1, q1, h1, skip1),
        l1.len() == l2.len(),
        0 <= h1 <= h2,
        q1.len() <= q2.len(),
        forall|p: int| 0 <= p < q1.len() ==> q2[p] == q1[p],
        forall|j: int| 0 <= j < l1.len() && l1[j] is Assigned ==> l2[j] is Assigned,
        forall|j: int|
            0 <= j < l1.len() && l2[j] is Assigned && j != skip2 && is_core(
                data,
                metric,
                epsilon,
                min_points,
                j,
            ) ==> l1[j] is Assigned && j != skip1,
        forall|p: int| h1 <= p < h2 && p < q1.len() ==> 0 <= q1[p] < l2.len() && l2[q1[p] as int] is Assigned,
    ensures
        reach_ok(data, metric, epsilon, min_points, l2, q2, h2, skip2),
{
    assert forall|y: int, x: int|
        #![trigger near(data, metric, epsilon, y, x)]
        0 <= y < l2.len() && 0 <= x < l2.len() && y != skip2 && l2[y] is Assigned && is_core(
            data,
            metric,
            epsilon,
            min_points,
            y,
        ) && near(data, metric, epsilon, y, x) implies settled_or_queued(l2, q2, h2, x) by {
        assert(settled_or_queued(l1, q1, h1, x));
        if !(l1[x] is Assigned) {
            let p = choose|p: int| h1 <= p < q1.len() && q1[p] == x;
            if p >= h2 {
                assert(q2[p] == x);
            }
        }
    }
}

/// Neighbouring core points that are both assigned share their cluster.
pub open spec fn cores_agree<P: Point>(
    data: Seq<P>,
    metric: DistanceMetric,
    epsilon: int,
    min_points: int,
    labels: Seq<Label>,
) -> bool {
    forall|y: int, x: int|
        #![trigger near(data, metric, epsilon, y, x)]
        0 <= y < labels.len() && 0 <= x < labels.len() && labels[y] is Assigned && labels[x] is Assigned
            && is_core(
                data,
                metric,
                epsilon,
                min_points,
                y,
            ) && is_core(data, metric, epsilon, min_points, x)
            && near(data, metric, epsilon, y, x) ==> labels[x] == labels[y]
}

/// A core point that is not yet assigned has assigned core neighbours only
/// in the cluster `c`.
pub open spec fn pending_cores_in<P: Point>(
    data: Seq<P>,
    metric: DistanceMetric,
    epsilon: int,
    min_points: int,
    labels: Seq<Label>,
    c: usize,
) -> bool {
    forall|y: int, x: int|
        #![trigger near(data, metric, epsilon, y, x)]
        0 <= y < labels.len() && 0 <= x < labels.len() && labels[y] is Assigned && !(labels[x] is Assigned)
            && is_core(
                data,
                metric,
                epsilon,
                min_points,
                y,
            ) && is_core(data, metric, epsilon, min_points, x)
            && near(data, metric, epsilon, y, x) ==> labels[y] == Label::Assigned(c)
}

/// The `x`-th point lies within reach of a core point of its own cluster.
pub open spec fn backed<P: Point>(
    data: Seq<P>,
    metric: DistanceMetric,
    epsilon: int,
    min_points: int,
    labels: Seq<Label>,
    x: int,
) -> bool {
    exists|y: int|
        #![trigger near(data, metric, epsilon, y, x)]
        0 <= y < labels.len() && is_core(data, metric, epsilon, min_points, y) && near(
            data,
            metric,
            epsilon,
            y,
            x,
        ) && labels[y] == labels[x]
}

/// The `x`-th point lies within reach of a core point that is in cluster `c`
/// or queued to join it.
pub open spec fn witnessed<P: Point>(
    data: Seq<P>,
    metric: DistanceMetric,
    epsilon: int,
    min_points: int,
    labels: Seq<Label>,
    c: usize,
    x: int,
) -> bool {
    exists|y: int|
        #![trigger near(data, metric, epsilon, y, x)]
        0 <= y < labels.len() && is_core(data, metric, epsilon, min_points, y) && near(
            data,
            metric,
            epsilon,
            y,
            x,
        ) && (labels[y] == Label::Assigned(c) || labels[y] == Label::Marked)
}

/// Every assigned point that is not a core point is backed, or joins
/// cluster `c` with a witness.
pub open spec fn borders_ok<P: Point>(
    data: Seq<P>,
    metric: DistanceMetric,
    epsilon: int,
    min_points: int,
    labels: Seq<Label>,
    c: usize,
) -> bool {
    forall|x: int|
        0 <= x < labels.len() && #[trigger] labels[x] is Assigned && !is_core(
            data,
            metric,
            epsilon,
            min_points,
            x,
        ) ==> backed(
            data,
            metric,
            epsilon,
            min_points,
            labels,
            x,
        ) || (labels[x] == Label::Assigned(c)
            && witnessed(data, metric, epsilon, min_points, labels, c, x))
}

proof fn lemma_border_step<P: Point>(
    data: Seq<P>,
    metric: DistanceMetric,
    epsilon: int,
    min_points: int,
    l1: Seq<Label>,
    l2: Seq<Label>,
    c: usize,
)
    requires
        l1.len() == l2.len(),
        forall|j: int|
            0 <= j < l1.len() && l1[j] is Assigned && is_core(data, metric, epsilon, min_points, j)
                ==> l2[j] == l1[j],
        forall|j: int|
            0 <= j < l1.len() && l1[j] == Label::Marked && is_core(
                data,
                metric,
                epsilon,
                min_points,
                j,
            )
                ==> (l2[j] == Label::Marked || l2[j] == Label::Assigned(c)),
    ensures
        forall|x: int|
            witnessed(data, metric, epsilon, min_points, l1, c, x) ==> witnessed(
                data,
                metric,
                epsilon,
                min_points,
                l2,
                c,
                x,
            ),
        forall|x: int|
            0 <= x < l1.len() && backed(
                data,
                metric,
                epsilon,
                min_points,
                l1,
                x,
            ) && l1[x] is Assigned
                && l2[x] == l1[x] ==> backed(data, metric, epsilon, min_points, l2, x),
{
    assert forall|x: int|
        witnessed(data, metric, epsilon, min_points, l1, c, x) implies witnessed(
        data,
        metric,
        epsilon,
        min_points,
        l2,
        c,
        x,
    ) by {
        let y = choose|y: int|
            #![trigger near(data, metric, epsilon, y, x)]
            0 <= y < l1.len() && is_core(data, metric, epsilon, min_points, y) && near(
                data,
                metric,
                epsilon,
                y,
                x,
            ) && (l1[y] == Label::Assigned(c) || l1[y] == Label::Marked);
        assert(near(data, metric, epsilon, y, x));
    }
    assert forall|x: int|
        0 <= x < l1.len() && backed(data, metric, epsilon, min_points, l1, x) && l1[x] is Assigned
            && l2[x] == l1[x] implies backed(data, metric, epsilon, min_points, l2, x) by {
        let y = choose|y: int|
            #![trigger near(data, metric, epsilon, y, x)]
            0 <= y < l1.len() && is_core(data, metric, epsilon, min_points, y) && near(
                data,
                metric,
                epsilon,
                y,
                x,
            ) && l1[y] == l1[x];
        assert(near(data, metric, epsilon, y, x));
    }
}

proof fn lemma_border_pop<P: Point>(
    data: Seq<P>,
    metric: DistanceMetric,
    epsilon: int,
    min_points: int,
    l1: Seq<Label>,
    l2: Seq<Label>,
    queue: Seq<usize>,
    h0: int,
    c: usize,
)
    requires
        borders_ok(data, metric, epsilon, min_points, l1, c),
        forall|p: int|
            h0 <= p < queue.len() ==> witnessed(
                data,
                metric,
                epsilon,
                min_points,
                l1,
                c,
                #[trigger] queue[p] as int,
            ),
        0 <= h0 < queue.len(),
        0 <= queue[h0] < l1.len(),
        l1.len() == l2.len(),
        forall|j: int| 0 <= j < l1.len() && j != queue[h0] ==> l2[j] == l1[j],
        l2[queue[h0] as int] == l1[queue[h0] as int] || (l2[queue[h0] as int] == Label::Assigned(c) && !(
        l1[queue[h0] as int] is Assigned)),
    ensures
        borders_ok(data, metric, epsilon, min_points, l2, c),
        forall|p: int|
            h0 + 1 <= p < queue.len() ==> witnessed(
                data,
                metric,
                epsilon,
                min_points,
                l2,
                c,
                #[trigger] queue[p] as int,
            ),
{
    lemma_border_step(data, metric, epsilon, min_points, l1, l2, c);
    let x = queue[h0] as int;
    assert(witnessed(data, metric, epsilon, min_points, l1, c, queue[h0] as int));
    assert forall|z: int|
        0 <= z < l2.len() && #[trigger] l2[z] is Assigned && !is_core(
            data,
            metric,
            epsilon,
            min_points,
            z,
        )
            implies backed(data, metric, epsilon, min_points, l2, z) || (l2[z] == Label::Assigned(c)
        && witnessed(data, metric, epsilon, min_points, l2, c, z)) by {
        if z != x || l2[x] == l1[x] {
            assert(l1[z] is Assigned);
        }
    }
    assert forall|p: int|
        h0 + 1 <= p < queue.len() implies witnessed(
            data,
            metric,
            epsilon,
            min_points,
            l2,
            c,
            #[trigger] queue[p] as int,
        ) by {
        assert(witnessed(data, metric, epsilon, min_points, l1, c, queue[p] as int));
    }
}

proof fn lemma_border_push<P: Point>(
    data: Seq<P>,
    metric: DistanceMetric,
    epsilon: int,
    min_points: int,
    l1: Seq<Label>,
    l2: Seq<Label>,
    q1: Seq<usize>,
    q2: Seq<usize>,
    head: int,
    c: usize,
)
    requires
        borders_ok(data, metric, epsilon, min_points, l1, c),
        0 <= head,
        forall|p: int|
            head <= p < q1.len() ==> witnessed(
                data,
                metric,
                epsilon,
                min_points,
                l1,
                c,
                #[trigger] q1[p] as int,
            ),
        l1.len() == l2.len(),
        forall|j: int| 0 <= j < l1.len() ==> (l2[j] == l1[j] || (l1[j] == Label::Undefined && l2[j] == Label::Marked)),
        q2.len() == q1.len() + 1,
        forall|p: int| 0 <= p < q1.len() ==> q2[p] == q1[p],
        witnessed(data, metric, epsilon, min_points, l2, c, q2[q1.len() as int] as int),
    ensures
        borders_ok(data, metric, epsilon, min_points, l2, c),
        forall|p: int|
            head <= p < q2.len() ==> witnessed(
                data,
                metric,
                epsilon,
                min_points,
                l2,
                c,
                #[trigger] q2[p] as int,
            ),
{
    lemma_border_step(data, metric, epsilon, min_points, l1, l2, c);
    assert forall|z: int|
        0 <= z < l2.len() && #[trigger] l2[z] is Assigned && !is_core(
            data,
            metric,
            epsilon,
            min_points,
            z,
        )
            implies backed(data, metric, epsilon, min_points, l2, z) || (l2[z] == Label::Assigned(c)
        && witnessed(data, metric, epsilon, min_points, l2, c, z)) by {
        assert(l1[z] == l2[z]);
        assert(l1[z] is Assigned);
    }
    assert forall|p: int|
        head <= p < q2.len() implies witnessed(
            data,
            metric,
            epsilon,
            min_points,
            l2,
            c,
            #[trigger] q2[p] as int,
        ) by {
        if p < q1.len() {
            assert(witnessed(data, metric, epsilon, min_points, l1, c, q1[p] as int));
        }
    }
}

/// Some core point carries the label of cluster `c`.
pub open spec fn has_core<P: Point>(
    data: Seq<P>,
    metric: DistanceMetric,
    epsilon: int,
    min_points: int,
    labels: Seq<Label>,
    c: int,
) -> bool {
    exists|y: int|
        0 <= y < labels.len() && is_core(
            data,
            metric,
            epsilon,
            min_points,
            y,
        ) && #[trigger] labels[y]
            == Label::Assigned(c as usize)
}

/// `seeds[c]` is the point that started cluster `c`: seeds are core points
/// in increasing order, each in its cluster, and every core point before the
/// seed of `c` belongs to a cluster before `c`.
pub open spec fn discovered_in_order<P: Point>(
    data: Seq<P>,
    metric: DistanceMetric,
    epsilon: int,
    min_points: int,
    labels: Seq<Label>,
    seeds: Seq<int>,
) -> bool {
    &&& forall|c: int|
        #![trigger seeds[c]]
        0 <= c < seeds.len() ==> 0 <= seeds[c] < labels.len() && is_core(
            data,
            metric,
            epsilon,
            min_points,
            seeds[c],
        ) && labels[seeds[c]] == Label::Assigned(c as usize)
    &&& forall|c1: int, c2: int|
        #![trigger seeds[c1], seeds[c2]]
        0 <= c1 < c2 < seeds.len() ==> seeds[c1] < seeds[c2]
    &&& forall|c: int, j: int|
        #![trigger seeds[c], labels[j]]
        0 <= c < seeds.len() && 0 <= j < seeds[c] && is_core(data, metric, epsilon, min_points, j)
            ==> labels[j] is Assigned && labels[j]->Assigned_0 < c
}

proof fn lemma_order_stable<P: Point>(
    data: Seq<P>,
    metric: DistanceMetric,
    epsilon: int,
    min_points: int,
    l1: Seq<Label>,
    l2: Seq<Label>,
    seeds: Seq<int>,
)
    requires
        discovered_in_order(data, metric, epsilon, min_points, l1, seeds),
        l1.len() == l2.len(),
        forall|j: int|
            0 <= j < l1.len() && l1[j] is Assigned && is_core(data, metric, epsilon, min_points, j)
                ==> #[trigger] l2[j] == l1[j],
    ensures
        discovered_in_order(data, metric, epsilon, min_points, l2, seeds),
{
    assert forall|c: int, j: int|
        #![trigger seeds[c], l2[j]]
        0 <= c < seeds.len() && 0 <= j < seeds[c] && is_core(data, metric, epsilon, min_points, j)
            implies l2[j] is Assigned && l2[j]->Assigned_0 < c by {
        assert(l1[j] is Assigned);
    }
}

proof fn lemma_order_push<P: Point>(
    data: Seq<P>,
    metric: DistanceMetric,
    epsilon: int,
    min_points: int,
    labels: Seq<Label>,
    seeds: Seq<int>,
    seed: int,
)
    requires
        discovered_in_order(data, metric, epsilon, min_points, labels, seeds),
        forall|c: int| 0 <= c < seeds.len() ==> #[trigger] seeds[c] < seed,
        0 <= seed < labels.len(),
        is_core(data, metric, epsilon, min_points, seed),
        labels[seed] == Label::Assigned(seeds.len() as usize),
        forall|j: int|
            0 <= j < seed && is_core(data, metric, epsilon, min_points, j) ==> #[trigger] labels[j] is Assigned
                && labels[j]->Assigned_0 < seeds.len(),
    ensures
        discovered_in_order(data, metric, epsilon, min_points, labels, seeds.push(seed)),
{
    let t = seeds.push(seed);
    assert forall|c: int, j: int|
        #![trigger t[c], labels[j]]
        0 <= c < t.len() && 0 <= j < t[c] && is_core(data, metric, epsilon, min_points, j)
            implies labels[j] is Assigned && labels[j]->Assigned_0 < c by {
        if c < seeds.len() {
            assert(t[c] == seeds[c]);
        }
    }
    assert forall|c1: int, c2: int|
        #![trigger t[c1], t[c2]]
        0 <= c1 < c2 < t.len() implies t[c1] < t[c2] by {
        if c2 < seeds.len() {
            assert(seeds[c1] < seeds[c2]);
        } else {
            assert(seeds[c1] < seed);
        }
    }
    assert forall|c: int|
        #![trigger t[c]]
        0 <= c < t.len() implies 0 <= t[c] < labels.len() && is_core(data, metric, epsilon, min_points, t[c])
            && labels[t[c]] == Label::Assigned(c as usize) by {
        if c < seeds.len() {
            assert(t[c] == seeds[c]);
        }
    }
}

/// The state of the labelling after the points before `index` were visited.
pub open spec fn progress<P: Point>(
    data: Seq<P>,
    metric: DistanceMetric,
    epsilon: int,
    min_points: int,
    labels: Seq<Label>,
    cluster_id: int,
    seeds: Seq<int>,
    index: int,
) -> bool {
    &&& labels.len() == data.len()
    &&& 0 <= cluster_id <= index <= data.len()
    &&& forall|j: int| 0 <= j < index ==> #[trigger] labels[j] != Label::Undefined
    &&& forall|j: int| 0 <= j < labels.len() ==> #[trigger] labels[j] != Label::Marked
    &&& forall|j: int|
        0 <= j < labels.len() && #[trigger] labels[j] is Assigned ==> labels[j]->Assigned_0 < cluster_id
    &&& cores_agree(data, metric, epsilon, min_points, labels)
    &&& forall|x: int|
        0 <= x < labels.len() && #[trigger] labels[x] is Assigned && is_core(data, metric, epsilon, min_points, x)
            ==> chained(data, metric, epsilon, min_points, seeds[labels[x]->Assigned_0 as int], x)
    &&& forall|c: int| 0 <= c < cluster_id ==> #[trigger] has_core(data, metric, epsilon, min_points, labels, c)
    &&& seeds.len() == cluster_id
    &&& forall|c: int| 0 <= c < cluster_id ==> #[trigger] seeds[c] < index
    &&& discovered_in_order(data, metric, epsilon, min_points, labels, seeds)
    &&& forall|x: int|
        0 <= x < labels.len() && #[trigger] labels[x] is Assigned && !is_core(data, metric, epsilon, min_points, x)
            ==> backed(data, metric, epsilon, min_points, labels, x)
    &&& forall|y: int, x: int|
        #![trigger near(data, metric, epsilon, y, x)]
        0 <= y < labels.len() && 0 <= x < labels.len() && labels[y] is Assigned && is_core(
            data,
            metric,
            epsilon,
            min_points,
            y,
        ) && near(data, metric, epsilon, y, x) ==> labels[x] is Assigned
    &&& forall|j: int|
        0 <= j < labels.len() && #[trigger] labels[j] == Label::Outlier ==> !is_core(
            data,
            metric,
            epsilon,
            min_points,
            j,
        )
}

/// `path` is a non-empty sequence of core points, each within `epsilon` of
/// the next.
pub open spec fn core_path<P: Point>(
    data: Seq<P>,
    metric: DistanceMetric,
    epsilon: int,
    min_points: int,
    path: Seq<int>,
) -> bool {
    &&& path.len() > 0
    &&& forall|i: int|
        #![trigger path[i]]
        0 <= i < path.len() ==> 0 <= path[i] < data.len() && is_core(data, metric, epsilon, min_points, path[i])
    &&& forall|i: int|
        #![trigger path[i], path[i + 1]]
        0 <= i < path.len() - 1 ==> near(data, metric, epsilon, path[i], path[i + 1])
}

/// The core points `a` and `b` are joined by a chain of core points, each
/// within `epsilon` of the next.
pub open spec fn chained<P: Point>(
    data: Seq<P>,
    metric: DistanceMetric,
    epsilon: int,
    min_points: int,
    a: int,
    b: int,
) -> bool {
    exists|path: Seq<int>|
        #![trigger core_path(data, metric, epsilon, min_points, path)]
        core_path(data, metric, epsilon, min_points, path) && path[0] == a && path[path.len() - 1] == b
}

proof fn lemma_chain_single<P: Point>(
    data: Seq<P>,
    metric: DistanceMetric,
    epsilon: int,
    min_points: int,
    a: int,
)
    requires
        0 <= a < data.len(),
        is_core(data, metric, epsilon, min_points, a),
    ensures
        chained(data, metric, epsilon, min_points, a, a),
{
    let path = seq![a];
    assert(core_path(data, metric, epsilon, min_points, path));
}

proof fn lemma_chain_extend<P: Point>(
    data: Seq<P>,
    metric: DistanceMetric,
    epsilon: int,
    min_points: int,
    a: int,
    z: int,
    x: int,
)
    requires
        chained(data, metric, epsilon, min_points, a, z),
        near(data, metric, epsilon, z, x),
        0 <= x < data.len(),
        is_core(data, metric, epsilon, min_points, x),
    ensures
        chained(data, metric, epsilon, min_points, a, x),
{
    let path = choose|path: Seq<int>|
        #![trigger core_path(data, metric, epsilon, min_points, path)]
        core_path(data, metric, epsilon, min_points, path) && path[0] == a && path[path.len() - 1] == z;
    let q = path.push(x);
    assert forall|i: int|
        #![trigger q[i]]
        0 <= i < q.len() implies 0 <= q[i] < data.len() && is_core(data, metric, epsilon, min_points, q[i]) by {
        if i < path.len() {
            assert(q[i] == path[i]);
        }
    }
    assert forall|i: int|
        #![trigger q[i], q[i + 1]]
        0 <= i < q.len() - 1 implies near(data, metric, epsilon, q[i], q[i + 1]) by {
        if i < path.len() - 1 {
            assert(q[i] == path[i] && q[i + 1] == path[i + 1]);
        }
    }
    assert(core_path(data, metric, epsilon, min_points, q));
}

proof fn lemma_chain_reverse<P: Point>(
    data: Seq<P>,
    metric: DistanceMetric,
    epsilon: int,
    min_points: int,
    a: int,
    b: int,
)
    requires
        chained(data, metric, epsilon, min_points, a, b),
    ensures
        chained(data, metric, epsilon, min_points, b, a),
{
    let path = choose|path: Seq<int>|
        #![trigger core_path(data, metric, epsilon, min_points, path)]
        core_path(data, metric, epsilon, min_points, path) && path[0] == a && path[path.len() - 1] == b;
    let n = path.len();
    let q = Seq::new(n, |i: int| path[n - 1 - i]);
    assert forall|i: int|
        #![trigger q[i]]
        0 <= i < q.len() implies 0 <= q[i] < data.len() && is_core(data, metric, epsilon, min_points, q[i]) by {
        assert(q[i] == path[n - 1 - i]);
    }
    assert forall|i: int|
        #![trigger q[i], q[i + 1]]
        0 <= i < q.len() - 1 implies near(data, metric, epsilon, q[i], q[i + 1]) by {
        let j = n - 2 - i;
        assert(q[i] == path[j + 1] && q[i + 1] == path[j]);
        assert(near(data, metric, epsilon, path[j], path[j + 1]));
        assert(0 <= path[j] < data.len() && 0 <= path[j + 1] < data.len());
        lemma_near_symmetric(data, metric, epsilon, path[j], path[j + 1]);
    }
    assert(core_path(data, metric, epsilon, min_points, q));
}

proof fn lemma_chain_concat<P: Point>(
    data: Seq<P>,
    metric: DistanceMetric,
    epsilon: int,
    min_points: int,
    a: int,
    b: int,
    c: int,
)
    requires
        chained(data, metric, epsilon, min_points, a, b),
        chained(data, metric, epsilon, min_points, b, c),
    ensures
        chained(data, metric, epsilon, min_points, a, c),
{
    let p1 = choose|path: Seq<int>|
        #![trigger core_path(data, metric, epsilon, min_points, path)]
        core_path(data, metric, epsilon, min_points, path) && path[0] == a && path[path.len() - 1] == b;
    let p2 = choose|path: Seq<int>|
        #![trigger core_path(data, metric, epsilon, min_points, path)]
        core_path(data, metric, epsilon, min_points, path) && path[0] == b && path[path.len() - 1] == c;
    let tail = p2.subrange(1, p2.len() as int);
    let q = p1 + tail;
    let n1 = p1.len();
    assert forall|i: int|
        #![trigger q[i]]
        0 <= i < q.len() implies 0 <= q[i] < data.len() && is_core(data, metric, epsilon, min_points, q[i]) by {
        if i < n1 {
            assert(q[i] == p1[i]);
        } else {
            assert(q[i] == p2[i - n1 + 1]);
        }
    }
    assert forall|i: int|
        #![trigger q[i], q[i + 1]]
        0 <= i < q.len() - 1 implies near(data, metric, epsilon, q[i], q[i + 1]) by {
        if i < n1 - 1 {
            assert(q[i] == p1[i] && q[i + 1] == p1[i + 1]);
        } else if i == n1 - 1 {
            assert(q[i] == p1[i] && p1[i] == p2[0] && q[i + 1] == p2[1]);
        } else {
            assert(q[i] == p2[i - n1 + 1] && q[i + 1] == p2[i - n1 + 2]);
        }
    }
    assert(core_path(data, metric, epsilon, min_points, q));
    if p2.len() == 1 {
        assert(q =~= p1);
    } else {
        assert(q[q.len() - 1] == p2[p2.len() - 1]);
    }
}

/// The `x`-th point lies within `epsilon` of a core point chained to `seed`.
pub open spec fn reached<P: Point>(
    data: Seq<P>,
    metric: DistanceMetric,
    epsilon: int,
    min_points: int,
    seed: int,
    x: int,
) -> bool {
    exists|z: int|
        #![trigger near(data, metric, epsilon, z, x)]
        0 <= z < data.len() && chained(data, metric, epsilon, min_points, seed, z) && near(
            data,
            metric,
            epsilon,
            z,
            x,
        )
}

/// Sum of the sizes of the listed clusters.
pub open spec fn sum_ids(labels: Seq<Label>, ids: Seq<usize>) -> nat
    decreases ids.len(),
{
    if ids.len() == 0 {
        0
    } else {
        sum_ids(labels, ids.drop_last()) + count_label(labels, Label::Assigned(ids.last()))
    }
}

/// How many of the listed clusters the label `x` names.
pub open spec fn occurrences(ids: Seq<usize>, x: Label) -> nat
    decreases ids.len(),
{
    if ids.len() == 0 {
        0
    } else {
        occurrences(ids.drop_last(), x) + if Label::Assigned(ids.last()) == x {
            1nat
        } else {
            0nat
        }
    }
}

proof fn lemma_sum_ids_push(s: Seq<Label>, x: Label, ids: Seq<usize>)
    ensures
        sum_ids(s.push(x), ids) == sum_ids(s, ids) + occurrences(ids, x),
    decreases ids.len(),
{
    assert(s.push(x).drop_last() =~= s);
    if ids.len() > 0 {
        lemma_sum_ids_push(s, x, ids.drop_last());
    }
}

proof fn lemma_occurrences_absent(ids: Seq<usize>, v: usize)
    requires
        forall|j: int| 0 <= j < ids.len() ==> ids[j] != v,
    ensures
        occurrences(ids, Label::Assigned(v)) == 0,
    decreases ids.len(),
{
    if ids.len() > 0 {
        lemma_occurrences_absent(ids.drop_last(), v);
    }
}

proof fn lemma_occurrences_at_most_one(ids: Seq<usize>, x: Label)
    requires
        forall|a: int, b: int| 0 <= a < b < ids.len() ==> ids[a] != ids[b],
    ensures
        occurrences(ids, x) <= 1,
    decreases ids.len(),
{
    if ids.len() > 0 {
        let rest = ids.drop_last();
        lemma_occurrences_at_most_one(rest, x);
        if Label::Assigned(ids.last()) == x {
            assert forall|j: int| 0 <= j < rest.len() implies rest[j] != ids.last() by {
                assert(ids[j] != ids[ids.len() - 1]);
            }
            lemma_occurrences_absent(rest, ids.last());
        }
    }
}

/// Distinct clusters together hold no more points than there are labels.
pub proof fn lemma_sum_ids_bounded(s: Seq<Label>, ids: Seq<usize>)
    requires
        forall|a: int, b: int| 0 <= a < b < ids.len() ==> ids[a] != ids[b],
    ensures
        sum_ids(s, ids) <= s.len(),
    decreases s.len(),
{
    if s.len() == 0 {
        lemma_sum_ids_empty(s, ids);
    } else {
        let t = s.drop_last();
        lemma_sum_ids_bounded(t, ids);
        lemma_sum_ids_push(t, s.last(), ids);
        lemma_occurrences_at_most_one(ids, s.last());
        assert(t.push(s.last()) =~= s);
    }
}

proof fn lemma_sum_ids_empty(s: Seq<Label>, ids: Seq<usize>)
    requires
        s.len() == 0,
    ensures
        sum_ids(s, ids) == 0,
    decreases ids.len(),
{
    if ids.len() > 0 {
        lemma_sum_ids_empty(s, ids.drop_last());
    }
}

/// The ids `0..k`.
pub open spec fn first_ids(k: nat) -> Seq<usize> {
    Seq::new(k, |c: int| c as usize)
}

proof fn lemma_occurrences_first_ids(k: nat, x: Label)
    requires
        k <= usize::MAX + 1,
    ensures
        x is Assigned && x->Assigned_0 < k ==> occurrences(first_ids(k), x) == 1,
        !(x is Assigned) ==> occurrences(first_ids(k), x) == 0,
    decreases k,
{
    if k > 0 {
        assert(first_ids(k).drop_last() =~= first_ids((k - 1) as nat));
        lemma_occurrences_first_ids((k - 1) as nat, x);
        if x is Assigned && x->Assigned_0 == k - 1 {
            lemma_occurrences_absent(first_ids((k - 1) as nat), (k - 1) as usize);
        }
    }
}

proof fn lemma_counts_add_up(s: Seq<Label>, k: nat)
    requires
        k <= usize::MAX + 1,
        forall|x: int| 0 <= x < s.len() ==> (s[x] is Outlier || (s[x] is Assigned && s[x]->Assigned_0 < k)),
    ensures
        sum_ids(s, first_ids(k)) + count_label(s, Label::Outlier) == s.len(),
    decreases s.len(),
{
    if s.len() == 0 {
        lemma_sum_ids_empty(s, first_ids(k));
    } else {
        let t = s.drop_last();
        assert forall|x: int| 0 <= x < t.len() implies (t[x] is Outlier || (t[x] is Assigned
            && t[x]->Assigned_0 < k)) by {
            assert(t[x] == s[x]);
        }
        lemma_counts_add_up(t, k);
        lemma_sum_ids_push(t, s.last(), first_ids(k));
        assert(t.push(s.last()) =~= s);
        lemma_occurrences_first_ids(k, s.last());
    }
}

/// Every point is counted once: the sizes of the clusters and the number of
/// outliers add up to the number of points.
pub proof fn lemma_fit_counts<P: Point>(r: &DBSCAN<P>, data: Seq<P>)
    requires
        r.partitions(data),
    ensures
        sum_ids(r.spec_labels(), first_ids(r.spec_membership().len())) + r.spec_outliers().len()
            == data.len(),
        forall|c: int|
            0 <= c < r.spec_membership().len() ==> #[trigger] r.spec_membership()[c].len() == count_label(
                r.spec_labels(),
                Label::Assigned(c as usize),
            ),
{
    lemma_counts_add_up(r.spec_labels(), r.spec_membership().len());
}

/// Nearness is symmetric.
pub proof fn lemma_near_symmetric<P: Point>(
    data: Seq<P>,
    metric: DistanceMetric,
    epsilon: int,
    y: int,
    x: int,
)
    requires
        0 <= y < data.len(),
        0 <= x < data.len(),
    ensures
        near(data, metric, epsilon, y, x) == near(data, metric, epsilon, x, y),
{
    data[x].lemma_dim();
    data[y].lemma_dim();
    lemma_sq_dist_symmetric(data[x].coords(), data[y].coords(), data[x].coords().len());
}

/// Number of labels that are not `Assigned`.
pub open spec fn unassigned(s: Seq<Label>) -> nat
    decreases s.len(),
{
    if s.len() == 0 {
        0
    } else {
        unassigned(s.drop_last()) + if s.last() is Assigned {
            0nat
        } else {
            1nat
        }
    }
}

proof fn lemma_unassigned_update(s: Seq<Label>, j: int, v: Label)
    requires
        0 <= j < s.len(),
    ensures
        unassigned(s.update(j, v)) + (if s[j] is Assigned {
            0int
        } else {
            1int
        }) == unassigned(s) + (if v is Assigned {
            0int
        } else {
            1int
        }),
    decreases s.len(),
{
    let t = s.update(j, v);
    if j < s.len() - 1 {
        lemma_unassigned_update(s.drop_last(), j, v);
        assert(t.drop_last() =~= s.drop_last().update(j, v));
    } else {
        assert(t.drop_last() =~= s.drop_last());
    }
}

/// Sum of the coordinates on `axis` of the listed points.
pub open spec fn coord_sum<P: Point>(data: Seq<P>, members: Seq<usize>, axis: int) -> int
    decreases members.len(),
{
    if members.len() == 0 {
        0
    } else {
        coord_sum(data, members.drop_last(), axis) + data[members.last() as int].coords()[axis]
    }
}

/// Arithmetic mean, rounded down, of the coordinates on `axis` of the listed
/// points; zero for no points.
pub open spec fn coord_mean<P: Point>(data: Seq<P>, members: Seq<usize>, axis: int) -> int {
    if members.len() == 0 {
        0
    } else {
        coord_sum(data, members, axis) / (members.len() as int)
    }
}

/// Number of labels equal to `l`.
pub open spec fn count_label(s: Seq<Label>, l: Label) -> nat
    decreases s.len(),
{
    if s.len() == 0 {
        0
    } else {
        count_label(s.drop_last(), l) + if s.last() == l {
            1nat
        } else {
            0nat
        }
    }
}

/// No label occurs more often than there are labels.
pub proof fn lemma_count_label_bounded(s: Seq<Label>, l: Label)
    ensures
        count_label(s, l) <= s.len(),
    decreases s.len(),
{
    if s.len() > 0 {
        lemma_count_label_bounded(s.drop_last(), l);
    }
}

/// `members` lists, by increasing index, the points whose label is `l`.
pub open spec fn lists_label(labels: Seq<Label>, members: Seq<usize>, l: Label) -> bool {
    &&& forall|a: int, b: int| 0 <= a < b < members.len() ==> members[a] < members[b]
    &&& forall|j: int| 0 <= j < members.len() ==> members[j] < labels.len()
    &&& forall|x: int|
        0 <= x < labels.len() ==> (labels[x] == l <==> exists|j: int|
            0 <= j < members.len() && members[j] == x)
}

/// Collect, by increasing index, the points whose label is `l`.
fn collect_label(labels: &Vec<Label>, l: Label) -> (r: Vec<usize>)
    ensures
        lists_label(labels@, r@, l),
        r@.len() == count_label(labels@, l),
{
    let n = labels.len();
    let mut r: Vec<usize> = Vec::new();
    let mut i: usize = 0;
    while i < n
        invariant
            n == labels@.len(),
            i <= n,
            forall|a: int, b: int| 0 <= a < b < r@.len() ==> r@[a] < r@[b],
            forall|j: int| 0 <= j < r@.len() ==> r@[j] < i,
            forall|x: int|
                0 <= x < i ==> (labels@[x] == l <==> exists|j: int| 0 <= j < r@.len() && r@[j] == x),
            r@.len() == count_label(labels@.subrange(0, i as int), l),
        decreases n - i,
    {
        let ghost before = r@;
        assert(labels@.subrange(0, i + 1).drop_last() =~= labels@.subrange(0, i as int));
        if labels[i] == l {
            r.push(i);
            proof {
                assert forall|x: int| 0 <= x < i + 1 implies (labels@[x] == l <==> exists|j: int|
                    0 <= j < r@.len() && r@[j] == x) by {
                    if x < i {
                        if labels@[x] == l {
                            let j = choose|j: int| 0 <= j < before.len() && before[j] == x;
                            assert(r@[j] == x);
                        }
                        if exists|j: int| 0 <= j < r@.len() && r@[j] == x {
                            let j = choose|j: int| 0 <= j < r@.len() && r@[j] == x;
                            assert(j < before.len());
                            assert(before[j] == x);
                        }
                    } else {
                        assert(r@[before.len() as int] == x);
                    }
                }
            }
        } else {
            proof {
                assert forall|x: int| 0 <= x < i + 1 implies (labels@[x] == l <==> exists|j: int|
                    0 <= j < r@.len() && r@[j] == x) by {
                    if x == i {
                        if exists|j: int| 0 <= j < r@.len() && r@[j] == x {
                            let j = choose|j: int| 0 <= j < r@.len() && r@[j] == x;
                        }
                    }
                }
            }
        }
        i = i + 1;
    }
    assert(labels@.subrange(0, n as int) =~= labels@);
    r
}

/// Mean, rounded down, of the coordinates on `axis` of the listed points.
fn axis_mean<P: Point>(data: &Vec<P>, members: &Vec<usize>, axis: usize) -> (r: i64)
    requires
        dataset_ok(data@),
        forall|j: int| 0 <= j < members@.len() ==> members@[j] < data@.len(),
        axis < P::spec_dim(),
    ensures
        r == coord_mean(data@, members@, axis as int),
        coord_ok(r),
{
    let m = members.len();
    if m == 0 {
        return 0;
    }
    let mut sum: i128 = 0;
    let mut j: usize = 0;
    while j < m
        invariant
            m == members@.len(),
            j <= m,
            dataset_ok(data@),
            forall|t: int| 0 <= t < members@.len() ==> members@[t] < data@.len(),
            axis < P::spec_dim(),
            sum == coord_sum(data@, members@.subrange(0, j as int), axis as int),
            -(j as int) * 68_719_476_736 <= sum <= (j as int) * 68_719_476_736,
        decreases m - j,
    {
        let pt = &data[members[j]];
        proof {
            pt.lemma_dim();
            assert(point_ok(pt));
            assert(coord_ok(pt.coords()[axis as int]));
            assert(members@.subrange(0, j + 1).drop_last() =~= members@.subrange(0, j as int));
        }
        sum = sum + pt.index(axis) as i128;
        j = j + 1;
    }
    assert(members@.subrange(0, m as int) =~= members@);
    let len = m as i128;
    let q = floor_div(sum, len);
    assert(-68_719_476_736 <= q <= 68_719_476_736) by (nonlinear_arith)
        requires
            q * len <= sum < (q + 1) * len,
            len > 0,
            -len * 68_719_476_736 <= sum <= len * 68_719_476_736,
    ;
    q as i64
}

/// The centroid of the listed points; the origin for no points.
fn mean_point<P: Point>(data: &Vec<P>, members: &Vec<usize>) -> (r: P)
    requires
        dataset_ok(data@),
        data@.len() > 0,
        forall|j: int| 0 <= j < members@.len() ==> members@[j] < data@.len(),
    ensures
        point_ok(&r),
        forall|a: int| 0 <= a < P::spec_dim() ==> #[trigger] r.coords()[a] == coord_mean(
            data@,
            members@,
            a,
        ),
{
    let d = data[0].dim();
    let mut coords: Vec<i64> = Vec::new();
    let mut a: usize = 0;
    while a < d
        invariant
            d == P::spec_dim(),
            a <= d,
            coords@.len() == a,
            dataset_ok(data@),
            forall|j: int| 0 <= j < members@.len() ==> members@[j] < data@.len(),
            forall|t: int| 0 <= t < a ==> #[trigger] coords@[t] == coord_mean(
                data@,
                members@,
                t,
            ) && coord_ok(coords@[t]),
        decreases d - a,
    {
        let v = axis_mean(data, members, a);
        coords.push(v);
        a = a + 1;
    }
    let r = P::from_coords(&coords);
    proof {
        r.lemma_dim();
    }
    r
}

/// DBSCAN clustering algorithm.
pub struct DBSCAN<P: Point> {
    centroids: Vec<P>,
    membership: Vec<Vec<usize>>,
    outliers: Vec<usize>,
    labels: Vec<Label>,
}

impl<P: Point> DBSCAN<P> {
    /// The final label of each point of the dataset.
    pub closed spec fn spec_labels(&self) -> Seq<Label> {
        self.labels@
    }

    /// The member indices of each cluster, by cluster id.
    pub closed spec fn spec_membership(&self) -> Seq<Seq<usize>> {
        self.membership@.map_values(|m: Vec<usize>| m@)
    }

    /// The centroid of each cluster, by cluster id.
    pub closed spec fn spec_centroids(&self) -> Seq<P> {
        self.centroids@
    }

    /// The indices of the outliers, increasing.
    pub closed spec fn spec_outliers(&self) -> Seq<usize> {
        self.outliers@
    }

    /// The labels partition the dataset: each point is an outlier or in one
    /// cluster, each cluster lists its members and its centroid is their mean.
    pub open spec fn partitions(&self, data: Seq<P>) -> bool {
        let labels = self.spec_labels();
        let k = self.spec_membership().len();
        &&& labels.len() == data.len()
        &&& k <= labels.len() <= usize::MAX
        &&& self.spec_centroids().len() == k
        &&& forall|x: int|
            #![trigger labels[x]]
            0 <= x < labels.len() ==> (labels[x] is Outlier || (labels[x] is Assigned
                && labels[x]->Assigned_0 < k))
        &&& forall|c: int|
            #![trigger self.spec_membership()[c]]
            0 <= c < k ==> lists_label(
                labels,
                self.spec_membership()[c],
                Label::Assigned(c as usize),
            )
                && self.spec_membership()[c].len() == count_label(
                    labels,
                    Label::Assigned(c as usize),
                )
        &&& lists_label(labels, self.spec_outliers(), Label::Outlier)
        &&& self.spec_outliers().len() == count_label(labels, Label::Outlier)
        &&& forall|c: int| 0 <= c < k ==> point_ok(#[trigger] &self.spec_centroids()[c])
        &&& forall|c: int, a: int|
            #![trigger self.spec_centroids()[c].coords()[a]]
            0 <= c < k && 0 <= a < P::spec_dim() ==> self.spec_centroids()[c].coords()[a] == coord_mean(
                data,
                self.spec_membership()[c],
                a,
            )
    }

    /// What `fit` establishes of its result: the labels partition the
    /// dataset (`partitions`), two core points share a cluster exactly when a
    /// chain of core points, each within `epsilon` of the next, joins them,
    /// outliers are exactly the points that are not
    /// core points and lie within `epsilon` of none, core points within
    /// `epsilon` of each other share a cluster, every assigned border point
    /// lies within `epsilon` of a core point of its own cluster, every cluster
    /// holds a core point, and clusters are numbered in discovery order.
    pub open spec fn is_clustering_of(
        &self,
        data: Seq<P>,
        metric: DistanceMetric,
        epsilon: int,
        min_points: int,
    ) -> bool {
        &&& self.partitions(data)
        &&& forall|x: int, y: int|
            #![trigger self.spec_labels()[x], self.spec_labels()[y]]
            0 <= x < data.len() && 0 <= y < data.len() && is_core(data, metric, epsilon, min_points, x)
                && is_core(data, metric, epsilon, min_points, y) && self.spec_labels()[x] is Assigned
                && self.spec_labels()[x] == self.spec_labels()[y] ==> chained(
                data,
                metric,
                epsilon,
                min_points,
                x,
                y,
            )
        &&& forall|x: int|
            0 <= x < data.len() && #[trigger] self.spec_labels()[x] == Label::Outlier ==> !is_core(
                data,
                metric,
                epsilon,
                min_points,
                x,
            )
        &&& forall|x: int|
            0 <= x < data.len() && is_core(
                data,
                metric,
                epsilon,
                min_points,
                x,
            ) ==> #[trigger] self.spec_labels()[x] is Assigned
        &&& forall|y: int, x: int|
            #![trigger near(
                data,
                metric,
                epsilon,
                y,
                x,
            )]
            0 <= y < data.len() && 0 <= x < data.len() && is_core(
                data,
                metric,
                epsilon,
                min_points,
                y,
            ) && near(data, metric, epsilon, y, x)
                ==> self.spec_labels()[x] is Assigned
        &&& forall|y: int, x: int|
            #![trigger near(
                data,
                metric,
                epsilon,
                y,
                x,
            )]
            0 <= y < data.len() && 0 <= x < data.len() && is_core(
                data,
                metric,
                epsilon,
                min_points,
                y,
            ) && is_core(
                data,
                metric,
                epsilon,
                min_points,
                x,
            ) && near(data, metric, epsilon, y, x)
                ==> self.spec_labels()[x] == self.spec_labels()[y]
        &&& forall|x: int|
            0 <= x < data.len() && #[trigger] self.spec_labels()[x] is Assigned && !is_core(
                data,
                metric,
                epsilon,
                min_points,
                x,
            ) ==> backed(
                data,
                metric,
                epsilon,
                min_points,
                self.spec_labels(),
                x,
            )
        &&& exists|seeds: Seq<int>|
            #![trigger seeds.len()]
            seeds.len() == self.spec_membership().len() && discovered_in_order(
                data,
                metric,
                epsilon,
                min_points,
                self.spec_labels(),
                seeds,
            )
        &&& forall|c: int|
            0 <= c < self.spec_membership().len() ==> #[trigger] has_core(
                data,
                metric,
                epsilon,
                min_points,
                self.spec_labels(),
                c,
            )
    }

    /// Grow cluster `cluster_id` breadth-first from the seed's neighbours.
    fn expand_cluster<'a, D: DistanceMeasure>(
        cluster_id: usize,
        dataset: &Vec<P>,
        params: &Params<D>,
        ns: &KDTree<'a, P>,
        neighbors: &Vec<Neighbor>,
        labels: &mut Vec<Label>,
        Ghost(seed): Ghost<int>,
    )
        requires
            0 <= seed < dataset@.len(),
            is_core(dataset@, ns.spec_metric(), params.epsilon as int, params.min_points as int, seed),
            forall|t: int|
                0 <= t < neighbors@.len() ==> near(
                    dataset@,
                    ns.spec_metric(),
                    params.epsilon as int,
                    seed,
                    #[trigger] neighbors@[t].index as int,
                ),
            forall|j: int| 0 <= j < old(labels)@.len() ==> #[trigger] old(labels)@[j] != Label::Assigned(cluster_id),
            ns.wf(),
            ns.data() == dataset@,
            dataset_ok(dataset@),
            old(labels)@.len() == dataset@.len(),
            forall|t: int| 0 <= t < neighbors@.len() ==> #[trigger] neighbors@[t].index < dataset@.len(),
            forall|j: int|
                0 <= j < old(labels)@.len() && #[trigger] old(labels)@[j] == Label::Marked ==> listed(
                    neighbors@,
                    j,
                ),
            forall|j: int|
                0 <= j < old(labels)@.len() && #[trigger] old(labels)@[j] is Assigned ==> old(
                    labels,
                )@[j]->Assigned_0 <= cluster_id,
            forall|j: int|
                0 <= j < old(labels)@.len() && #[trigger] old(labels)@[j] == Label::Outlier ==> !is_core(
                    dataset@,
                    ns.spec_metric(),
                    params.epsilon as int,
                    params.min_points as int,
                    j,
                ),
            forall|y: int, x: int|
                #![trigger near(dataset@, ns.spec_metric(), params.epsilon as int, y, x)]
                0 <= y < old(labels)@.len() && 0 <= x < old(labels)@.len() && old(labels)@[y] is Assigned
                    && is_core(
                        dataset@,
                        ns.spec_metric(),
                        params.epsilon as int,
                        params.min_points as int,
                        y,
                    )
                    && near(
                        dataset@,
                        ns.spec_metric(),
                        params.epsilon as int,
                        y,
                        x,
                    ) ==> (old(labels)@[x] is Assigned
                    || listed(neighbors@, x)),
            cores_agree(
                dataset@,
                ns.spec_metric(),
                params.epsilon as int,
                params.min_points as int,
                old(labels)@,
            ),
            pending_cores_in(
                dataset@,
                ns.spec_metric(),
                params.epsilon as int,
                params.min_points as int,
                old(labels)@,
                cluster_id,
            ),
            borders_ok(
                dataset@,
                ns.spec_metric(),
                params.epsilon as int,
                params.min_points as int,
                old(labels)@,
                cluster_id,
            ),
            forall|t: int|
                0 <= t < neighbors@.len() ==> witnessed(
                    dataset@,
                    ns.spec_metric(),
                    params.epsilon as int,
                    params.min_points as int,
                    old(labels)@,
                    cluster_id,
                    #[trigger] neighbors@[t].index as int,
                ),
        ensures
            final(labels)@.len() == old(labels)@.len(),
            forall|j: int| 0 <= j < final(labels)@.len() ==> #[trigger] final(labels)@[j] != Label::Marked,
            forall|j: int|
                0 <= j < final(labels)@.len() && old(labels)@[j] != Label::Undefined
                    ==> #[trigger] final(labels)@[j] != Label::Undefined,
            forall|j: int|
                0 <= j < final(labels)@.len() && #[trigger] final(labels)@[j] is Assigned
                    ==> final(labels)@[j]->Assigned_0 <= cluster_id,
            forall|j: int|
                0 <= j < final(labels)@.len() && #[trigger] final(labels)@[j] == Label::Outlier
                    ==> old(labels)@[j] == Label::Outlier,
            forall|y: int, x: int|
                #![trigger near(dataset@, ns.spec_metric(), params.epsilon as int, y, x)]
                0 <= y < final(labels)@.len() && 0 <= x < final(labels)@.len() && final(labels)@[y] is Assigned
                    && is_core(
                        dataset@,
                        ns.spec_metric(),
                        params.epsilon as int,
                        params.min_points as int,
                        y,
                    )
                    && near(
                        dataset@,
                        ns.spec_metric(),
                        params.epsilon as int,
                        y,
                        x,
                    ) ==> final(labels)@[x] is Assigned,
            cores_agree(
                dataset@,
                ns.spec_metric(),
                params.epsilon as int,
                params.min_points as int,
                final(labels)@,
            ),
            forall|x: int|
                0 <= x < final(labels)@.len() && #[trigger] final(labels)@[x] is Assigned
                    && !is_core(dataset@, ns.spec_metric(), params.epsilon as int, params.min_points as int, x)
                    ==> backed(
                        dataset@,
                        ns.spec_metric(),
                        params.epsilon as int,
                        params.min_points as int,
                        final(labels)@,
                        x,
                    ),
            forall|j: int|
                0 <= j < final(labels)@.len() && old(labels)@[j] == Label::Marked ==> #[trigger] final(labels)@[j]
                    == Label::Assigned(cluster_id),
            forall|j: int|
                0 <= j < final(labels)@.len() && old(labels)@[j] is Assigned ==> #[trigger] final(labels)@[j]
                    == old(labels)@[j],
            forall|j: int|
                0 <= j < final(labels)@.len() && #[trigger] final(labels)@[j] != old(labels)@[j]
                    ==> final(labels)@[j] == Label::Assigned(cluster_id),
            forall|x: int|
                0 <= x < final(labels)@.len() && is_core(dataset@, ns.spec_metric(), params.epsilon as int, params.min_points as int, x) && #[trigger] final(labels)@[x]
                    == Label::Assigned(cluster_id) ==> chained(dataset@, ns.spec_metric(), params.epsilon as int, params.min_points as int, seed, x),
            forall|j: int|
                0 <= j < final(labels)@.len() && old(labels)@[j] is Assigned && is_core(
                    dataset@,
                    ns.spec_metric(),
                    params.epsilon as int,
                    params.min_points as int,
                    j,
                ) ==> #[trigger] final(labels)@[j] == old(labels)@[j],
    {
        let ghost n = dataset@.len();
        let ghost l0 = labels@;
        let mut queue: Vec<usize> = Vec::new();
        let mut t: usize = 0;
        while t < neighbors.len()
            invariant
                t <= neighbors@.len(),
                queue@.len() == t,
                forall|x: int| 0 <= x < t ==> #[trigger] queue@[x] == neighbors@[x].index,
            decreases neighbors@.len() - t,
        {
            queue.push(neighbors[t].index);
            t = t + 1;
        }
        proof {
            assert forall|j: int|
                0 <= j < labels@.len() && #[trigger] labels@[j] == Label::Marked implies exists|p: int|
                0 <= p < queue@.len() && queue@[p] == j by {
                let x = choose|x: int| 0 <= x < neighbors@.len() && neighbors@[x].index == j;
                assert(queue@[x] == j);
            }
            assert forall|y: int, x: int|
                #![trigger near(dataset@, ns.spec_metric(), params.epsilon as int, y, x)]
                0 <= y < labels@.len() && 0 <= x < labels@.len() && labels@[y] is Assigned && is_core(
                    dataset@,
                    ns.spec_metric(),
                    params.epsilon as int,
                    params.min_points as int,
                    y,
                ) && near(
                    dataset@,
                    ns.spec_metric(),
                    params.epsilon as int,
                    y,
                    x,
                ) implies settled_or_queued(
                labels@,
                queue@,
                0,
                x,
            ) by {
                if !(labels@[x] is Assigned) {
                    assert(listed(neighbors@, x));
                    let t = choose|t: int| 0 <= t < neighbors@.len() && neighbors@[t].index == x;
                    assert(queue@[t] == x);
                }
            }
            assert forall|p: int| 0 <= p < queue@.len() implies witnessed(
                dataset@,
                ns.spec_metric(),
                params.epsilon as int,
                params.min_points as int,
                labels@,
                cluster_id,
                #[trigger] queue@[p] as int,
            ) by {
                assert(queue@[p] == neighbors@[p].index);
            }
            lemma_chain_single(dataset@, ns.spec_metric(), params.epsilon as int, params.min_points as int, seed);
            assert forall|p: int| 0 <= p < queue@.len() implies reached(dataset@, ns.spec_metric(), params.epsilon as int, params.min_points as int, seed, #[trigger] queue@[p] as int) by {
                assert(queue@[p] == neighbors@[p].index);
                assert(near(dataset@, ns.spec_metric(), params.epsilon as int, seed, queue@[p] as int));
            }
        }
        let mut head: usize = 0;
        while head < queue.len()
            invariant
                ns.wf(),
                ns.data() == dataset@,
                dataset_ok(dataset@),
                n == dataset@.len(),
                labels@.len() == n,
                head <= queue@.len(),
                forall|p: int| 0 <= p < queue@.len() ==> #[trigger] queue@[p] < n,
                forall|j: int|
                    0 <= j < labels@.len() && #[trigger] labels@[j] == Label::Marked ==> exists|p: int|
                        head <= p < queue@.len() && queue@[p] == j,
                forall|j: int|
                    0 <= j < n && l0[j] != Label::Undefined ==> #[trigger] labels@[j]
                        != Label::Undefined,
                forall|j: int|
                    0 <= j < n && #[trigger] labels@[j] is Assigned ==> labels@[j]->Assigned_0
                        <= cluster_id,
                forall|j: int| 0 <= j < n && #[trigger] labels@[j] == Label::Outlier ==> l0[j] == Label::Outlier,
                forall|j: int|
                    0 <= j < n && #[trigger] l0[j] == Label::Outlier ==> !is_core(
                        dataset@,
                        ns.spec_metric(),
                        params.epsilon as int,
                        params.min_points as int,
                        j,
                    ),
                reach_ok(
                    dataset@,
                    ns.spec_metric(),
                    params.epsilon as int,
                    params.min_points as int,
                    labels@,
                    queue@,
                    head as int,
                    -1,
                ),
                cores_agree(
                    dataset@,
                    ns.spec_metric(),
                    params.epsilon as int,
                    params.min_points as int,
                    labels@,
                ),
                pending_cores_in(
                    dataset@,
                    ns.spec_metric(),
                    params.epsilon as int,
                    params.min_points as int,
                    labels@,
                    cluster_id,
                ),
                borders_ok(
                    dataset@,
                    ns.spec_metric(),
                    params.epsilon as int,
                    params.min_points as int,
                    labels@,
                    cluster_id,
                ),
                forall|j: int|
                    0 <= j < n && l0[j] == Label::Marked ==> (#[trigger] labels@[j] == Label::Marked || labels@[j]
                        == Label::Assigned(cluster_id)),
                forall|j: int| 0 <= j < n && l0[j] is Assigned ==> #[trigger] labels@[j] == l0[j],
                forall|j: int|
                    0 <= j < n && #[trigger] labels@[j] != l0[j] ==> (labels@[j] == Label::Marked || labels@[j]
                        == Label::Assigned(cluster_id)),
                forall|p: int| head <= p < queue@.len() ==> witnessed(
                    dataset@,
                    ns.spec_metric(),
                    params.epsilon as int,
                    params.min_points as int,
                    labels@,
                    cluster_id,
                    #[trigger] queue@[p] as int,
                ),
                0 <= seed < n,
                forall|x: int|
                    0 <= x < n && is_core(dataset@, ns.spec_metric(), params.epsilon as int, params.min_points as int, x) && #[trigger] labels@[x] == Label::Assigned(cluster_id)
                        ==> chained(dataset@, ns.spec_metric(), params.epsilon as int, params.min_points as int, seed, x),
                forall|p: int| head <= p < queue@.len() ==> reached(dataset@, ns.spec_metric(), params.epsilon as int, params.min_points as int, seed, #[trigger] queue@[p] as int),
                forall|j: int|
                0 <= j < n && l0[j] is Assigned && is_core(
                    dataset@,
                    ns.spec_metric(),
                    params.epsilon as int,
                    params.min_points as int,
                    j,
                ) ==> #[trigger] labels@[j] == l0[j],
            decreases unassigned(labels@), queue@.len() - head,
        {
            let current = queue[head];
            let ghost lb = labels@;
            let ghost h0 = head as int;
            head = head + 1;
            proof {
                assert(0 <= current < n);
            }
            if labels[current].is_assigned() {
                proof {
                    lemma_border_pop(
                        dataset@,
                        ns.spec_metric(),
                        params.epsilon as int,
                        params.min_points as int,
                        lb,
                        labels@,
                        queue@,
                        h0,
                        cluster_id,
                    );
                    lemma_reach_step(dataset@, ns.spec_metric(), params.epsilon as int, params.min_points as int,
                        lb, queue@, h0, -1, labels@, queue@, head as int, -1);
                    assert forall|j: int|
                        0 <= j < labels@.len() && #[trigger] labels@[j] == Label::Marked implies exists|p: int|
                        head <= p < queue@.len() && queue@[p] == j by {
                        let p = choose|p: int| h0 <= p < queue@.len() && queue@[p] == j;
                        assert(p != h0);
                    }
                }
            } else if labels[current].is_outlier() {
                labels.set(current, Label::Assigned(cluster_id));
                proof {
                    assert(l0[current as int] == Label::Outlier);
                    lemma_border_pop(
                        dataset@,
                        ns.spec_metric(),
                        params.epsilon as int,
                        params.min_points as int,
                        lb,
                        labels@,
                        queue@,
                        h0,
                        cluster_id,
                    );
                    lemma_reach_step(dataset@, ns.spec_metric(), params.epsilon as int, params.min_points as int,
                        lb, queue@, h0, -1, labels@, queue@, head as int, -1);
                    lemma_unassigned_update(lb, current as int, Label::Assigned(cluster_id));
                    assert forall|j: int|
                        0 <= j < labels@.len() && #[trigger] labels@[j] == Label::Marked implies exists|p: int|
                        head <= p < queue@.len() && queue@[p] == j by {
                        assert(lb[j] == Label::Marked);
                        let p = choose|p: int| h0 <= p < queue@.len() && queue@[p] == j;
                        assert(p != h0);
                    }
                }
            } else {
                labels.set(current, Label::Assigned(cluster_id));
                proof {
                    lemma_border_pop(
                        dataset@,
                        ns.spec_metric(),
                        params.epsilon as int,
                        params.min_points as int,
                        lb,
                        labels@,
                        queue@,
                        h0,
                        cluster_id,
                    );
                    lemma_reach_step(dataset@, ns.spec_metric(), params.epsilon as int, params.min_points as int,
                        lb, queue@, h0, -1, labels@, queue@, head as int, current as int);
                    lemma_unassigned_update(lb, current as int, Label::Assigned(cluster_id));
                    assert forall|j: int|
                        0 <= j < labels@.len() && #[trigger] labels@[j] == Label::Marked implies exists|p: int|
                        head <= p < queue@.len() && queue@[p] == j by {
                        assert(lb[j] == Label::Marked);
                        let p = choose|p: int| h0 <= p < queue@.len() && queue@[p] == j;
                        assert(p != h0);
                    }
                    assert(point_ok(&dataset@[current as int]));
                    let m = ns.spec_metric();
                    let e = params.epsilon as int;
                    let mp = params.min_points as int;
                    assert forall|y: int, x: int|
                        #![trigger near(dataset@, m, e, y, x)]
                        0 <= y < labels@.len() && 0 <= x < labels@.len() && labels@[y] is Assigned
                            && labels@[x] is Assigned && is_core(
                                dataset@,
                                m,
                                e,
                                mp,
                                y,
                            ) && is_core(dataset@, m, e, mp, x)
                            && near(dataset@, m, e, y, x) implies labels@[x] == labels@[y] by {
                        if y == current && x != current {
                            lemma_near_symmetric(dataset@, m, e, y, x);
                            assert(near(dataset@, m, e, x, y));
                        }
                    }
                    assert forall|y: int, x: int|
                        #![trigger near(dataset@, m, e, y, x)]
                        0 <= y < labels@.len() && 0 <= x < labels@.len() && labels@[y] is Assigned
                            && !(labels@[x] is Assigned) && is_core(
                                dataset@,
                                m,
                                e,
                                mp,
                                y,
                            ) && is_core(dataset@, m, e, mp, x)
                            && near(
                                dataset@,
                                m,
                                e,
                                y,
                                x,
                            ) implies labels@[y] == Label::Assigned(cluster_id) by {
                        if y != current {
                            assert(lb[y] is Assigned);
                        }
                    }
                }
                proof {
                    if is_core(dataset@, ns.spec_metric(), params.epsilon as int, params.min_points as int, current as int) {
                        assert(queue@[h0] == current);
                        assert(reached(dataset@, ns.spec_metric(), params.epsilon as int, params.min_points as int, seed, queue@[h0] as int));
                        let z = choose|z: int|
                            #![trigger near(dataset@, ns.spec_metric(), params.epsilon as int, z, current as int)]
                            0 <= z < dataset@.len() && chained(dataset@, ns.spec_metric(), params.epsilon as int, params.min_points as int, seed, z) && near(
                                dataset@,
                                ns.spec_metric(),
                                params.epsilon as int,
                                z,
                                current as int,
                            );
                        lemma_chain_extend(dataset@, ns.spec_metric(), params.epsilon as int, params.min_points as int, seed, z, current as int);
                    }
                    assert forall|x: int|
                        0 <= x < n && is_core(dataset@, ns.spec_metric(), params.epsilon as int, params.min_points as int, x) && #[trigger] labels@[x] == Label::Assigned(cluster_id)
                            implies chained(dataset@, ns.spec_metric(), params.epsilon as int, params.min_points as int, seed, x) by {
                        if x != current {
                            assert(lb[x] == labels@[x]);
                        }
                    }
                }
                let ghost la = labels@;
                let ghost ua = unassigned(la);
                let secondary = ns.search_radius(&dataset[current], params.epsilon);
                proof {
                    lemma_radius_len(
                        dataset@,
                        &dataset@[current as int],
                        ns.spec_metric(),
                        params.epsilon as int,
                        secondary@,
                    );
                }
                if secondary.len() >= params.min_points {
                    let mut u: usize = 0;
                    while u < secondary.len()
                        invariant
                            n == dataset@.len(),
                            labels@.len() == n,
                            head <= queue@.len(),
                            u <= secondary@.len(),
                            forall|x: int| 0 <= x < secondary@.len() ==> #[trigger] secondary@[x].index < n,
                            forall|p: int| 0 <= p < queue@.len() ==> #[trigger] queue@[p] < n,
                            forall|j: int|
                                0 <= j < labels@.len() && #[trigger] labels@[j] == Label::Marked ==> exists|p: int|
                                    head <= p < queue@.len() && queue@[p] == j,
                            forall|j: int|
                                0 <= j < n && l0[j] != Label::Undefined ==> #[trigger] labels@[j]
                                    != Label::Undefined,
                            forall|j: int|
                                0 <= j < n && #[trigger] labels@[j] is Assigned ==> labels@[j]->Assigned_0
                                    <= cluster_id,
                            unassigned(labels@) == ua,
                            ua < unassigned(lb),
                            forall|j: int| 0 <= j < n && #[trigger] labels@[j] == Label::Outlier ==> l0[j] == Label::Outlier,
                            reach_ok(
                                dataset@,
                                ns.spec_metric(),
                                params.epsilon as int,
                                params.min_points as int,
                                labels@,
                                queue@,
                                head as int,
                                current as int,
                            ),
                            0 <= current < n,
                            labels@[current as int] == Label::Assigned(cluster_id),
                            forall|t: int|
                                0 <= t < u ==> settled_or_queued(
                                    labels@,
                                    queue@,
                                    head as int,
                                    #[trigger] secondary@[t].index as int,
                                ),
                            forall|j: int| 0 <= j < n ==> (#[trigger] labels@[j] is Assigned) == (la[j] is Assigned),
                            forall|j: int| 0 <= j < n && la[j] is Assigned ==> #[trigger] labels@[j] == la[j],
                            borders_ok(
                                dataset@,
                                ns.spec_metric(),
                                params.epsilon as int,
                                params.min_points as int,
                                labels@,
                                cluster_id,
                            ),
                            forall|p: int| head <= p < queue@.len() ==> witnessed(
                                dataset@,
                                ns.spec_metric(),
                                params.epsilon as int,
                                params.min_points as int,
                                labels@,
                                cluster_id,
                                #[trigger] queue@[p] as int,
                            ),
                            0 <= seed < n,
                            forall|x: int|
                                            0 <= x < n && is_core(dataset@, ns.spec_metric(), params.epsilon as int, params.min_points as int, x) && #[trigger] labels@[x] == Label::Assigned(cluster_id)
                                                ==> chained(dataset@, ns.spec_metric(), params.epsilon as int, params.min_points as int, seed, x),
                            forall|p: int| head <= p < queue@.len() ==> reached(dataset@, ns.spec_metric(), params.epsilon as int, params.min_points as int, seed, #[trigger] queue@[p] as int),
                            chained(dataset@, ns.spec_metric(), params.epsilon as int, params.min_points as int, seed, current as int),
                            is_core(
                                dataset@,
                                ns.spec_metric(),
                                params.epsilon as int,
                                params.min_points as int,
                                current as int,
                            ),
                            forall|j: int|
                                0 <= j < n && l0[j] == Label::Marked ==> (#[trigger] labels@[j] == Label::Marked
                                    || labels@[j] == Label::Assigned(cluster_id)),
                            forall|j: int| 0 <= j < n && l0[j] is Assigned ==> #[trigger] labels@[j] == l0[j],
                            forall|j: int|
                                0 <= j < n && #[trigger] labels@[j] != l0[j] ==> (labels@[j] == Label::Marked
                                    || labels@[j] == Label::Assigned(cluster_id)),
                            is_radius_result(
                                dataset@,
                                &dataset@[current as int],
                                ns.spec_metric(),
                                params.epsilon as int,
                                secondary@,
                            ),
                            la.len() == n,
                            cores_agree(
                                dataset@,
                                ns.spec_metric(),
                                params.epsilon as int,
                                params.min_points as int,
                                la,
                            ),
                            pending_cores_in(
                                dataset@,
                                ns.spec_metric(),
                                params.epsilon as int,
                                params.min_points as int,
                                la,
                                cluster_id,
                            ),
                            forall|j: int|
                0 <= j < n && l0[j] is Assigned && is_core(
                    dataset@,
                    ns.spec_metric(),
                    params.epsilon as int,
                    params.min_points as int,
                    j,
                ) ==> #[trigger] labels@[j] == l0[j],
                        decreases secondary@.len() - u,
                    {
                        let index = secondary[u].index;
                        let ghost lc = labels@;
                        let ghost qc = queue@;
                        if labels[index].is_undefined() {
                            labels.set(index, Label::Marked);
                            queue.push(index);
                            proof {
                                assert(neighbor_ok(
                                    dataset@,
                                    &dataset@[current as int],
                                    ns.spec_metric(),
                                    secondary@[u as int],
                                ));
                                assert(index == secondary@[u as int].index);
                                assert(ns.spec_metric().spec_within(
                                    raw_to(dataset@, &dataset@[current as int], index as int),
                                    params.epsilon as int,
                                ));
                                assert(ball(
                                    dataset@,
                                    &dataset@[current as int],
                                    ns.spec_metric(),
                                    params.epsilon as int,
                                ).contains(index as int));
                                assert(near(
                                    dataset@,
                                    ns.spec_metric(),
                                    params.epsilon as int,
                                    current as int,
                                    index as int,
                                ));
                                assert(witnessed(
                                    dataset@,
                                    ns.spec_metric(),
                                    params.epsilon as int,
                                    params.min_points as int,
                                    labels@,
                                    cluster_id,
                                    queue@[qc.len() as int] as int,
                                ));
                                lemma_border_push(
                                    dataset@,
                                    ns.spec_metric(),
                                    params.epsilon as int,
                                    params.min_points as int,
                                    lc,
                                    labels@,
                                    qc,
                                    queue@,
                                    head as int,
                                    cluster_id,
                                );
                                lemma_reach_step(dataset@, ns.spec_metric(), params.epsilon as int,
                                    params.min_points as int, lc, qc, head as int, current as int, labels@, queue@,
                                    head as int, current as int);
                                assert forall|t: int| 0 <= t < u + 1 implies settled_or_queued(
                                    labels@,
                                    queue@,
                                    head as int,
                                    #[trigger] secondary@[t].index as int,
                                ) by {
                                    let x = secondary@[t].index as int;
                                    if t == u {
                                        assert(queue@[qc.len() as int] == x);
                                    } else {
                                        assert(settled_or_queued(lc, qc, head as int, x));
                                        if !(lc[x] is Assigned) {
                                            let p = choose|p: int| head <= p < qc.len() && qc[p] == x;
                                            assert(queue@[p] == x);
                                        }
                                    }
                                }
                                lemma_unassigned_update(lc, index as int, Label::Marked);
                                assert forall|j: int|
                                    0 <= j < labels@.len() && #[trigger] labels@[j] == Label::Marked implies exists|p: int|
                                    head <= p < queue@.len() && queue@[p] == j by {
                                    if j == index {
                                        assert(queue@[qc.len() as int] == j);
                                    } else {
                                        assert(lc[j] == Label::Marked);
                                        let p = choose|p: int| head <= p < qc.len() && qc[p] == j;
                                        assert(queue@[p] == j);
                                    }
                                }
                            }
                        } else if labels[index].is_outlier() {
                            queue.push(index);
                            proof {
                                assert(neighbor_ok(
                                    dataset@,
                                    &dataset@[current as int],
                                    ns.spec_metric(),
                                    secondary@[u as int],
                                ));
                                assert(index == secondary@[u as int].index);
                                assert(ns.spec_metric().spec_within(
                                    raw_to(dataset@, &dataset@[current as int], index as int),
                                    params.epsilon as int,
                                ));
                                assert(ball(
                                    dataset@,
                                    &dataset@[current as int],
                                    ns.spec_metric(),
                                    params.epsilon as int,
                                ).contains(index as int));
                                assert(near(
                                    dataset@,
                                    ns.spec_metric(),
                                    params.epsilon as int,
                                    current as int,
                                    index as int,
                                ));
                                assert(witnessed(
                                    dataset@,
                                    ns.spec_metric(),
                                    params.epsilon as int,
                                    params.min_points as int,
                                    labels@,
                                    cluster_id,
                                    queue@[qc.len() as int] as int,
                                ));
                                lemma_border_push(
                                    dataset@,
                                    ns.spec_metric(),
                                    params.epsilon as int,
                                    params.min_points as int,
                                    lc,
                                    labels@,
                                    qc,
                                    queue@,
                                    head as int,
                                    cluster_id,
                                );
                                lemma_reach_step(dataset@, ns.spec_metric(), params.epsilon as int,
                                    params.min_points as int, lc, qc, head as int, current as int, labels@, queue@,
                                    head as int, current as int);
                                assert forall|t: int| 0 <= t < u + 1 implies settled_or_queued(
                                    labels@,
                                    queue@,
                                    head as int,
                                    #[trigger] secondary@[t].index as int,
                                ) by {
                                    let x = secondary@[t].index as int;
                                    if t == u {
                                        assert(queue@[qc.len() as int] == x);
                                    } else {
                                        assert(settled_or_queued(lc, qc, head as int, x));
                                        if !(lc[x] is Assigned) {
                                            let p = choose|p: int| head <= p < qc.len() && qc[p] == x;
                                            assert(queue@[p] == x);
                                        }
                                    }
                                }
                                assert forall|j: int|
                                    0 <= j < labels@.len() && #[trigger] labels@[j] == Label::Marked implies exists|p: int|
                                    head <= p < queue@.len() && queue@[p] == j by {
                                    let p = choose|p: int| head <= p < qc.len() && qc[p] == j;
                                    assert(queue@[p] == j);
                                }
                            }
                        }
                        u = u + 1;
                    }
                    proof {
                        let m = ns.spec_metric();
                        let e = params.epsilon as int;
                        let mp = params.min_points as int;
                        assert forall|y: int, x: int|
                            #![trigger near(dataset@, m, e, y, x)]
                            0 <= y < labels@.len() && 0 <= x < labels@.len() && y != -1 && labels@[y] is Assigned
                                && is_core(dataset@, m, e, mp, y) && near(dataset@, m, e, y, x)
                                implies settled_or_queued(labels@, queue@, head as int, x) by {
                            if y == current {
                                assert(ball(dataset@, &dataset@[y], m, e).contains(x));
                                assert(listed(secondary@, x));
                                let t = choose|t: int| 0 <= t < secondary@.len() && secondary@[t].index == x;
                                assert(settled_or_queued(
                                    labels@,
                                    queue@,
                                    head as int,
                                    secondary@[t].index as int,
                                ));
                            }
                        }
                    }
                } else {
                    proof {
                        let m = ns.spec_metric();
                        let e = params.epsilon as int;
                        let mp = params.min_points as int;
                        assert(!is_core(dataset@, m, e, mp, current as int));
                        assert forall|y: int, x: int|
                            #![trigger near(dataset@, m, e, y, x)]
                            0 <= y < labels@.len() && 0 <= x < labels@.len() && y != -1 && labels@[y] is Assigned
                                && is_core(dataset@, m, e, mp, y) && near(dataset@, m, e, y, x)
                                implies settled_or_queued(labels@, queue@, head as int, x) by {
                            if y != current {
                                assert(y != current as int);
                            }
                        }
                    }
                }
            }
        }
    }

    /// Label the `index`-th point, which has too few neighbours, an outlier.
    fn mark_outlier<'a, D: DistanceMeasure>(
        index: usize,
        cluster_id: usize,
        dataset: &Vec<P>,
        params: &Params<D>,
        nns: &KDTree<'a, P>,
        neighbors: &Vec<Neighbor>,
        labels: &mut Vec<Label>,
        Ghost(seeds): Ghost<Seq<int>>,
    )
        requires
            nns.wf(),
            nns.data() == dataset@,
            dataset_ok(dataset@),
            params.epsilon > 0,
            nns.spec_metric() == params.distance.spec_metric(),
            index < dataset@.len(),
            progress(dataset@, nns.spec_metric(), params.epsilon as int, params.min_points as int, old(labels)@, cluster_id as int, seeds, index as int),
            old(labels)@[index as int] == Label::Undefined,
            is_radius_result(dataset@, &dataset@[index as int], nns.spec_metric(), params.epsilon as int, neighbors@),
            neighbors@.len() < params.min_points,
        ensures
            progress(dataset@, nns.spec_metric(), params.epsilon as int, params.min_points as int, final(labels)@, cluster_id as int, seeds, index + 1),
    {
        let ghost n = dataset@.len();
        proof {
            lemma_radius_len(
                dataset@,
                &dataset@[index as int],
                nns.spec_metric(),
                params.epsilon as int,
                neighbors@,
            );
        }
            let ghost lo = labels@;
            labels.set(index, Label::Outlier);
            proof {
                lemma_order_stable(dataset@, nns.spec_metric(), params.epsilon as int, params.min_points as int, lo, labels@, seeds);
                let m = nns.spec_metric();
                let e = params.epsilon as int;
                let mp = params.min_points as int;
                assert forall|y: int, x: int|
                    #![trigger near(dataset@, m, e, y, x)]
                    0 <= y < n && 0 <= x < n && labels@[y] is Assigned && is_core(
                        dataset@,
                        m,
                        e,
                        mp,
                        y,
                    )
                        && near(dataset@, m, e, y, x) implies labels@[x] is Assigned by {
                    assert(lo[y] is Assigned);
                    assert(lo[x] is Assigned);
                }
                assert forall|y: int, x: int|
                    #![trigger near(dataset@, m, e, y, x)]
                    0 <= y < labels@.len() && 0 <= x < labels@.len() && labels@[y] is Assigned
                        && labels@[x] is Assigned && is_core(
                            dataset@,
                            m,
                            e,
                            mp,
                            y,
                        ) && is_core(
                        dataset@,
                        m,
                        e,
                        mp,
                        x,
                    ) && near(dataset@, m, e, y, x) implies labels@[x] == labels@[y] by {
                    assert(lo[y] is Assigned);
                    assert(lo[x] is Assigned);
                }
                assert forall|c: int| 0 <= c < cluster_id implies #[trigger] has_core(
                    dataset@,
                    m,
                    e,
                    mp,
                    labels@,
                    c,
                ) by {
                    assert(has_core(dataset@, m, e, mp, lo, c));
                    let y = choose|y: int|
                        0 <= y < lo.len() && is_core(
                            dataset@,
                            m,
                            e,
                            mp,
                            y,
                        ) && #[trigger] lo[y]
                            == Label::Assigned(c as usize);
                    assert(labels@[y] == lo[y]);
                }
                assert forall|x: int|
                    0 <= x < n && #[trigger] labels@[x] is Assigned && !is_core(
                        dataset@,
                        m,
                        e,
                        mp,
                        x,
                    )
                        implies backed(dataset@, m, e, mp, labels@, x) by {
                    assert(lo[x] is Assigned);
                    let y = choose|y: int|
                        #![trigger near(dataset@, m, e, y, x)]
                        0 <= y < lo.len() && is_core(
                            dataset@,
                            m,
                            e,
                            mp,
                            y,
                        ) && near(dataset@, m, e, y, x)
                            && lo[y] == lo[x];
                    assert(near(dataset@, m, e, y, x));
                }
            }
    }

    /// Start cluster `cluster_id` at the `index`-th point, a core point, and
    /// grow it; return the seeds with this one added.
    #[verifier::rlimit(50)]
    fn start_cluster<'a, D: DistanceMeasure>(
        index: usize,
        cluster_id: usize,
        dataset: &Vec<P>,
        params: &Params<D>,
        nns: &KDTree<'a, P>,
        neighbors: &Vec<Neighbor>,
        labels: &mut Vec<Label>,
        Ghost(seeds): Ghost<Seq<int>>,
    ) -> (new_seeds: Ghost<Seq<int>>)
        requires
            nns.wf(),
            nns.data() == dataset@,
            dataset_ok(dataset@),
            params.epsilon > 0,
            nns.spec_metric() == params.distance.spec_metric(),
            index < dataset@.len(),
            progress(dataset@, nns.spec_metric(), params.epsilon as int, params.min_points as int, old(labels)@, cluster_id as int, seeds, index as int),
            old(labels)@[index as int] == Label::Undefined,
            is_radius_result(dataset@, &dataset@[index as int], nns.spec_metric(), params.epsilon as int, neighbors@),
            neighbors@.len() >= params.min_points,
        ensures
            progress(dataset@, nns.spec_metric(), params.epsilon as int, params.min_points as int, final(labels)@, cluster_id + 1, new_seeds@, index + 1),
    {
        let n = dataset.len();
            proof {
                let pt = dataset@[index as int];
                pt.lemma_dim();
                lemma_sq_dist_self(pt.coords(), pt.coords().len());
                assert(raw_to(dataset@, &pt, index as int) == 0);
                assert(nns.spec_metric().spec_within(
                    0,
                    params.epsilon as int,
                )) by (nonlinear_arith)
                    requires
                        params.epsilon > 0,
                ;
                assert(listed(neighbors@, index as int));
            }
            let ghost lm = labels@;
            let mut t: usize = 0;
            while t < neighbors.len()
                invariant
                    n == dataset@.len(),
                    labels@.len() == n,
                    t <= neighbors@.len(),
                    forall|x: int| 0 <= x < neighbors@.len() ==> #[trigger] neighbors@[x].index < n,
                    forall|j: int|
                        0 <= j < n && #[trigger] labels@[j] == Label::Marked ==> exists|x: int|
                            0 <= x < t && neighbors@[x].index == j,
                    forall|j: int|
                        0 <= j < n ==> (#[trigger] labels@[j] == lm[j] || labels@[j] == Label::Marked),
                    forall|x: int| 0 <= x < t ==> #[trigger] labels@[neighbors@[x].index as int] == Label::Marked,
                decreases neighbors@.len() - t,
            {
                let ghost lc = labels@;
                labels.set(neighbors[t].index, Label::Marked);
                proof {
                    assert forall|j: int|
                        0 <= j < n && #[trigger] labels@[j] == Label::Marked implies exists|x: int|
                        0 <= x < t + 1 && neighbors@[x].index == j by {
                        if j != neighbors@[t as int].index {
                            assert(lc[j] == Label::Marked);
                        }
                    }
                }
                t = t + 1;
            }
            proof {
                assert forall|j: int|
                    0 <= j < n && #[trigger] labels@[j] == Label::Marked implies listed(
                        neighbors@,
                        j,
                    ) by {
                    let x = choose|x: int| 0 <= x < neighbors@.len() && neighbors@[x].index == j;
                }
                let x = choose|x: int| 0 <= x < neighbors@.len() && neighbors@[x].index == index;
                assert(labels@[index as int] == Label::Marked);
                let m = nns.spec_metric();
                let e = params.epsilon as int;
                let mp = params.min_points as int;
                assert forall|y: int, x: int|
                    #![trigger near(dataset@, m, e, y, x)]
                    0 <= y < labels@.len() && 0 <= x < labels@.len() && labels@[y] is Assigned && is_core(
                        dataset@,
                        m,
                        e,
                        mp,
                        y,
                    ) && near(
                        dataset@,
                        m,
                        e,
                        y,
                        x,
                    ) implies (labels@[x] is Assigned || listed(
                        neighbors@,
                        x,
                    )) by {
                    assert(lm[y] is Assigned);
                    assert(lm[x] is Assigned);
                    if labels@[x] == Label::Marked {
                        let t = choose|t: int| 0 <= t < neighbors@.len() && neighbors@[t].index == x;
                    }
                }
                assert forall|j: int|
                    0 <= j < labels@.len() && #[trigger] labels@[j] == Label::Outlier implies !is_core(
                        dataset@,
                        m,
                        e,
                        mp,
                        j,
                    ) by {
                    assert(lm[j] == Label::Outlier);
                }
                assert forall|j: int|
                    0 <= j < n && lm[j] is Assigned && is_core(
                        dataset@,
                        m,
                        e,
                        mp,
                        j,
                    ) implies #[trigger] labels@[j]
                        == lm[j] by {
                    if labels@[j] != lm[j] {
                        assert(labels@[j] == Label::Marked);
                        let t = choose|t: int| 0 <= t < neighbors@.len() && neighbors@[t].index == j;
                        assert(neighbor_ok(
                            dataset@,
                            &dataset@[index as int],
                            m,
                            neighbors@[t],
                        ));
                        assert(near(dataset@, m, e, index as int, j));
                        lemma_near_symmetric(dataset@, m, e, index as int, j);
                        assert(near(dataset@, m, e, j, index as int));
                        assert(lm[index as int] is Assigned);
                    }
                }
                assert forall|y: int, x: int|
                    #![trigger near(dataset@, m, e, y, x)]
                    0 <= y < labels@.len() && 0 <= x < labels@.len() && labels@[y] is Assigned
                        && labels@[x] is Assigned && is_core(
                            dataset@,
                            m,
                            e,
                            mp,
                            y,
                        ) && is_core(
                        dataset@,
                        m,
                        e,
                        mp,
                        x,
                    ) && near(dataset@, m, e, y, x) implies labels@[x] == labels@[y] by {
                    assert(lm[y] is Assigned);
                    assert(lm[x] is Assigned);
                }
                assert forall|y: int, x: int|
                    #![trigger near(dataset@, m, e, y, x)]
                    0 <= y < labels@.len() && 0 <= x < labels@.len() && labels@[y] is Assigned
                        && !(labels@[x] is Assigned) && is_core(
                            dataset@,
                            m,
                            e,
                            mp,
                            y,
                        ) && is_core(
                        dataset@,
                        m,
                        e,
                        mp,
                        x,
                    ) && near(
                        dataset@,
                        m,
                        e,
                        y,
                        x,
                    ) implies labels@[y] == Label::Assigned(cluster_id) by {
                    assert(lm[y] is Assigned);
                    assert(lm[x] is Assigned);
                }
                lemma_radius_len(dataset@, &dataset@[index as int], m, e, neighbors@);
                assert(is_core(dataset@, m, e, mp, index as int));
                assert forall|t: int| 0 <= t < neighbors@.len() implies witnessed(
                    dataset@,
                    m,
                    e,
                    mp,
                    labels@,
                    cluster_id,
                    #[trigger] neighbors@[t].index as int,
                ) by {
                    let x = neighbors@[t].index as int;
                    assert(neighbor_ok(
                        dataset@,
                        &dataset@[index as int],
                        m,
                        neighbors@[t],
                    ));
                    assert(near(dataset@, m, e, index as int, x));
                }
                assert forall|x: int|
                    0 <= x < labels@.len() && #[trigger] labels@[x] is Assigned && !is_core(
                        dataset@,
                        m,
                        e,
                        mp,
                        x,
                    ) implies backed(
                        dataset@,
                        m,
                        e,
                        mp,
                        labels@,
                        x,
                    ) || (labels@[x] == Label::Assigned(
                    cluster_id,
                ) && witnessed(dataset@, m, e, mp, labels@, cluster_id, x)) by {
                    assert(lm[x] == labels@[x]);
                    assert(lm[x] is Assigned);
                    let y = choose|y: int|
                        #![trigger near(dataset@, m, e, y, x)]
                        0 <= y < lm.len() && is_core(
                            dataset@,
                            m,
                            e,
                            mp,
                            y,
                        ) && near(dataset@, m, e, y, x)
                            && lm[y] == lm[x];
                    assert(near(dataset@, m, e, y, x));
                    assert(labels@[y] == lm[y]);
                }
            }
            let ghost lx = labels@;
            proof {
                assert forall|t: int| 0 <= t < neighbors@.len() implies near(
                    dataset@,
                    nns.spec_metric(),
                    params.epsilon as int,
                    index as int,
                    #[trigger] neighbors@[t].index as int,
                ) by {
                    assert(neighbor_ok(dataset@, &dataset@[index as int], nns.spec_metric(), neighbors@[t]));
                }
                assert forall|j: int| 0 <= j < labels@.len() implies #[trigger] labels@[j] != Label::Assigned(
                    cluster_id,
                ) by {
                    if labels@[j] != lm[j] {
                        assert(labels@[j] == Label::Marked);
                    }
                }
            }
            Self::expand_cluster(cluster_id, dataset, params, nns, neighbors, labels, Ghost(index as int));
            proof {
                assert forall|c: int| 0 <= c < cluster_id + 1 implies #[trigger] has_core(
                    dataset@, nns.spec_metric(), params.epsilon as int, params.min_points as int,
                    labels@,
                    c,
                ) by {
                    if c < cluster_id {
                        assert(has_core(
                            dataset@,
                            nns.spec_metric(),
                            params.epsilon as int,
                            params.min_points as int,
                            lm,
                            c,
                        ));
                        let y = choose|y: int|
                            0 <= y < lm.len() && is_core(
                                dataset@,
                                nns.spec_metric(),
                                params.epsilon as int,
                                params.min_points as int,
                                y,
                            ) && #[trigger] lm[y]
                                == Label::Assigned(c as usize);
                        assert(lx[y] == lm[y]);
                        assert(labels@[y] == lx[y]);
                    } else {
                        assert(lx[index as int] == Label::Marked);
                        assert(labels@[index as int] == Label::Assigned(cluster_id));
                    }
                }
            }
            proof {
                let m = nns.spec_metric();
                let e = params.epsilon as int;
                let mp = params.min_points as int;
                assert forall|j: int|
                    0 <= j < n && lm[j] is Assigned && is_core(dataset@, m, e, mp, j) implies #[trigger] labels@[j]
                        == lm[j] by {
                    assert(lx[j] == lm[j]);
                }
                lemma_order_stable(dataset@, m, e, mp, lm, labels@, seeds);
                assert forall|j: int|
                    0 <= j < index && is_core(dataset@, m, e, mp, j) implies #[trigger] labels@[j] is Assigned
                        && labels@[j]->Assigned_0 < seeds.len() by {
                    assert(lm[j] != Label::Undefined);
                    assert(lm[j] != Label::Marked);
                    assert(lm[j] is Assigned);
                    assert(lx[j] == lm[j]);
                }
                lemma_order_push(dataset@, m, e, mp, labels@, seeds, index as int);
                }
        proof {
            let t = seeds.push(index as int);
            assert forall|x: int|
                0 <= x < labels@.len() && #[trigger] labels@[x] is Assigned && is_core(dataset@, nns.spec_metric(), params.epsilon as int, params.min_points as int, x)
                    implies chained(dataset@, nns.spec_metric(), params.epsilon as int, params.min_points as int, t[labels@[x]->Assigned_0 as int], x) by {
                if labels@[x] == Label::Assigned(cluster_id) {
                    assert(t[cluster_id as int] == index);
                } else {
                    assert(labels@[x] == lx[x]);
                    assert(lm[x] == lx[x]);
                    assert(t[labels@[x]->Assigned_0 as int] == seeds[labels@[x]->Assigned_0 as int]);
                }
            }
        }
        Ghost(seeds.push(index as int))
    }

    /// Cluster the dataset.
    pub fn fit<D: DistanceMeasure>(dataset: &Vec<P>, params: &Params<D>) -> (r: Self)
        requires
            dataset_ok(dataset@),
            params.min_points >= 1,
            params.epsilon > 0,
        ensures
            r.is_clustering_of(
                dataset@,
                params.distance.spec_metric(),
                params.epsilon as int,
                params.min_points as int,
            ),
    {
        let n = dataset.len();
        if n == 0 {
            let r = DBSCAN {
                centroids: Vec::new(),
                membership: Vec::new(),
                outliers: Vec::new(),
                labels: Vec::new(),
            };
            assert(r.spec_membership() =~= Seq::empty());
            assert(discovered_in_order(
                dataset@,
                params.distance.spec_metric(),
                params.epsilon as int,
                params.min_points as int,
                r.spec_labels(),
                Seq::<int>::empty(),
            ));
            return r;
        }
        let nns = KDTree::new(dataset, &params.distance);
        let mut labels: Vec<Label> = vec![Label::Undefined; n];
        let mut cluster_id: usize = 0;
        let mut index: usize = 0;
        let ghost mut seeds: Seq<int> = Seq::empty();
        while index < n
            invariant
                nns.wf(),
                nns.data() == dataset@,
                dataset_ok(dataset@),
                n == dataset@.len(),
                params.epsilon > 0,
                params.min_points >= 1,
                nns.spec_metric() == params.distance.spec_metric(),
                progress(dataset@, nns.spec_metric(), params.epsilon as int, params.min_points as int, labels@, cluster_id as int, seeds, index as int),
            decreases n - index,
        {
            if labels[index].is_undefined() {
                proof {
                    assert(point_ok(&dataset@[index as int]));
                }
                let neighbors = nns.search_radius(&dataset[index], params.epsilon);
                if neighbors.len() < params.min_points {
                    Self::mark_outlier(index, cluster_id, dataset, params, &nns, &neighbors, &mut labels, Ghost(seeds));
                } else {
                    let g = Self::start_cluster(
                        index,
                        cluster_id,
                        dataset,
                        params,
                        &nns,
                        &neighbors,
                        &mut labels,
                        Ghost(seeds),
                    );
                    proof {
                        seeds = g@;
                    }
                    cluster_id = cluster_id + 1;
                }
            }
            index = index + 1;
        }
        let mut membership: Vec<Vec<usize>> = Vec::new();
        let mut centroids: Vec<P> = Vec::new();
        let mut c: usize = 0;
        while c < cluster_id
            invariant
                n == dataset@.len(),
                n > 0,
                dataset_ok(dataset@),
                labels@.len() == n,
                c <= cluster_id,
                membership@.len() == c,
                centroids@.len() == c,
                forall|t: int| 0 <= t < c ==> point_ok(#[trigger] &centroids@[t]),
                forall|t: int|
                    #![trigger membership@[t]]
                    0 <= t < c ==> lists_label(
                        labels@,
                        membership@[t]@,
                        Label::Assigned(t as usize),
                    )
                        && membership@[t]@.len() == count_label(
                            labels@,
                            Label::Assigned(t as usize),
                        ),
                forall|t: int, a: int|
                    #![trigger centroids@[t].coords()[a]]
                    0 <= t < c && 0 <= a < P::spec_dim() ==> centroids@[t].coords()[a] == coord_mean(
                        dataset@,
                        membership@[t]@,
                        a,
                    ),
            decreases cluster_id - c,
        {
            let members = collect_label(&labels, Label::Assigned(c));
            let centroid = mean_point(dataset, &members);
            membership.push(members);
            centroids.push(centroid);
            c = c + 1;
        }
        let outliers = collect_label(&labels, Label::Outlier);
        let r = DBSCAN { centroids, membership, outliers, labels };
        proof {
            assert(r.spec_labels() == r.labels@);
            assert forall|x: int, y: int|
                #![trigger r.spec_labels()[x], r.spec_labels()[y]]
                0 <= x < n && 0 <= y < n && is_core(dataset@, params.distance.spec_metric(), params.epsilon as int, params.min_points as int, x) && is_core(dataset@, params.distance.spec_metric(), params.epsilon as int, params.min_points as int, y)
                    && r.spec_labels()[x] is Assigned && r.spec_labels()[x] == r.spec_labels()[y] implies chained(
                dataset@, params.distance.spec_metric(), params.epsilon as int, params.min_points as int,
                x,
                y,
            ) by {
                let sd = seeds[r.labels@[x]->Assigned_0 as int];
                assert(r.labels@[x] is Assigned);
                assert(r.labels@[y] is Assigned);
                assert(chained(dataset@, params.distance.spec_metric(), params.epsilon as int, params.min_points as int, sd, x));
                assert(chained(dataset@, params.distance.spec_metric(), params.epsilon as int, params.min_points as int, sd, y));
                lemma_chain_reverse(dataset@, params.distance.spec_metric(), params.epsilon as int, params.min_points as int, sd, x);
                lemma_chain_concat(dataset@, params.distance.spec_metric(), params.epsilon as int, params.min_points as int, x, sd, y);
            }
            assert(seeds.len() == r.spec_membership().len() && discovered_in_order(
                dataset@,
                params.distance.spec_metric(),
                params.epsilon as int,
                params.min_points as int,
                r.spec_labels(),
                seeds,
            ));
            assert forall|x: int| 0 <= x < n implies (#[trigger] r.labels@[x] is Outlier || (r.labels@[x] is Assigned
                && r.labels@[x]->Assigned_0 < cluster_id)) by {}
            assert forall|c: int|
                0 <= c < cluster_id implies #[trigger] r.spec_membership()[c] == r.membership@[c]@ by {}
        }
        r
    }

    /// Return a set of centroid, by cluster id.
    pub fn centroids(&self) -> (r: Vec<P>)
        ensures
            r@.len() == self.spec_centroids().len(),
            forall|c: int|
                0 <= c < r@.len() ==> #[trigger] r@[c].coords() == self.spec_centroids()[c].coords(),
    {
        let mut r: Vec<P> = Vec::new();
        let mut c: usize = 0;
        while c < self.centroids.len()
            invariant
                c <= self.centroids@.len(),
                r@.len() == c,
                forall|t: int| 0 <= t < c ==> #[trigger] r@[t].coords() == self.centroids@[t].coords(),
            decreases self.centroids@.len() - c,
        {
            let v = self.centroids[c].to_vec();
            proof {
                self.centroids@[c as int].lemma_dim();
            }
            r.push(P::from_coords(&v));
            c = c + 1;
        }
        r
    }

    /// Return the number of clusters.
    pub fn cluster_count(&self) -> (r: usize)
        ensures
            r == self.spec_membership().len(),
    {
        self.membership.len()
    }

    /// Count the number of assigned to the given cluster ID.
    pub fn count_at(&self, cluster_id: usize) -> (r: usize)
        ensures
            cluster_id < self.spec_membership().len() ==> r == self.spec_membership()[cluster_id as int].len(),
            cluster_id >= self.spec_membership().len() ==> r == 0,
    {
        if cluster_id < self.membership.len() {
            self.membership[cluster_id].len()
        } else {
            0
        }
    }

    /// Return a set of indices of outliers.
    pub fn outliers(&self) -> (r: Vec<usize>)
        ensures
            r@ == self.spec_outliers(),
    {
        let mut r: Vec<usize> = Vec::new();
        let mut j: usize = 0;
        while j < self.outliers.len()
            invariant
                j <= self.outliers@.len(),
                r@ == self.outliers@.subrange(0, j as int),
            decreases self.outliers@.len() - j,
        {
            r.push(self.outliers[j]);
            j = j + 1;
            assert(r@ =~= self.outliers@.subrange(0, j as int));
        }
        assert(r@ =~= self.outliers@);
        r
    }
}

/// Each point of the dataset is in exactly one place: in the membership of
/// one cluster or among the outliers; no point is left queued.
pub proof fn lemma_fit_partitions<P: Point>(r: &DBSCAN<P>, data: Seq<P>)
    requires
        r.partitions(data),
    ensures
        forall|x: int| 0 <= x < data.len() ==> #[trigger] r.spec_labels()[x] != Label::Marked,
        forall|c1: int, c2: int, x: usize|
            0 <= c1 < c2 < r.spec_membership().len() ==> !(#[trigger] r.spec_membership()[c1].contains(x)
                && #[trigger] r.spec_membership()[c2].contains(x)),
        forall|c: int, x: usize|
            0 <= c < r.spec_membership().len() ==> !(#[trigger] r.spec_membership()[c].contains(x)
                && #[trigger] r.spec_outliers().contains(x)),
        forall|x: usize|
            (x < data.len()) <==> (#[trigger] r.spec_outliers().contains(x) || exists|c: int|
                0 <= c < r.spec_membership().len() && #[trigger] r.spec_membership()[c].contains(x)),
{
    let labels = r.spec_labels();
    let ms = r.spec_membership();
    let os = r.spec_outliers();
    assert forall|c1: int, c2: int, x: usize|
        0 <= c1 < c2 < ms.len() implies !(#[trigger] ms[c1].contains(x) && #[trigger] ms[c2].contains(
        x,
    )) by {
        if ms[c1].contains(x) && ms[c2].contains(x) {
            assert(lists_label(labels, ms[c1], Label::Assigned(c1 as usize)));
            assert(lists_label(labels, ms[c2], Label::Assigned(c2 as usize)));
            let j1 = choose|j: int| 0 <= j < ms[c1].len() && ms[c1][j] == x;
            let j2 = choose|j: int| 0 <= j < ms[c2].len() && ms[c2][j] == x;
            assert(x < labels.len());
            assert(labels[x as int] == Label::Assigned(c1 as usize));
            assert(labels[x as int] == Label::Assigned(c2 as usize));
            assert(ms.len() == r.membership@.len());
        }
    }
    assert forall|c: int, x: usize|
        0 <= c < ms.len() implies !(#[trigger] ms[c].contains(x) && #[trigger] os.contains(x)) by {
        if ms[c].contains(x) && os.contains(x) {
            assert(lists_label(labels, ms[c], Label::Assigned(c as usize)));
            let j1 = choose|j: int| 0 <= j < ms[c].len() && ms[c][j] == x;
            let j2 = choose|j: int| 0 <= j < os.len() && os[j] == x;
            assert(labels[x as int] == Label::Outlier);
        }
    }
    assert forall|x: usize|
        (x < data.len()) <==> (#[trigger] os.contains(x) || exists|c: int|
            0 <= c < ms.len() && #[trigger] ms[c].contains(x)) by {
        if x < data.len() {
            if labels[x as int] is Outlier {
                let j = choose|j: int| 0 <= j < os.len() && os[j] == x;
                assert(os.contains(x));
            } else {
                let c = labels[x as int]->Assigned_0 as int;
                assert(lists_label(labels, ms[c], Label::Assigned(c as usize)));
                let j = choose|j: int| 0 <= j < ms[c].len() && ms[c][j] == x;
                assert(ms[c].contains(x));
            }
        }
        if os.contains(x) {
            let j = choose|j: int| 0 <= j < os.len() && os[j] == x;
        }
        if exists|c: int| 0 <= c < ms.len() && #[trigger] ms[c].contains(x) {
            let c = choose|c: int| 0 <= c < ms.len() && #[trigger] ms[c].contains(x);
            assert(lists_label(labels, ms[c], Label::Assigned(c as usize)));
            let j = choose|j: int| 0 <= j < ms[c].len() && ms[c][j] == x;
        }
    }
}

} // verus!
