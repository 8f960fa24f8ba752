//! A k-d tree over a borrowed dataset.
//!
//! The tree is laid out implicitly in a permutation of the dataset's indices:
//! the node of the range `[lo, hi)` of the permutation sits at its middle
//! position `lo + (hi - lo) / 2` and splits on axis `depth % dim`; the points
//! left of it are not greater on that axis, the points right of it not less.
use vstd::prelude::*;
use crate::distance::{
    DistanceMeasure,
    DistanceMetric,
    raw_distance,
    raw_limit,
    sq_dist,
    lemma_sq_dist_axis,
};
use crate::neighbor::{
    Neighbor,
    raw_to,
    key_lt,
    neighbor_ok,
    listed,
    is_top_k,
    is_radius_result,
};
use crate::point::{Point, point_ok, dataset_ok};

verus! {

/// Coordinate on `axis` of the point at position `p` of the permutation.
pub open spec fn key_at<P: Point>(data: Seq<P>, order: Seq<usize>, p: int, axis: int) -> int {
    data[order[p] as int].coords()[axis] as int
}

/// `order` is a permutation of `0..n` and `pos` its inverse.
pub open spec fn perm_ok(order: Seq<usize>, pos: Seq<int>, n: int) -> bool {
    &&& order.len() == n
    &&& pos.len() == n
    &&& forall|p: int| #![trigger order[p]] 0 <= p < n ==> order[p] < n && pos[order[p] as int] == p
    &&& forall|i: int| #![trigger pos[i]] 0 <= i < n ==> 0 <= pos[i] < n && order[pos[i]] == i
}

/// All keys of positions `[x, y)` are at most `t`.
pub open spec fn all_le<P: Point>(
    data: Seq<P>,
    order: Seq<usize>,
    x: int,
    y: int,
    axis: int,
    t: int,
) -> bool {
    forall|p: int| x <= p < y ==> #[trigger] key_at(data, order, p, axis) <= t
}

/// All keys of positions `[x, y)` are at least `t`.
pub open spec fn all_ge<P: Point>(
    data: Seq<P>,
    order: Seq<usize>,
    x: int,
    y: int,
    axis: int,
    t: int,
) -> bool {
    forall|p: int| x <= p < y ==> #[trigger] key_at(data, order, p, axis) >= t
}

/// The tree condition on the range `[lo, hi)` at the given depth.
pub open spec fn kd_ok<P: Point>(data: Seq<P>, order: Seq<usize>, lo: int, hi: int, depth: int) -> bool
    decreases hi - lo,
{
    if lo >= hi {
        true
    } else {
        let mid = lo + (hi - lo) / 2;
        let axis = depth % (P::spec_dim() as int);
        let pivot = key_at(data, order, mid, axis);
        &&& all_le(data, order, lo, mid, axis, pivot)
        &&& all_ge(data, order, mid + 1, hi, axis, pivot)
        &&& kd_ok(data, order, lo, mid, depth + 1)
        &&& kd_ok(data, order, mid + 1, hi, depth + 1)
    }
}

/// The tree condition on a range reads only the positions of that range.
proof fn lemma_kd_frame<P: Point>(
    data: Seq<P>,
    o1: Seq<usize>,
    o2: Seq<usize>,
    lo: int,
    hi: int,
    depth: int,
)
    requires
        kd_ok(data, o1, lo, hi, depth),
        forall|p: int| lo <= p < hi ==> o1[p] == o2[p],
    ensures
        kd_ok(data, o2, lo, hi, depth),
    decreases hi - lo,
{
    if lo < hi {
        let mid = lo + (hi - lo) / 2;
        let axis = depth % (P::spec_dim() as int);
        assert(key_at(data, o1, mid, axis) == key_at(data, o2, mid, axis));
        assert forall|p: int| lo <= p < hi implies key_at(data, o1, p, axis) == key_at(
            data,
            o2,
            p,
            axis,
        ) by {}
        lemma_kd_frame(data, o1, o2, lo, mid, depth + 1);
        lemma_kd_frame(data, o1, o2, mid + 1, hi, depth + 1);
    }
}

/// Exchange two positions of the permutation.
fn swap_entries(order: &mut Vec<usize>, a: usize, b: usize, Ghost(pos): Ghost<Seq<int>>) -> (new_pos:
    Ghost<Seq<int>>)
    requires
        perm_ok(old(order)@, pos, old(order)@.len() as int),
        a < old(order)@.len(),
        b < old(order)@.len(),
    ensures
        final(order)@.len() == old(order)@.len(),
        forall|p: int|
            #![trigger final(order)@[p]]
            0 <= p < old(order)@.len() ==> final(order)@[p] == if p == a {
                old(order)@[b as int]
            } else if p == b {
                old(order)@[a as int]
            } else {
                old(order)@[p]
            },
        perm_ok(final(order)@, new_pos@, old(order)@.len() as int),
        forall|i: int|
            #![trigger new_pos@[i]]
            0 <= i < pos.len() ==> new_pos@[i] == if pos[i] == a {
                b as int
            } else if pos[i] == b {
                a as int
            } else {
                pos[i]
            },
{
    let x = order[a];
    let y = order[b];
    order.set(a, y);
    order.set(b, x);
    let ghost np = pos.update(x as int, b as int).update(y as int, a as int);
    proof {
        let n = order@.len() as int;
        assert forall|i: int| 0 <= i < n implies np[i] == if pos[i] == a {
            b as int
        } else if pos[i] == b {
            a as int
        } else {
            pos[i]
        } by {}
        assert forall|p: int| #![trigger order@[p]] 0 <= p < n implies order@[p] < n && np[order@[p] as int]
            == p by {}
        assert forall|i: int| #![trigger np[i]] 0 <= i < n implies 0 <= np[i] < n && order@[np[i]] == i by {}
    }
    Ghost(np)
}

/// Partition the positions `[lo, hi)` so that `target` holds a key that no
/// key before it (within the range) exceeds and no key after it undercuts.
fn select<P: Point>(
    data: &Vec<P>,
    order: &mut Vec<usize>,
    lo: usize,
    hi: usize,
    target: usize,
    axis: usize,
    Ghost(pos): Ghost<Seq<int>>,
) -> (new_pos: Ghost<Seq<int>>)
    requires
        perm_ok(old(order)@, pos, data@.len() as int),
        lo <= target < hi <= old(order)@.len(),
        axis < P::spec_dim(),
    ensures
        perm_ok(final(order)@, new_pos@, data@.len() as int),
        forall|p: int|
            #![trigger final(order)@[p]]
            0 <= p < data@.len() && !(lo <= p < hi) ==> final(order)@[p] == old(order)@[p],
        forall|i: int|
            #![trigger new_pos@[i]]
            0 <= i < data@.len() ==> ((lo <= pos[i] < hi) == (lo <= new_pos@[i] < hi)),
        all_le(
            data@,
            final(order)@,
            lo as int,
            target as int,
            axis as int,
            key_at(data@, final(order)@, target as int, axis as int),
        ),
        all_ge(
            data@,
            final(order)@,
            target + 1,
            hi as int,
            axis as int,
            key_at(data@, final(order)@, target as int, axis as int),
        ),
{
    let ghost n = data@.len() as int;
    let ghost orig = order@;
    let ghost mut cur = pos;
    let ghost mut lo_t: int = i64::MIN as int;
    let ghost mut hi_t: int = i64::MAX as int;
    let mut l = lo;
    let mut h = hi;
    while h - l > 1
        invariant
            perm_ok(order@, cur, n),
            n == data@.len(),
            lo <= l <= target < h <= hi,
            hi <= n,
            axis < P::spec_dim(),
            forall|p: int|
                #![trigger order@[p]]
                0 <= p < n && !(lo <= p < hi) ==> order@[p] == orig[p],
            forall|i: int|
                #![trigger cur[i]]
                0 <= i < n ==> ((lo <= pos[i] < hi) == (lo <= cur[i] < hi)),
            all_le(data@, order@, lo as int, l as int, axis as int, lo_t),
            all_ge(data@, order@, l as int, hi as int, axis as int, lo_t),
            all_le(data@, order@, lo as int, h as int, axis as int, hi_t),
            all_ge(data@, order@, h as int, hi as int, axis as int, hi_t),
        decreases h - l,
    {
        let m = l + (h - l) / 2;
        let pv = data[order[m]].index(axis);
        let mut lt = l;
        let mut i = l;
        let mut gt = h;
        let ghost mut pp: int = m as int;
        let ghost l0 = l as int;
        let ghost h0 = h as int;
        while i < gt
            invariant
                perm_ok(order@, cur, n),
                n == data@.len(),
                lo <= l0 <= lt <= i <= gt <= h0 <= hi,
                hi <= n,
                l0 == l,
                h0 == h,
                l0 <= target < h0,
                axis < P::spec_dim(),
                lt <= pp < gt,
                key_at(data@, order@, pp, axis as int) == pv,
                forall|p: int|
                    #![trigger order@[p]]
                    0 <= p < n && !(lo <= p < hi) ==> order@[p] == orig[p],
                forall|q: int|
                    #![trigger cur[q]]
                    0 <= q < n ==> ((lo <= pos[q] < hi) == (lo <= cur[q] < hi)),
                all_le(data@, order@, lo as int, l0, axis as int, lo_t),
                all_ge(data@, order@, l0, hi as int, axis as int, lo_t),
                all_le(data@, order@, lo as int, h0, axis as int, hi_t),
                all_ge(data@, order@, h0, hi as int, axis as int, hi_t),
                all_le(data@, order@, l0, lt as int, axis as int, pv - 1),
                all_ge(data@, order@, lt as int, i as int, axis as int, pv as int),
                all_le(data@, order@, lt as int, i as int, axis as int, pv as int),
                all_ge(data@, order@, gt as int, h0, axis as int, pv + 1),
            decreases gt - i,
        {
            let kv = data[order[i]].index(axis);
            let ghost before = order@;
            if kv < pv {
                let g = swap_entries(order, lt, i, Ghost(cur));
                proof {
                    cur = g@;
                    if pp == lt as int {
                        pp = i as int;
                    }
                    assert forall|p: int| 0 <= p < n implies #[trigger] key_at(data@, order@, p, axis as int)
                        == if p == lt {
                        key_at(data@, before, i as int, axis as int)
                    } else if p == i {
                        key_at(data@, before, lt as int, axis as int)
                    } else {
                        key_at(data@, before, p, axis as int)
                    } by {}
                }
                lt = lt + 1;
                i = i + 1;
            } else if kv > pv {
                gt = gt - 1;
                let g = swap_entries(order, i, gt, Ghost(cur));
                proof {
                    cur = g@;
                    if pp == gt as int {
                        pp = i as int;
                    }
                    assert forall|p: int| 0 <= p < n implies #[trigger] key_at(data@, order@, p, axis as int)
                        == if p == i {
                        key_at(data@, before, gt as int, axis as int)
                    } else if p == gt {
                        key_at(data@, before, i as int, axis as int)
                    } else {
                        key_at(data@, before, p, axis as int)
                    } by {}
                }
            } else {
                i = i + 1;
            }
        }
        proof {
            assert(key_at(data@, order@, target as int, axis as int) >= lo_t);
            assert(key_at(data@, order@, target as int, axis as int) <= hi_t);
            assert(key_at(data@, order@, pp, axis as int) >= lo_t);
            assert(key_at(data@, order@, pp, axis as int) <= hi_t);
        }
        if target < lt {
            proof {
                hi_t = pv - 1;
            }
            h = lt;
        } else if target >= gt {
            proof {
                lo_t = pv + 1;
            }
            l = gt;
        } else {
            proof {
                lo_t = pv as int;
                hi_t = pv as int;
            }
            l = target;
            h = target + 1;
        }
    }
    assert(l == target);
    Ghost(cur)
}


/// Whether the candidate list holds the dataset index `i`.
pub open spec fn in_best(best: Seq<(usize, u128)>, i: int) -> bool {
    exists|j: int| 0 <= j < best.len() && best[j].0 == i
}

/// `best` holds the `k` nearest of the points of `covered`, nearest first,
/// each with its exact raw distance.
pub open spec fn top_so_far<P: Point>(
    data: Seq<P>,
    q: &P,
    k: int,
    best: Seq<(usize, u128)>,
    covered: Set<int>,
) -> bool {
    &&& best.len() <= k
    &&& forall|j: int|
        #![trigger best[j]]
        0 <= j < best.len() ==> {
            &&& best[j].0 < data.len()
            &&& best[j].1 == raw_to(data, q, best[j].0 as int)
            &&& covered.contains(best[j].0 as int)
        }
    &&& forall|a: int, b: int|
        #![trigger best[a], best[b]]
        0 <= a < b < best.len() ==> key_lt(
            best[a].1 as int,
            best[a].0 as int,
            best[b].1 as int,
            best[b].0 as int,
        )
    &&& forall|i: int|
        #![trigger covered.contains(i)]
        covered.contains(i) && !in_best(best, i) ==> {
            &&& 0 <= i < data.len()
            &&& best.len() == k
            &&& key_lt(best[k - 1].1 as int, best[k - 1].0 as int, raw_to(data, q, i), i)
        }
}

/// Offer one point to the candidate list.
pub(crate) fn offer<P: Point>(
    data: &Vec<P>,
    query: &P,
    k: usize,
    best: &mut Vec<(usize, u128)>,
    index: usize,
    raw: u128,
    Ghost(covered): Ghost<Set<int>>,
)
    requires
        k >= 1,
        top_so_far(data@, query, k as int, old(best)@, covered),
        index < data@.len(),
        raw == raw_to(data@, query, index as int),
    ensures
        top_so_far(data@, query, k as int, final(best)@, covered.insert(index as int)),
{
    let ghost b0 = best@;
    let n = best.len();
    let mut p: usize = 0;
    while p < n && !(raw < best[p].1 || (raw == best[p].1 && index < best[p].0))
        invariant
            n == best@.len(),
            best@ == b0,
            p <= n,
            top_so_far(data@, query, k as int, b0, covered),
            forall|j: int|
                #![trigger b0[j]]
                0 <= j < p ==> key_lt(b0[j].1 as int, b0[j].0 as int, raw as int, index as int),
        decreases n - p,
    {
        if best[p].0 == index {
            proof {
                let c2 = covered.insert(index as int);
                assert forall|i: int| #![trigger c2.contains(i)] c2.contains(i) && !in_best(b0, i) implies {
                    &&& 0 <= i < data@.len()
                    &&& b0.len() == k
                    &&& key_lt(b0[k - 1].1 as int, b0[k - 1].0 as int, raw_to(data@, query, i), i)
                } by {
                    if i == index {
                        assert(in_best(b0, i));
                    } else {
                        assert(covered.contains(i));
                    }
                }
            }
            return;
        }
        p = p + 1;
    }
    let ghost c2 = covered.insert(index as int);
    if p == n && n >= k {
        proof {
            assert forall|i: int| #![trigger c2.contains(i)] c2.contains(i) && !in_best(b0, i) implies {
                &&& 0 <= i < data@.len()
                &&& b0.len() == k
                &&& key_lt(b0[k - 1].1 as int, b0[k - 1].0 as int, raw_to(data@, query, i), i)
            } by {
                if i != index {
                    assert(covered.contains(i));
                } else {
                    assert(b0[k - 1] == b0[k - 1]);
                }
            }
        }
        return;
    }
    best.insert(p, (index, raw));
    let ghost b1 = best@;
    assert(b1 == b0.insert(p as int, (index, raw)));
    proof {
        assert forall|a: int, b: int|
            #![trigger b1[a], b1[b]]
            0 <= a < b < b1.len() implies key_lt(
            b1[a].1 as int,
            b1[a].0 as int,
            b1[b].1 as int,
            b1[b].0 as int,
        ) by {
            if a < p && b < p {
                assert(b0[a] == b1[a] && b0[b] == b1[b]);
            } else if a < p && b == p {
            } else if a < p && b > p {
                assert(b1[b] == b0[b - 1]);
                if b - 1 > p {
                    assert(key_lt(b0[p as int].1 as int, b0[p as int].0 as int, b0[b - 1].1 as int, b0[b - 1].0 as int));
                }
            } else if a == p {
                assert(b1[b] == b0[b - 1]);
                if b - 1 > p {
                    assert(key_lt(b0[p as int].1 as int, b0[p as int].0 as int, b0[b - 1].1 as int, b0[b - 1].0 as int));
                }
            } else {
                assert(b1[a] == b0[a - 1] && b1[b] == b0[b - 1]);
            }
        }
    }
    if best.len() > k {
        best.pop();
    }
    let ghost b2 = best@;
    proof {
        assert(b2.len() <= k);
        assert forall|j: int| #![trigger b2[j]] 0 <= j < b2.len() implies b2[j] == b1[j] by {}
        assert forall|j: int|
            #![trigger b2[j]]
            0 <= j < b2.len() implies {
            &&& b2[j].0 < data@.len()
            &&& b2[j].1 == raw_to(data@, query, b2[j].0 as int)
            &&& c2.contains(b2[j].0 as int)
        } by {
            assert(b2[j] == b1[j]);
            if j < p {
                assert(b1[j] == b0[j]);
            } else if j > p {
                assert(b1[j] == b0[j - 1]);
            }
        }
        assert forall|i: int| #![trigger c2.contains(i)] c2.contains(i) && !in_best(b2, i) implies {
            &&& 0 <= i < data@.len()
            &&& b2.len() == k
            &&& key_lt(b2[k - 1].1 as int, b2[k - 1].0 as int, raw_to(data@, query, i), i)
        } by {
            if i == index {
                assert(p < b2.len() ==> b2[p as int].0 == index);
                assert(p < b2.len());
            } else {
                assert(covered.contains(i));
                if in_best(b0, i) {
                    let j = choose|j: int| 0 <= j < b0.len() && b0[j].0 == i;
                    if j < p {
                        assert(b2[j] == b0[j]);
                    } else {
                        assert(b1[j + 1] == b0[j]);
                        if j + 1 < b2.len() {
                            assert(b2[j + 1] == b0[j]);
                        }
                        assert(j + 1 == k);
                        assert(b1.len() == k + 1);
                        if k - 1 > p {
                            assert(b2[k - 1] == b0[k - 2]);
                        }
                    }
                } else {
                    assert(b0.len() == k);
                    assert(b1.len() == k + 1);
                    if k - 1 > p {
                        assert(b2[k - 1] == b0[k - 2]);
                        assert(key_lt(b0[k - 2].1 as int, b0[k - 2].0 as int, b0[k - 1].1 as int, b0[k - 1].0 as int));
                    } else if k - 1 < p {
                        assert(b2[k - 1] == b0[k - 1]);
                    }
                }
            }
        }
    }
}

/// The points of positions `[lo, hi)` of the tree.
pub open spec fn range_set(pos: Seq<int>, n: int, lo: int, hi: int) -> Set<int> {
    Set::new(|i: int| 0 <= i < n && lo <= pos[i] < hi)
}

/// A point across the splitting plane is at least as far as the plane.
proof fn lemma_across<P: Point>(c: Seq<i64>, q: &P, axis: int, delta: int)
    requires
        c.len() == q.coords().len(),
        0 <= axis < c.len(),
        delta == q.coords()[axis] - c[axis] || (delta < 0 && c[axis] - q.coords()[axis] >= -delta)
            || (delta >= 0 && q.coords()[axis] - c[axis] >= delta),
    ensures
        sq_dist(c, q.coords()) >= delta * delta,
{
    lemma_sq_dist_axis(c, q.coords(), c.len(), axis);
    let e = c[axis] - q.coords()[axis];
    assert(e * e >= delta * delta) by (nonlinear_arith)
        requires
            e == -delta || (delta < 0 && e >= -delta) || (delta >= 0 && -e >= delta),
    ;
}

/// Raw distances between accepted points are within the bound.
proof fn lemma_raw_bound<P: Point>(a: &P, b: &P)
    requires
        point_ok(a),
        point_ok(b),
    ensures
        sq_dist(a.coords(), b.coords()) <= raw_limit(),
{
    crate::distance::lemma_sq_dist_bounded(a, b);
}

/// A nearest neighbor search using KDTree.
pub struct KDTree<'a, P: Point> {
    dataset: &'a Vec<P>,
    order: Vec<usize>,
    metric: DistanceMetric,
    pos: Ghost<Seq<int>>,
}

impl<'a, P: Point> KDTree<'a, P> {
    /// The dataset the tree indexes.
    pub closed spec fn data(&self) -> Seq<P> {
        self.dataset@
    }

    /// The metric the tree measures with.
    pub closed spec fn spec_metric(&self) -> DistanceMetric {
        self.metric
    }

    /// The tree's internal condition.
    pub closed spec fn wf(&self) -> bool {
        let n = self.dataset@.len() as int;
        &&& dataset_ok(self.dataset@)
        &&& perm_ok(self.order@, self.pos@, n)
        &&& kd_ok(self.dataset@, self.order@, 0, n, 0)
    }

    /// Build the subtree of the positions `[lo, hi)`.
    fn build_node(
        dataset: &Vec<P>,
        order: &mut Vec<usize>,
        lo: usize,
        hi: usize,
        depth: usize,
        Ghost(pos): Ghost<Seq<int>>,
    ) -> (new_pos: Ghost<Seq<int>>)
        requires
            perm_ok(old(order)@, pos, dataset@.len() as int),
            lo <= hi <= old(order)@.len(),
            depth + (hi - lo) <= old(order)@.len(),
        ensures
            perm_ok(final(order)@, new_pos@, dataset@.len() as int),
            forall|p: int|
                #![trigger final(order)@[p]]
                0 <= p < dataset@.len() && !(lo <= p < hi) ==> final(order)@[p] == old(order)@[p],
            forall|i: int|
                #![trigger new_pos@[i]]
                0 <= i < dataset@.len() ==> ((lo <= pos[i] < hi) == (lo <= new_pos@[i] < hi)),
            kd_ok(dataset@, final(order)@, lo as int, hi as int, depth as int),
        decreases hi - lo,
    {
        if lo >= hi {
            return Ghost(pos);
        }
        let ghost n = dataset@.len() as int;
        let ghost o0 = order@;
        proof {
            dataset@[order@[lo as int] as int].lemma_dim();
        }
        let axis = depth % dataset[order[lo]].dim();
        let mid = lo + (hi - lo) / 2;
        assert(depth + 1 <= order.len());
        let g1 = select(dataset, order, lo, hi, mid, axis, Ghost(pos));
        let ghost o1 = order@;
        let ghost pivot = key_at(dataset@, o1, mid as int, axis as int);
        let g2 = Self::build_node(dataset, order, lo, mid, depth + 1, g1);
        let ghost o2 = order@;
        let g3 = Self::build_node(dataset, order, mid + 1, hi, depth + 1, g2);
        let ghost o3 = order@;
        proof {
            let dd = P::spec_dim() as int;
            assert(axis as int == (depth as int) % dd);
            lemma_kd_frame(dataset@, o2, o3, lo as int, mid as int, depth + 1);
            assert(o3[mid as int] == o1[mid as int]);
            assert forall|p: int| lo <= p < mid implies #[trigger] key_at(dataset@, o3, p, axis as int)
                <= pivot by {
                assert(o2[p] == o3[p]);
                let v = o2[p] as int;
                assert(g2@[v] == p);
                let q1 = g1@[v];
                assert(lo <= q1 < mid);
                assert(o1[q1] as int == v);
                assert(key_at(dataset@, o1, q1, axis as int) <= pivot);
            }
            assert forall|p: int| mid + 1 <= p < hi implies #[trigger] key_at(dataset@, o3, p, axis as int)
                >= pivot by {
                let v = o3[p] as int;
                assert(g3@[v] == p);
                let q2 = g2@[v];
                assert(mid + 1 <= q2 < hi);
                assert(o2[q2] as int == v);
                assert(o1[q2] == o2[q2]);
                assert(g1@[v] == q2);
                assert(key_at(dataset@, o1, q2, axis as int) >= pivot);
            }
            assert(kd_ok(dataset@, o3, lo as int, hi as int, depth as int));
        }
        g3
    }

    /// Search the positions `[lo, hi)` for the `k` nearest points.
    fn search_recursively(
        &self,
        lo: usize,
        hi: usize,
        depth: usize,
        query: &P,
        k: usize,
        best: &mut Vec<(usize, u128)>,
        Ghost(covered): Ghost<Set<int>>,
    ) -> (new_covered: Ghost<Set<int>>)
        requires
            self.wf(),
            point_ok(query),
            k >= 1,
            lo <= hi <= self.dataset@.len(),
            depth + (hi - lo) <= self.dataset@.len(),
            kd_ok(self.dataset@, self.order@, lo as int, hi as int, depth as int),
            top_so_far(self.dataset@, query, k as int, old(best)@, covered),
        ensures
            top_so_far(self.dataset@, query, k as int, final(best)@, new_covered@),
            new_covered@ == covered.union(
                range_set(self.pos@, self.dataset@.len() as int, lo as int, hi as int),
            ),
        decreases hi - lo,
    {
        let ghost n = self.dataset@.len() as int;
        if lo >= hi {
            assert(range_set(self.pos@, n, lo as int, hi as int) =~= Set::empty());
            assert(covered.union(Set::empty()) =~= covered);
            return Ghost(covered);
        }
        let mid = lo + (hi - lo) / 2;
        let index = self.order[mid];
        let point = &self.dataset[index];
        proof {
            point.lemma_dim();
            query.lemma_dim();
            assert(point_ok(&self.dataset@[index as int]));
        }
        let raw = raw_distance(point, query);
        offer(self.dataset, query, k, best, index, raw, Ghost(covered));
        let ghost c1 = covered.insert(index as int);
        let axis = depth % point.dim();
        assert(depth + 1 <= self.dataset.len());
        let delta: i128 = query.index(axis) as i128 - point.index(axis) as i128;
        assert(delta * delta <= 0x10_0000_0000_0000_0000_0000i128) by (nonlinear_arith)
            requires
                -137_438_953_472i128 <= delta <= 137_438_953_472i128,
        ;
        assert(delta * delta >= 0) by (nonlinear_arith);
        let ax: u128 = (delta * delta) as u128;
        let ghost left = range_set(self.pos@, n, lo as int, mid as int);
        let ghost right = range_set(self.pos@, n, mid + 1, hi as int);
        let ghost whole = range_set(self.pos@, n, lo as int, hi as int);
        proof {
            assert(self.pos@[index as int] == mid);
            assert(whole =~= left.union(right).insert(index as int));
        }
        let (near_lo, near_hi, far_lo, far_hi) = if delta < 0 {
            (lo, mid, mid + 1, hi)
        } else {
            (mid + 1, hi, lo, mid)
        };
        let g1 = self.search_recursively(near_lo, near_hi, depth + 1, query, k, best, Ghost(c1));
        let ghost far = range_set(self.pos@, n, far_lo as int, far_hi as int);
        if best.len() < k || ax <= best[best.len() - 1].1 {
            let g2 = self.search_recursively(far_lo, far_hi, depth + 1, query, k, best, g1);
            proof {
                assert(g2@ =~= covered.union(whole));
            }
            g2
        } else {
            let ghost c3 = g1@.union(far);
            proof {
                let b = best@;
                let pivot = key_at(self.dataset@, self.order@, mid as int, axis as int);
                assert forall|i: int| #![trigger c3.contains(i)] c3.contains(i) && !in_best(b, i) implies {
                    &&& 0 <= i < n
                    &&& b.len() == k
                    &&& key_lt(b[k - 1].1 as int, b[k - 1].0 as int, raw_to(self.dataset@, query, i), i)
                } by {
                    if !g1@.contains(i) {
                        assert(far.contains(i));
                        let p = self.pos@[i];
                        assert(self.order@[p] as int == i);
                        let c = self.dataset@[i].coords();
                        self.dataset@[i].lemma_dim();
                        assert(key_at(self.dataset@, self.order@, p, axis as int) == c[axis as int]);
                        lemma_across(c, query, axis as int, delta as int);
                    }
                }
                assert(c3 =~= covered.union(whole));
            }
            Ghost(c3)
        }
    }

    /// Search the positions `[lo, hi)` for points within the radius.
    fn search_radius_recursively(
        &self,
        lo: usize,
        hi: usize,
        depth: usize,
        query: &P,
        radius: i64,
        results: &mut Vec<Neighbor>,
    )
        requires
            self.wf(),
            point_ok(query),
            lo <= hi <= self.dataset@.len(),
            depth + (hi - lo) <= self.dataset@.len(),
            kd_ok(self.dataset@, self.order@, lo as int, hi as int, depth as int),
        ensures
            final(results)@.len() >= old(results)@.len(),
            final(results)@.subrange(0, old(results)@.len() as int) == old(results)@,
            forall|j: int|
                #![trigger final(results)@[j]]
                old(results)@.len() <= j < final(results)@.len() ==> {
                    &&& neighbor_ok(self.dataset@, query, self.metric, final(results)@[j])
                    &&& self.metric.spec_within(
                        raw_to(self.dataset@, query, final(results)@[j].index as int),
                        radius as int,
                    )
                    &&& lo <= self.pos@[final(results)@[j].index as int] < hi
                },
            forall|a: int, b: int|
                #![trigger final(results)@[a], final(results)@[b]]
                old(results)@.len() <= a < b < final(results)@.len() ==> final(results)@[a].index
                    != final(results)@[b].index,
            forall|p: int|
                #![trigger self.order@[p]]
                lo <= p < hi && self.metric.spec_within(
                    raw_to(self.dataset@, query, self.order@[p] as int),
                    radius as int,
                ) ==> exists|j: int|
                    old(results)@.len() <= j < final(results)@.len() && final(results)@[j].index
                        == self.order@[p],
        decreases hi - lo,
    {
        let ghost r0 = results@;
        let ghost n = self.dataset@.len() as int;
        if lo >= hi {
            assert(results@.subrange(0, r0.len() as int) =~= r0);
            return;
        }
        let mid = lo + (hi - lo) / 2;
        let index = self.order[mid];
        let point = &self.dataset[index];
        proof {
            point.lemma_dim();
            query.lemma_dim();
            assert(point_ok(&self.dataset@[index as int]));
            assert(self.pos@[index as int] == mid);
        }
        let raw = raw_distance(point, query);
        if self.metric.within(raw, radius) {
            let d = self.metric.report(raw);
            results.push(Neighbor::new(index, d));
        }
        let ghost r1 = results@;
        let axis = depth % point.dim();
        assert(depth + 1 <= self.dataset.len());
        let delta: i128 = query.index(axis) as i128 - point.index(axis) as i128;
        assert(delta * delta <= 0x10_0000_0000_0000_0000_0000i128) by (nonlinear_arith)
            requires
                -137_438_953_472i128 <= delta <= 137_438_953_472i128,
        ;
        assert(delta * delta >= 0) by (nonlinear_arith);
        let ax: u128 = (delta * delta) as u128;
        if self.metric.within(ax, radius) {
            self.search_radius_recursively(lo, mid, depth + 1, query, radius, results);
            let ghost r2 = results@;
            self.search_radius_recursively(mid + 1, hi, depth + 1, query, radius, results);
            let ghost r3 = results@;
            proof {
                assert(r2.subrange(0, r1.len() as int) =~= r1);
                assert(r3.subrange(0, r2.len() as int) =~= r2);
                assert(r3.subrange(0, r0.len() as int) =~= r0) by {
                    assert(r1.subrange(0, r0.len() as int) =~= r0);
                }
                assert forall|j: int| #![trigger r3[j]] 0 <= j < r2.len() implies r3[j] == r2[j] by {
                    assert(r3.subrange(0, r2.len() as int)[j] == r3[j]);
                }
                assert forall|j: int| #![trigger r2[j]] 0 <= j < r1.len() implies r2[j] == r1[j] by {
                    assert(r2.subrange(0, r1.len() as int)[j] == r2[j]);
                }
                assert forall|p: int|
                    #![trigger self.order@[p]]
                    lo <= p < hi && self.metric.spec_within(
                        raw_to(self.dataset@, query, self.order@[p] as int),
                        radius as int,
                    ) implies exists|j: int|
                    r0.len() <= j < r3.len() && r3[j].index == self.order@[p] by {
                    if p < mid {
                        let j = choose|j: int| r1.len() <= j < r2.len() && r2[j].index == self.order@[p];
                        assert(r3[j] == r2[j]);
                    } else if p == mid {
                        assert(r3[r0.len() as int] == r1[r0.len() as int]);
                    } else {
                        let j = choose|j: int| r2.len() <= j < r3.len() && r3[j].index == self.order@[p];
                    }
                }
            }
        } else if delta < 0 {
            self.search_radius_recursively(lo, mid, depth + 1, query, radius, results);
            let ghost r2 = results@;
            proof {
                assert(r2.subrange(0, r1.len() as int) =~= r1);
                assert(r2.subrange(0, r0.len() as int) =~= r0) by {
                    assert(r1.subrange(0, r0.len() as int) =~= r0);
                }
                assert forall|j: int| #![trigger r2[j]] 0 <= j < r1.len() implies r2[j] == r1[j] by {
                    assert(r2.subrange(0, r1.len() as int)[j] == r2[j]);
                }
                assert forall|p: int|
                    #![trigger self.order@[p]]
                    lo <= p < hi && self.metric.spec_within(
                        raw_to(self.dataset@, query, self.order@[p] as int),
                        radius as int,
                    ) implies exists|j: int|
                    r0.len() <= j < r2.len() && r2[j].index == self.order@[p] by {
                    if p < mid {
                        let j = choose|j: int| r1.len() <= j < r2.len() && r2[j].index == self.order@[p];
                    } else if p == mid {
                        assert(r2[r0.len() as int] == r1[r0.len() as int]);
                    } else {
                        let i = self.order@[p] as int;
                        let c = self.dataset@[i].coords();
                        self.dataset@[i].lemma_dim();
                        assert(key_at(self.dataset@, self.order@, p, axis as int) == c[axis as int]);
                        assert(key_at(self.dataset@, self.order@, mid as int, axis as int)
                            == point.coords()[axis as int]);
                        lemma_across(c, query, axis as int, delta as int);
                    }
                }
            }
        } else {
            self.search_radius_recursively(mid + 1, hi, depth + 1, query, radius, results);
            let ghost r2 = results@;
            proof {
                assert(r2.subrange(0, r1.len() as int) =~= r1);
                assert(r2.subrange(0, r0.len() as int) =~= r0) by {
                    assert(r1.subrange(0, r0.len() as int) =~= r0);
                }
                assert forall|j: int| #![trigger r2[j]] 0 <= j < r1.len() implies r2[j] == r1[j] by {
                    assert(r2.subrange(0, r1.len() as int)[j] == r2[j]);
                }
                assert forall|p: int|
                    #![trigger self.order@[p]]
                    lo <= p < hi && self.metric.spec_within(
                        raw_to(self.dataset@, query, self.order@[p] as int),
                        radius as int,
                    ) implies exists|j: int|
                    r0.len() <= j < r2.len() && r2[j].index == self.order@[p] by {
                    if p > mid {
                        let j = choose|j: int| r1.len() <= j < r2.len() && r2[j].index == self.order@[p];
                    } else if p == mid {
                        assert(r2[r0.len() as int] == r1[r0.len() as int]);
                    } else {
                        let i = self.order@[p] as int;
                        let c = self.dataset@[i].coords();
                        self.dataset@[i].lemma_dim();
                        assert(key_at(self.dataset@, self.order@, p, axis as int) == c[axis as int]);
                        assert(key_at(self.dataset@, self.order@, mid as int, axis as int)
                            == point.coords()[axis as int]);
                        lemma_across(c, query, axis as int, delta as int);
                    }
                }
            }
        }
    }

    /// Search k-nearest neighbor points, nearest first; points at equal
    /// distance come by increasing index.
    pub fn search(&self, query: &P, k: usize) -> (r: Vec<Neighbor>)
        requires
            self.wf(),
            point_ok(query),
        ensures
            is_top_k(self.data(), query, self.spec_metric(), k as int, r@),
    {
        if k < 1 {
            return Vec::new();
        }
        let n = self.dataset.len();
        let mut best: Vec<(usize, u128)> = Vec::new();
        let g = self.search_recursively(0, n, 0, query, k, &mut best, Ghost(Set::empty()));
        let ghost all = range_set(self.pos@, n as int, 0, n as int);
        proof {
            assert forall|i: int| 0 <= i < n implies #[trigger] g@.contains(i) by {
                assert(all.contains(i));
            }
        }
        let mut neighbors: Vec<Neighbor> = Vec::new();
        let mut j: usize = 0;
        while j < best.len()
            invariant
                j <= best@.len(),
                neighbors@.len() == j,
                self.wf(),
                point_ok(query),
                top_so_far(self.dataset@, query, k as int, best@, g@),
                forall|t: int|
                    #![trigger neighbors@[t]]
                    0 <= t < j ==> neighbors@[t].index == best@[t].0 && neighbors@[t].distance
                        == self.metric.spec_reported(best@[t].1 as int),
            decreases best@.len() - j,
        {
            let (index, raw) = best[j];
            proof {
                assert(raw == raw_to(self.dataset@, query, index as int));
                let pt = self.dataset@[index as int];
                assert(point_ok(&pt));
                lemma_raw_bound(&pt, query);
            }
            let d = self.metric.report(raw);
            neighbors.push(Neighbor::new(index, d));
            j = j + 1;
        }
        proof {
            let ns = neighbors@;
            let b = best@;
            let data = self.dataset@;
            assert forall|t: int| #![trigger ns[t]] 0 <= t < ns.len() implies ns[t].index == b[t].0 by {}
            assert forall|i: int| #![trigger listed(ns, i)] listed(ns, i) <==> in_best(b, i) by {
                if listed(ns, i) {
                    let t = choose|t: int| 0 <= t < ns.len() && ns[t].index == i;
                    assert(b[t].0 == i);
                }
                if in_best(b, i) {
                    let t = choose|t: int| 0 <= t < b.len() && b[t].0 == i;
                    assert(ns[t].index == i);
                }
            }
            assert forall|t: int| 0 <= t < ns.len() implies neighbor_ok(data, query, self.metric, #[trigger] ns[t]) by {
                assert(b[t].1 == raw_to(data, query, b[t].0 as int));
            }
            assert forall|x: int, y: int|
                #![trigger ns[x], ns[y]]
                0 <= x < y < ns.len() implies key_lt(
                raw_to(data, query, ns[x].index as int),
                ns[x].index as int,
                raw_to(data, query, ns[y].index as int),
                ns[y].index as int,
            ) by {
                assert(b[x].1 == raw_to(data, query, b[x].0 as int));
                assert(b[y].1 == raw_to(data, query, b[y].0 as int));
                assert(key_lt(b[x].1 as int, b[x].0 as int, b[y].1 as int, b[y].0 as int));
            }
            assert forall|i: int| 0 <= i < data.len() && !#[trigger] listed(ns, i) implies ns.len() == k
                && (k > 0 ==> key_lt(
                raw_to(data, query, ns[k - 1].index as int),
                ns[k - 1].index as int,
                raw_to(data, query, i),
                i,
            )) by {
                assert(g@.contains(i));
                assert(!in_best(b, i));
                assert(b[k - 1].1 == raw_to(data, query, b[k - 1].0 as int));
            }
        }
        neighbors
    }

    /// Search nearest neighbor point.
    pub fn search_nearest(&self, query: &P) -> (r: Option<Neighbor>)
        requires
            self.wf(),
            point_ok(query),
        ensures
            self.data().len() == 0 ==> r.is_none(),
            self.data().len() > 0 ==> r.is_some() && is_top_k(
                self.data(),
                query,
                self.spec_metric(),
                1,
                seq![r.unwrap()],
            ),
    {
        let mut found = self.search(query, 1);
        let ghost ns = found@;
        proof {
            if self.dataset@.len() > 0 && ns.len() == 0 {
                assert(!listed(ns, 0));
            }
        }
        let r = found.pop();
        proof {
            if ns.len() == 1 {
                assert(ns =~= seq![r.unwrap()]);
            }
        }
        r
    }

    /// Search neighbor points within the given radius.
    pub fn search_radius(&self, query: &P, radius: i64) -> (r: Vec<Neighbor>)
        requires
            self.wf(),
            point_ok(query),
        ensures
            is_radius_result(self.data(), query, self.spec_metric(), radius as int, r@),
    {
        let mut results: Vec<Neighbor> = Vec::new();
        if radius < 0 {
            return results;
        }
        let n = self.dataset.len();
        self.search_radius_recursively(0, n, 0, query, radius, &mut results);
        proof {
            let ns = results@;
            assert forall|i: int|
                0 <= i < n && self.metric.spec_within(raw_to(self.dataset@, query, i), radius as int)
                    implies #[trigger] listed(ns, i) by {
                let p = self.pos@[i];
                assert(self.order@[p] as int == i);
            }
        }
        results
    }

    /// Create a new KDTree.
    pub fn new<D: DistanceMeasure>(dataset: &'a Vec<P>, distance: &D) -> (r: Self)
        requires
            dataset_ok(dataset@),
        ensures
            r.wf(),
            r.data() == dataset@,
            r.spec_metric() == distance.spec_metric(),
    {
        let n = dataset.len();
        let mut order: Vec<usize> = Vec::new();
        let mut i: usize = 0;
        while i < n
            invariant
                i <= n,
                n == dataset@.len(),
                order@.len() == i,
                forall|p: int| 0 <= p < i ==> order@[p] == p,
            decreases n - i,
        {
            order.push(i);
            i = i + 1;
        }
        let ghost pos = Seq::new(n as nat, |i: int| i);
        assert(perm_ok(order@, pos, n as int));
        let g = Self::build_node(dataset, &mut order, 0, n, 0, Ghost(pos));
        KDTree { dataset, order, metric: distance.metric(), pos: g }
    }
}

} // verus!
