//! Neighbour records and what a correct neighbour query returns.
use vstd::prelude::*;
use crate::distance::{DistanceMetric, sq_dist};
use crate::point::Point;
use crate::text::{decimal, fixed_text, push_decimal, push_fixed};
use vstd::string::*;

verus! {

/// A neighbor point.
#[derive(PartialEq, Eq, Clone, Copy, Hash, Debug)]
pub struct Neighbor {
    /// Index of the point in the dataset.
    pub index: usize,
    /// Distance from the query, in steps, rounded down.
    pub distance: i64,
}

impl Neighbor {
    /// Create a new neighbor point.
    pub fn new(index: usize, distance: i64) -> (r: Self)
        ensures
            r.index == index,
            r.distance == distance,
    {
        Neighbor { index, distance }
    }

    /// Return the text `Neighbor(index=i, distance=d)`.
    pub fn to_string(&self) -> (s: String)
        ensures
            s@ == seq!['N', 'e', 'i', 'g', 'h', 'b', 'o', 'r', '(', 'i', 'n', 'd', 'e', 'x', '=']
                + decimal(self.index as nat) + seq![
                ',',
                ' ',
                'd',
                'i',
                's',
                't',
                'a',
                'n',
                'c',
                'e',
                '=',
            ] + fixed_text(self.distance as int) + seq![')'],
    {
        proof {
            reveal_strlit("Neighbor(index=");
            reveal_strlit(", distance=");
            reveal_strlit(")");
        }
        let mut s = String::from_str("Neighbor(index=");
        push_decimal(&mut s, self.index as u64);
        s.append(", distance=");
        push_fixed(&mut s, self.distance);
        s.append(")");
        assert(s@ =~= seq!['N', 'e', 'i', 'g', 'h', 'b', 'o', 'r', '(', 'i', 'n', 'd', 'e', 'x', '=']
            + decimal(self.index as nat) + seq![
            ',',
            ' ',
            'd',
            'i',
            's',
            't',
            'a',
            'n',
            'c',
            'e',
            '=',
        ] + fixed_text(self.distance as int) + seq![')']);
        s
    }
}

/// Exact raw distance from the dataset's `i`-th point to the query.
pub open spec fn raw_to<P: Point>(data: Seq<P>, q: &P, i: int) -> int {
    sq_dist(data[i].coords(), q.coords())
}

/// The order of candidates: by raw distance, then by index.
pub open spec fn key_lt(r1: int, i1: int, r2: int, i2: int) -> bool {
    r1 < r2 || (r1 == r2 && i1 < i2)
}

/// A neighbour names a point of the dataset and reports its distance.
pub open spec fn neighbor_ok<P: Point>(
    data: Seq<P>,
    q: &P,
    metric: DistanceMetric,
    n: Neighbor,
) -> bool {
    &&& n.index < data.len()
    &&& n.distance == metric.spec_reported(raw_to(data, q, n.index as int))
}

/// Whether the dataset index `i` occurs in the neighbour list.
pub open spec fn listed(ns: Seq<Neighbor>, i: int) -> bool {
    exists|j: int| 0 <= j < ns.len() && ns[j].index == i
}

/// The candidates of the list come in strictly increasing order.
pub open spec fn ranked<P: Point>(data: Seq<P>, q: &P, ns: Seq<Neighbor>) -> bool {
    forall|a: int, b: int|
        #![trigger ns[a], ns[b]]
        0 <= a < b < ns.len() ==> key_lt(
            raw_to(data, q, ns[a].index as int),
            ns[a].index as int,
            raw_to(data, q, ns[b].index as int),
            ns[b].index as int,
        )
}

/// `ns` is the list of the `k` nearest points to `q`, nearest first, where
/// points at equal distance come by increasing index.
pub open spec fn is_top_k<P: Point>(
    data: Seq<P>,
    q: &P,
    metric: DistanceMetric,
    k: int,
    ns: Seq<Neighbor>,
) -> bool {
    &&& ns.len() <= k
    &&& forall|j: int| 0 <= j < ns.len() ==> neighbor_ok(data, q, metric, #[trigger] ns[j])
    &&& ranked(data, q, ns)
    &&& forall|i: int|
        0 <= i < data.len() && !#[trigger] listed(ns, i) ==> ns.len() == k && (k > 0
            ==> key_lt(
            raw_to(data, q, ns[k - 1].index as int),
            ns[k - 1].index as int,
            raw_to(data, q, i),
            i,
        ))
}

/// `ns` lists, once each, exactly the points within `radius` of `q`.
pub open spec fn is_radius_result<P: Point>(
    data: Seq<P>,
    q: &P,
    metric: DistanceMetric,
    radius: int,
    ns: Seq<Neighbor>,
) -> bool {
    &&& forall|j: int|
        0 <= j < ns.len() ==> neighbor_ok(data, q, metric, #[trigger] ns[j]) && metric.spec_within(
            raw_to(data, q, ns[j].index as int),
            radius,
        )
    &&& forall|a: int, b: int|
        #![trigger ns[a], ns[b]]
        0 <= a < b < ns.len() ==> ns[a].index != ns[b].index
    &&& forall|i: int|
        0 <= i < data.len() && metric.spec_within(raw_to(data, q, i), radius) ==> #[trigger] listed(
            ns,
            i,
        )
}

/// The indices that a neighbour list names.
pub open spec fn indices_of(ns: Seq<Neighbor>) -> Set<int> {
    Set::new(|i: int| listed(ns, i))
}

/// The points within `radius` of `q`.
pub open spec fn ball<P: Point>(data: Seq<P>, q: &P, metric: DistanceMetric, radius: int) -> Set<
    int,
> {
    Set::new(|i: int| 0 <= i < data.len() && metric.spec_within(raw_to(data, q, i), radius))
}

/// A radius query names exactly the set of points within the radius.
pub proof fn lemma_radius_is_ball<P: Point>(
    data: Seq<P>,
    q: &P,
    metric: DistanceMetric,
    radius: int,
    ns: Seq<Neighbor>,
)
    requires
        is_radius_result(data, q, metric, radius, ns),
    ensures
        indices_of(ns) == ball(data, q, metric, radius),
{
    assert forall|i: int| #[trigger] indices_of(ns).contains(i) implies ball(
        data,
        q,
        metric,
        radius,
    ).contains(i) by {
        let j = choose|j: int| 0 <= j < ns.len() && ns[j].index == i;
        assert(neighbor_ok(data, q, metric, ns[j]));
    }
    assert(indices_of(ns) =~= ball(data, q, metric, radius));
}

/// A radius query lists as many neighbours as there are points in the ball.
pub proof fn lemma_radius_len<P: Point>(
    data: Seq<P>,
    q: &P,
    metric: DistanceMetric,
    radius: int,
    ns: Seq<Neighbor>,
)
    requires
        is_radius_result(data, q, metric, radius, ns),
    ensures
        ns.len() == ball(data, q, metric, radius).len(),
{
    let idx = ns.map_values(|n: Neighbor| n.index as int);
    assert forall|a: int, b: int| 0 <= a < idx.len() && 0 <= b < idx.len() && a != b implies idx[a]
        != idx[b] by {
        if a < b {
            assert(ns[a].index != ns[b].index);
        } else {
            assert(ns[b].index != ns[a].index);
        }
    }
    assert(idx.no_duplicates());
    idx.unique_seq_to_set();
    lemma_radius_is_ball(data, q, metric, radius, ns);
    assert forall|i: int| idx.to_set().contains(i) <==> indices_of(ns).contains(i) by {
        if idx.to_set().contains(i) {
            let j = choose|j: int| 0 <= j < idx.len() && idx[j] == i;
            assert(ns[j].index == i);
        }
        if indices_of(ns).contains(i) {
            let j = choose|j: int| 0 <= j < ns.len() && ns[j].index == i;
            assert(idx[j] == i);
        }
    }
    assert(idx.to_set() =~= indices_of(ns));
}

/// The list of the `k` nearest points is unique: two lists that both meet
/// `is_top_k` for the same query are equal.
pub proof fn lemma_top_k_unique<P: Point>(
    data: Seq<P>,
    q: &P,
    metric: DistanceMetric,
    k: int,
    a: Seq<Neighbor>,
    b: Seq<Neighbor>,
)
    requires
        is_top_k(data, q, metric, k, a),
        is_top_k(data, q, metric, k, b),
    ensures
        a == b,
{
    lemma_top_k_prefix(data, q, metric, k, a, b);
    lemma_top_k_prefix(data, q, metric, k, b, a);
    lemma_top_k_short(data, q, metric, k, a, b);
    lemma_top_k_short(data, q, metric, k, b, a);
    assert(a =~= b);
}

/// Where two top-k lists both have a position, they hold the same neighbour.
proof fn lemma_top_k_prefix<P: Point>(
    data: Seq<P>,
    q: &P,
    metric: DistanceMetric,
    k: int,
    a: Seq<Neighbor>,
    b: Seq<Neighbor>,
)
    requires
        is_top_k(data, q, metric, k, a),
        is_top_k(data, q, metric, k, b),
    ensures
        forall|j: int| 0 <= j < a.len() && j < b.len() ==> a[j] == b[j],
{
    assert forall|j: int| 0 <= j < a.len() && j < b.len() implies a[j] == b[j] by {
        lemma_top_k_position(data, q, metric, k, a, b, j);
    }
}

/// Strong induction on the position.
proof fn lemma_top_k_position<P: Point>(
    data: Seq<P>,
    q: &P,
    metric: DistanceMetric,
    k: int,
    a: Seq<Neighbor>,
    b: Seq<Neighbor>,
    j: int,
)
    requires
        is_top_k(data, q, metric, k, a),
        is_top_k(data, q, metric, k, b),
        0 <= j < a.len(),
        j < b.len(),
    ensures
        a[j] == b[j],
    decreases j,
{
    assert forall|p: int| 0 <= p < j implies a[p] == b[p] by {
        lemma_top_k_position(data, q, metric, k, a, b, p);
    }
    lemma_top_k_position_step(data, q, metric, k, a, b, j);
    lemma_top_k_position_step(data, q, metric, k, b, a, j);
    let x = a[j];
    let y = b[j];
    assert(neighbor_ok(data, q, metric, x));
    assert(neighbor_ok(data, q, metric, y));
}

/// Given equal prefixes, `a[j]` does not come after `b[j]`.
proof fn lemma_top_k_position_step<P: Point>(
    data: Seq<P>,
    q: &P,
    metric: DistanceMetric,
    k: int,
    a: Seq<Neighbor>,
    b: Seq<Neighbor>,
    j: int,
)
    requires
        is_top_k(data, q, metric, k, a),
        is_top_k(data, q, metric, k, b),
        0 <= j < a.len(),
        j < b.len(),
        forall|p: int| 0 <= p < j ==> a[p] == b[p],
    ensures
        !key_lt(
            raw_to(data, q, b[j].index as int),
            b[j].index as int,
            raw_to(data, q, a[j].index as int),
            a[j].index as int,
        ),
{
    let x = a[j].index as int;
    let y = b[j].index as int;
    if key_lt(raw_to(data, q, y), y, raw_to(data, q, x), x) {
        assert(neighbor_ok(data, q, metric, b[j]));
        if listed(a, y) {
            let p = choose|p: int| 0 <= p < a.len() && a[p].index == y;
            if p < j {
                assert(a[p] == b[p]);
                assert(key_lt(
                    raw_to(data, q, b[p].index as int),
                    b[p].index as int,
                    raw_to(data, q, b[j].index as int),
                    b[j].index as int,
                ));
            } else if p > j {
                assert(key_lt(
                    raw_to(data, q, a[j].index as int),
                    a[j].index as int,
                    raw_to(data, q, a[p].index as int),
                    a[p].index as int,
                ));
            }
        } else {
            assert(a.len() == k);
            if j < k - 1 {
                assert(key_lt(
                    raw_to(data, q, a[j].index as int),
                    a[j].index as int,
                    raw_to(data, q, a[k - 1].index as int),
                    a[k - 1].index as int,
                ));
            }
        }
    }
}

/// A top-k list cannot be shorter than another one.
proof fn lemma_top_k_short<P: Point>(
    data: Seq<P>,
    q: &P,
    metric: DistanceMetric,
    k: int,
    a: Seq<Neighbor>,
    b: Seq<Neighbor>,
)
    requires
        is_top_k(data, q, metric, k, a),
        is_top_k(data, q, metric, k, b),
        forall|j: int| 0 <= j < a.len() && j < b.len() ==> a[j] == b[j],
    ensures
        a.len() >= b.len(),
{
    if a.len() >= b.len() {
        return;
    }
    let j = a.len() as int;
    let y = b[j].index as int;
    assert(neighbor_ok(data, q, metric, b[j]));
    if listed(a, y) {
        let p = choose|p: int| 0 <= p < a.len() && a[p].index == y;
        assert(a[p] == b[p]);
        assert(key_lt(
            raw_to(data, q, b[p].index as int),
            b[p].index as int,
            raw_to(data, q, b[j].index as int),
            b[j].index as int,
        ));
    } else {
        assert(a.len() == k);
    }
}

} // verus!
