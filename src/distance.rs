//! Euclidean and squared-Euclidean distance over fixed-point points.
//!
//! Distances are decided exactly on the integer sum of squared coordinate
//! differences (the *raw* distance, in squared steps). A radius is compared
//! against that sum without rounding; only the reported distance is rounded
//! down to a whole step.
use vstd::prelude::*;
use crate::point::{Point, UNIT, coord_ok, point_ok};

verus! {

/// Sum of squared differences over the first `n` axes.
pub open spec fn sq_dist_upto(a: Seq<i64>, b: Seq<i64>, n: nat) -> int
    decreases n,
{
    if n == 0 {
        0
    } else {
        sq_dist_upto(a, b, (n - 1) as nat) + (a[n - 1] - b[n - 1]) * (a[n - 1] - b[n - 1])
    }
}

/// Exact squared Euclidean distance between two coordinate sequences.
pub open spec fn sq_dist(a: Seq<i64>, b: Seq<i64>) -> int {
    sq_dist_upto(a, b, a.len())
}

/// The largest integer whose square does not exceed `x`.
pub open spec fn is_isqrt(x: int, r: int) -> bool {
    0 <= r && r * r <= x < (r + 1) * (r + 1)
}

/// The raw distance is never negative.
pub proof fn lemma_sq_dist_nonneg(a: Seq<i64>, b: Seq<i64>, n: nat)
    ensures
        sq_dist_upto(a, b, n) >= 0,
    decreases n,
{
    if n > 0 {
        lemma_sq_dist_nonneg(a, b, (n - 1) as nat);
        let d = a[n - 1] - b[n - 1];
        assert(d * d >= 0) by (nonlinear_arith);
    }
}

/// The raw distance is at least the squared difference on any one axis.
pub proof fn lemma_sq_dist_axis(a: Seq<i64>, b: Seq<i64>, n: nat, axis: int)
    requires
        0 <= axis < n,
    ensures
        sq_dist_upto(a, b, n) >= (a[axis] - b[axis]) * (a[axis] - b[axis]),
    decreases n,
{
    let d = a[n - 1] - b[n - 1];
    assert(d * d >= 0) by (nonlinear_arith);
    if axis < n - 1 {
        lemma_sq_dist_axis(a, b, (n - 1) as nat, axis);
    } else {
        lemma_sq_dist_nonneg(a, b, (n - 1) as nat);
    }
}

/// The raw distance is symmetric.
pub proof fn lemma_sq_dist_symmetric(a: Seq<i64>, b: Seq<i64>, n: nat)
    ensures
        sq_dist_upto(a, b, n) == sq_dist_upto(b, a, n),
    decreases n,
{
    if n > 0 {
        lemma_sq_dist_symmetric(a, b, (n - 1) as nat);
        let d = a[n - 1] - b[n - 1];
        assert(d * d == (-d) * (-d)) by (nonlinear_arith);
    }
}

/// A point is at raw distance zero from itself.
pub proof fn lemma_sq_dist_self(a: Seq<i64>, n: nat)
    ensures
        sq_dist_upto(a, a, n) == 0,
    decreases n,
{
    if n > 0 {
        lemma_sq_dist_self(a, (n - 1) as nat);
    }
}

/// Largest value of a raw distance between two accepted points.
pub open spec fn raw_limit() -> int {
    8 * axis_limit()
}

/// Largest squared difference on one axis between two accepted points.
pub open spec fn axis_limit() -> int {
    18_889_465_931_478_580_854_784
}

/// Compute the exact raw distance between two points.
pub fn raw_distance<P: Point>(a: &P, b: &P) -> (r: u128)
    requires
        point_ok(a),
        point_ok(b),
    ensures
        r == sq_dist(a.coords(), b.coords()),
        r <= raw_limit(),
{
    proof {
        a.lemma_dim();
        b.lemma_dim();
    }
    let d = a.dim();
    let mut sum: u128 = 0;
    let mut i: usize = 0;
    while i < d
        invariant
            d == P::spec_dim(),
            a.coords().len() == d,
            b.coords().len() == d,
            d <= 8,
            point_ok(a),
            point_ok(b),
            i <= d,
            sum == sq_dist_upto(a.coords(), b.coords(), i as nat),
            sum <= i * axis_limit(),
        decreases d - i,
    {
        let x = a.index(i);
        let y = b.index(i);
        assert(coord_ok(a.coords()[i as int]));
        assert(coord_ok(b.coords()[i as int]));
        let diff: i128 = x as i128 - y as i128;
        assert(diff * diff <= 18_889_465_931_478_580_854_784int) by (nonlinear_arith)
            requires
                -137_438_953_472int <= diff <= 137_438_953_472int,
        ;
        assert(diff * diff >= 0) by (nonlinear_arith);
        let sq: i128 = diff * diff;
        assert(sum + sq <= (i + 1) * axis_limit()) by (nonlinear_arith)
            requires
                sum <= i * axis_limit(),
                sq <= axis_limit(),
        ;
        assert((i + 1) * axis_limit() <= 8 * axis_limit()) by (nonlinear_arith)
            requires
                i + 1 <= 8,
                axis_limit() >= 0,
        ;
        sum = sum + sq as u128;
        i = i + 1;
    }
    assert(sum <= raw_limit()) by (nonlinear_arith)
        requires
            sum <= i * axis_limit(),
            i <= 8,
            axis_limit() >= 0,
    ;
    sum
}

/// Raw distances between accepted points are bounded by `raw_limit()`.
pub proof fn lemma_sq_dist_bounded<P: Point>(a: &P, b: &P)
    requires
        point_ok(a),
        point_ok(b),
    ensures
        sq_dist(a.coords(), b.coords()) <= raw_limit(),
{
    a.lemma_dim();
    b.lemma_dim();
    lemma_sq_dist_upto_bounded(a, b, a.coords().len());
    assert(a.coords().len() * axis_limit() <= 8 * axis_limit()) by (nonlinear_arith)
        requires
            a.coords().len() <= 8,
            axis_limit() >= 0,
    ;
}

proof fn lemma_sq_dist_upto_bounded<P: Point>(a: &P, b: &P, n: nat)
    requires
        point_ok(a),
        point_ok(b),
        n <= a.coords().len(),
        a.coords().len() == b.coords().len(),
    ensures
        sq_dist_upto(a.coords(), b.coords(), n) <= n * axis_limit(),
    decreases n,
{
    if n > 0 {
        lemma_sq_dist_upto_bounded(a, b, (n - 1) as nat);
        let d = a.coords()[n - 1] - b.coords()[n - 1];
        assert(coord_ok(a.coords()[n - 1]));
        assert(coord_ok(b.coords()[n - 1]));
        assert(d * d <= 18_889_465_931_478_580_854_784int) by (nonlinear_arith)
            requires
                -137_438_953_472int <= d <= 137_438_953_472int,
        ;
        assert((n - 1) * axis_limit() + axis_limit() == n * axis_limit()) by (nonlinear_arith);
    }
}

/// Integer square root, rounded down.
pub fn isqrt(x: u128) -> (r: u128)
    ensures
        is_isqrt(x as int, r as int),
{
    let mut lo: u128 = 0;
    let mut hi: u128 = 0x1_0000_0000_0000_0000;
    assert(hi * hi > x) by (nonlinear_arith)
        requires
            hi == 0x1_0000_0000_0000_0000u128,
            x <= u128::MAX,
    ;
    while hi - lo > 1
        invariant
            lo < hi <= 0x1_0000_0000_0000_0000u128,
            lo * lo <= x,
            x < hi * hi,
        decreases hi - lo,
    {
        let mid = lo + (hi - lo) / 2;
        assert(mid * mid <= u128::MAX) by (nonlinear_arith)
            requires
                mid < 0x1_0000_0000_0000_0000u128,
        ;
        if mid * mid <= x {
            lo = mid;
        } else {
            hi = mid;
        }
    }
    assert(hi == lo + 1);
    lo
}

/// Distance metric enumerated type.
#[derive(Debug, Clone, Copy, PartialEq, Eq)]
pub enum DistanceMetric {
    /// Euclidean distance measure.
    Euclidean,
    /// Squared euclidean distance measure.
    SquaredEuclidean,
}

impl DistanceMetric {
    /// Whether a point at the given raw distance lies within the radius.
    ///
    /// A Euclidean radius `r` (in steps) admits raw distances up to `r * r`; a
    /// squared radius `r` (in steps of a squared unit) admits raw distances up
    /// to `r * UNIT`. A negative radius admits nothing.
    pub open spec fn spec_within(self, raw: int, radius: int) -> bool {
        &&& radius >= 0
        &&& match self {
            DistanceMetric::Euclidean => raw <= radius * radius,
            DistanceMetric::SquaredEuclidean => raw <= radius * (UNIT as int),
        }
    }

    /// The distance reported for a raw distance, rounded down to a step.
    pub open spec fn spec_reported(self, raw: int) -> int {
        match self {
            DistanceMetric::Euclidean => choose|r: int| is_isqrt(raw, r),
            DistanceMetric::SquaredEuclidean => raw / (UNIT as int),
        }
    }

    /// Return whether a raw distance lies within the radius.
    pub fn within(&self, raw: u128, radius: i64) -> (r: bool)
        ensures
            r == self.spec_within(raw as int, radius as int),
    {
        if radius < 0 {
            return false;
        }
        let rad = radius as u128;
        match self {
            DistanceMetric::Euclidean => {
                assert(rad * rad <= u128::MAX) by (nonlinear_arith)
                    requires
                        rad <= i64::MAX,
                ;
                raw <= rad * rad
            },
            DistanceMetric::SquaredEuclidean => {
                assert(rad * 1_000_000 <= u128::MAX) by (nonlinear_arith)
                    requires
                        rad <= i64::MAX,
                ;
                raw <= rad * (UNIT as u128)
            },
        }
    }

    /// Convert a raw distance to the reported distance.
    pub fn report(&self, raw: u128) -> (r: i64)
        requires
            raw <= raw_limit(),
        ensures
            r == self.spec_reported(raw as int),
            r >= 0,
            *self == DistanceMetric::Euclidean ==> is_isqrt(raw as int, r as int),
    {
        match self {
            DistanceMetric::Euclidean => {
                let s = isqrt(raw);
                if s > 0x80_0000_0000u128 {
                    assert(s * s > 0x80_0000_0000u128 * 0x80_0000_0000u128) by (nonlinear_arith)
                        requires
                            s > 0x80_0000_0000u128,
                    ;
                    assert(false);
                }
                proof {
                    lemma_isqrt_unique(raw as int, s as int);
                }
                s as i64
            },
            DistanceMetric::SquaredEuclidean => {
                let q = raw / (UNIT as u128);
                assert(q <= 151_115_727_451_828_646_838_272int / 1_000_000) by (nonlinear_arith)
                    requires
                        q == raw / 1_000_000u128,
                        raw <= 151_115_727_451_828_646_838_272int,
                ;
                q as i64
            },
        }
    }

    /// Compute the distance between two points.
    pub fn measure<P: Point>(&self, lhs: &P, rhs: &P) -> (r: i64)
        requires
            point_ok(lhs),
            point_ok(rhs),
        ensures
            r == self.spec_reported(sq_dist(lhs.coords(), rhs.coords())),
    {
        let raw = raw_distance(lhs, rhs);
        self.report(raw)
    }
}

/// A trait that names the metric a distance measure computes.
pub trait DistanceMeasure {
    /// The metric this measure stands for.
    spec fn spec_metric(&self) -> DistanceMetric;

    /// Return the metric this measure stands for.
    fn metric(&self) -> (r: DistanceMetric)
        ensures
            r == self.spec_metric(),
    ;
}

impl DistanceMeasure for DistanceMetric {
    open spec fn spec_metric(&self) -> DistanceMetric {
        *self
    }

    fn metric(&self) -> (r: DistanceMetric) {
        *self
    }
}

/// The integer square root is unique.
pub proof fn lemma_isqrt_unique(x: int, r: int)
    requires
        is_isqrt(x, r),
    ensures
        (choose|s: int| is_isqrt(x, s)) == r,
{
    let s = choose|s: int| is_isqrt(x, s);
    assert(is_isqrt(x, s));
    if s < r {
        assert((s + 1) * (s + 1) <= r * r) by (nonlinear_arith)
            requires
                0 <= s < r,
        ;
    } else if s > r {
        assert((r + 1) * (r + 1) <= s * s) by (nonlinear_arith)
            requires
                0 <= r < s,
        ;
    }
}

/// A distance for computing euclidean distance.
#[derive(Clone, Copy, Debug, PartialEq, Eq)]
pub struct EuclideanDistance;

impl DistanceMeasure for EuclideanDistance {
    open spec fn spec_metric(&self) -> DistanceMetric {
        DistanceMetric::Euclidean
    }

    fn metric(&self) -> (r: DistanceMetric) {
        DistanceMetric::Euclidean
    }
}

impl EuclideanDistance {
    /// Compute the Euclidean distance, rounded down to a step.
    pub fn measure<P: Point>(&self, lhs: &P, rhs: &P) -> (r: i64)
        requires
            point_ok(lhs),
            point_ok(rhs),
        ensures
            is_isqrt(sq_dist(lhs.coords(), rhs.coords()), r as int),
    {
        let raw = raw_distance(lhs, rhs);
        DistanceMetric::Euclidean.report(raw)
    }
}

/// A distance for computing squared euclidean distance.
#[derive(Clone, Copy, Debug, PartialEq, Eq)]
pub struct SquaredEuclideanDistance;

impl DistanceMeasure for SquaredEuclideanDistance {
    open spec fn spec_metric(&self) -> DistanceMetric {
        DistanceMetric::SquaredEuclidean
    }

    fn metric(&self) -> (r: DistanceMetric) {
        DistanceMetric::SquaredEuclidean
    }
}

impl SquaredEuclideanDistance {
    /// Compute the squared Euclidean distance, rounded down to a step.
    pub fn measure<P: Point>(&self, lhs: &P, rhs: &P) -> (r: i64)
        requires
            point_ok(lhs),
            point_ok(rhs),
        ensures
            r == sq_dist(lhs.coords(), rhs.coords()) / (UNIT as int),
    {
        let raw = raw_distance(lhs, rhs);
        DistanceMetric::SquaredEuclidean.report(raw)
    }
}

} // verus!
