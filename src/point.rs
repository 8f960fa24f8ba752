//! Fixed-dimension points with fixed-point coordinates.
//!
//! A coordinate is an `i64` counting millionths of a unit, so `1_500_000`
//! stands for `1.5`.
use vstd::prelude::*;
use vstd::string::*;
use crate::number::floor_div;
use crate::text::{coord_text, push_coord};

verus! {

/// Number of steps in one unit of a fixed-point coordinate.
pub const UNIT: i64 = 1_000_000;

/// Largest magnitude of a coordinate that distance computations accept.
pub const COORD_LIMIT: i64 = 68_719_476_736;

/// Whether a coordinate lies within the accepted magnitude.
pub open spec fn coord_ok(v: i64) -> bool {
    -COORD_LIMIT <= v <= COORD_LIMIT
}

/// A point in a space of a fixed number of dimensions.
pub trait Point: Sized {
    /// The coordinates of the point, one per axis.
    spec fn coords(&self) -> Seq<i64>;

    /// The number of dimensions of every point of this type.
    spec fn spec_dim() -> nat;

    /// Every point of the type has `spec_dim()` coordinates.
    proof fn lemma_dim(&self)
        ensures
            self.coords().len() == Self::spec_dim(),
            1 <= Self::spec_dim() <= 8,
    ;

    /// Return the dimension of this point.
    fn dim(&self) -> (r: usize)
        ensures
            r == Self::spec_dim(),
    ;

    /// Return the coordinate on the given axis.
    fn index(&self, axis: usize) -> (r: i64)
        requires
            axis < Self::spec_dim(),
        ensures
            r == self.coords()[axis as int],
    ;

    /// Create a point from its coordinates.
    fn from_coords(c: &Vec<i64>) -> (r: Self)
        requires
            c@.len() == Self::spec_dim(),
        ensures
            r.coords() == c@,
    ;

    /// Return the coordinates as a vector.
    fn to_vec(&self) -> (r: Vec<i64>)
        ensures
            r@ == self.coords(),
    ;
}

/// Whether every coordinate of the point lies within the accepted magnitude.
pub open spec fn point_ok<P: Point>(p: &P) -> bool {
    forall|i: int| 0 <= i < p.coords().len() ==> coord_ok(#[trigger] p.coords()[i])
}

/// Whether every point of the dataset lies within the accepted magnitude.
pub open spec fn dataset_ok<P: Point>(data: Seq<P>) -> bool {
    forall|i: int| 0 <= i < data.len() ==> point_ok(#[trigger] &data[i])
}

/// Pointwise sum of two points.
pub fn add_points<P: Point>(a: &P, b: &P) -> (r: P)
    requires
        point_ok(a),
        point_ok(b),
    ensures
        forall|i: int| 0 <= i < P::spec_dim() ==> #[trigger] r.coords()[i] == a.coords()[i] + b.coords()[i],
{
    proof {
        a.lemma_dim();
        b.lemma_dim();
    }
    let va = a.to_vec();
    let vb = b.to_vec();
    let d = a.dim();
    let mut out: Vec<i64> = Vec::new();
    let mut i: usize = 0;
    while i < d
        invariant
            d == P::spec_dim(),
            va@ == a.coords(),
            vb@ == b.coords(),
            va@.len() == d,
            vb@.len() == d,
            point_ok(a),
            point_ok(b),
            i <= d,
            out@.len() == i,
            forall|t: int| 0 <= t < i ==> #[trigger] out@[t] == va@[t] + vb@[t],
        decreases d - i,
    {
        assert(coord_ok(va@[i as int]) && coord_ok(vb@[i as int]));
        out.push(va[i] + vb[i]);
        i = i + 1;
    }
    P::from_coords(&out)
}

/// Pointwise difference of two points.
pub fn sub_points<P: Point>(a: &P, b: &P) -> (r: P)
    requires
        point_ok(a),
        point_ok(b),
    ensures
        forall|i: int| 0 <= i < P::spec_dim() ==> #[trigger] r.coords()[i] == a.coords()[i] - b.coords()[i],
{
    proof {
        a.lemma_dim();
        b.lemma_dim();
    }
    let va = a.to_vec();
    let vb = b.to_vec();
    let d = a.dim();
    let mut out: Vec<i64> = Vec::new();
    let mut i: usize = 0;
    while i < d
        invariant
            d == P::spec_dim(),
            va@ == a.coords(),
            vb@ == b.coords(),
            va@.len() == d,
            vb@.len() == d,
            point_ok(a),
            point_ok(b),
            i <= d,
            out@.len() == i,
            forall|t: int| 0 <= t < i ==> #[trigger] out@[t] == va@[t] - vb@[t],
        decreases d - i,
    {
        assert(coord_ok(va@[i as int]) && coord_ok(vb@[i as int]));
        out.push(va[i] - vb[i]);
        i = i + 1;
    }
    P::from_coords(&out)
}

/// A point scaled by a fixed-point factor, each coordinate rounded down.
pub fn mul_point<P: Point>(a: &P, factor: i64) -> (r: P)
    requires
        point_ok(a),
        coord_ok(factor),
    ensures
        forall|i: int|
            0 <= i < P::spec_dim() ==> #[trigger] r.coords()[i] == (a.coords()[i] * factor) / (UNIT as int),
{
    proof {
        a.lemma_dim();
    }
    let va = a.to_vec();
    let d = a.dim();
    let mut out: Vec<i64> = Vec::new();
    let mut i: usize = 0;
    while i < d
        invariant
            d == P::spec_dim(),
            va@ == a.coords(),
            va@.len() == d,
            point_ok(a),
            coord_ok(factor),
            i <= d,
            out@.len() == i,
            forall|t: int| 0 <= t < i ==> #[trigger] out@[t] == (va@[t] * factor) / (UNIT as int),
        decreases d - i,
    {
        let x = va[i];
        assert(coord_ok(x));
        assert(-68_719_476_736 * 68_719_476_736 <= x * factor <= 68_719_476_736 * 68_719_476_736)
            by (nonlinear_arith)
            requires
                -68_719_476_736 <= x <= 68_719_476_736,
                -68_719_476_736 <= factor <= 68_719_476_736,
        ;
        let q = floor_div(x as i128 * factor as i128, UNIT as i128);
        assert(-0x20_0000_0000_0000 <= q <= 0x20_0000_0000_0000) by (nonlinear_arith)
            requires
                q * 1_000_000 <= x * factor < (q + 1) * 1_000_000,
                -68_719_476_736 * 68_719_476_736 <= x * factor <= 68_719_476_736 * 68_719_476_736,
        ;
        out.push(q as i64);
        i = i + 1;
    }
    P::from_coords(&out)
}

/// `n / d` rounded toward negative infinity, for a divisor of either sign.
pub open spec fn floor_quot(n: int, d: int) -> int {
    if d > 0 {
        n / d
    } else {
        (-n) / (-d)
    }
}

/// A point divided by a non-zero fixed-point divisor, each coordinate
/// rounded down.
pub fn div_point<P: Point>(a: &P, divisor: i64) -> (r: P)
    requires
        point_ok(a),
        divisor != 0,
    ensures
        forall|i: int|
            0 <= i < P::spec_dim() ==> #[trigger] r.coords()[i] == floor_quot(
                a.coords()[i] * (UNIT as int),
                divisor as int,
            ),
{
    proof {
        a.lemma_dim();
    }
    let va = a.to_vec();
    let d = a.dim();
    let mut out: Vec<i64> = Vec::new();
    let mut i: usize = 0;
    while i < d
        invariant
            d == P::spec_dim(),
            va@ == a.coords(),
            va@.len() == d,
            point_ok(a),
            divisor != 0,
            i <= d,
            out@.len() == i,
            forall|t: int|
                0 <= t < i ==> #[trigger] out@[t] == floor_quot(va@[t] * (UNIT as int), divisor as int),
        decreases d - i,
    {
        let x = va[i];
        assert(coord_ok(x));
        let n = x as i128 * UNIT as i128;
        let (num, den) = if divisor < 0 {
            (-n, -(divisor as i128))
        } else {
            (n, divisor as i128)
        };
        let q = floor_div(num, den);
        assert(-68_719_476_736_000_000 <= q <= 68_719_476_736_000_000) by (nonlinear_arith)
            requires
                q * den <= num < (q + 1) * den,
                den >= 1,
                -68_719_476_736_000_000 <= num <= 68_719_476_736_000_000,
        ;
        out.push(q as i64);
        i = i + 1;
    }
    P::from_coords(&out)
}

/// Point in 2-dimensional space.
#[derive(PartialEq, Eq, Copy, Clone, Debug)]
pub struct Point2(pub i64, pub i64);

/// Point in 3-dimensional space.
#[derive(PartialEq, Eq, Copy, Clone, Hash, Debug)]
pub struct Point3(pub i64, pub i64, pub i64);

/// Point in 5-dimensional space.
#[derive(PartialEq, Eq, Copy, Clone, Hash, Debug)]
pub struct Point5(pub i64, pub i64, pub i64, pub i64, pub i64);

impl Point2 {
    /// Create a new point.
    pub fn new(x: i64, y: i64) -> (r: Self)
        ensures
            r.coords() == seq![x, y],
    {
        Point2(x, y)
    }
}

impl Point3 {
    /// Create a new point.
    pub fn new(x: i64, y: i64, z: i64) -> (r: Self)
        ensures
            r.coords() == seq![x, y, z],
    {
        Point3(x, y, z)
    }
}

impl Point5 {
    /// Create a new point.
    pub fn new(v: i64, w: i64, x: i64, y: i64, z: i64) -> (r: Self)
        ensures
            r.coords() == seq![v, w, x, y, z],
    {
        Point5(v, w, x, y, z)
    }
}

impl Point2 {
    /// The origin.
    pub fn zero() -> (r: Self)
        ensures
            forall|i: int| 0 <= i < 2 ==> #[trigger] r.coords()[i] == 0,
    {
        Point2(0, 0)
    }

    /// Return whether every coordinate is zero.
    pub fn is_zero(&self) -> (r: bool)
        ensures
            r == (self.0 == 0 && self.1 == 0),
    {
        self.0 == 0 && self.1 == 0
    }

    /// Pointwise sum.
    pub fn add(self, rhs: Self) -> (r: Self)
        requires
            point_ok(&self),
            point_ok(&rhs),
        ensures
            forall|i: int| 0 <= i < 2 ==> #[trigger] r.coords()[i] == self.coords()[i] + rhs.coords()[i],
    {
        add_points(&self, &rhs)
    }

    /// Pointwise difference.
    pub fn sub(self, rhs: Self) -> (r: Self)
        requires
            point_ok(&self),
            point_ok(&rhs),
        ensures
            forall|i: int| 0 <= i < 2 ==> #[trigger] r.coords()[i] == self.coords()[i] - rhs.coords()[i],
    {
        sub_points(&self, &rhs)
    }

    /// Scale by a fixed-point factor, rounding down.
    pub fn mul(self, factor: i64) -> (r: Self)
        requires
            point_ok(&self),
            coord_ok(factor),
        ensures
            forall|i: int|
                0 <= i < 2 ==> #[trigger] r.coords()[i] == (self.coords()[i] * factor) / (UNIT as int),
    {
        mul_point(&self, factor)
    }

    /// Divide by a non-zero fixed-point divisor.
    pub fn div(self, divisor: i64) -> (r: Self)
        requires
            point_ok(&self),
            divisor != 0,
        ensures
            forall|i: int|
                0 <= i < 2 ==> #[trigger] r.coords()[i] == floor_quot(
                    self.coords()[i] * (UNIT as int),
                    divisor as int,
                ),
    {
        div_point(&self, divisor)
    }

    /// Add another point in place.
    pub fn add_assign(&mut self, rhs: Self)
        requires
            point_ok(old(self)),
            point_ok(&rhs),
        ensures
            forall|i: int|
                0 <= i < 2 ==> #[trigger] final(self).coords()[i] == old(self).coords()[i] + rhs.coords()[i],
    {
        *self = add_points(self, &rhs);
    }

    /// Subtract another point in place.
    pub fn sub_assign(&mut self, rhs: Self)
        requires
            point_ok(old(self)),
            point_ok(&rhs),
        ensures
            forall|i: int|
                0 <= i < 2 ==> #[trigger] final(self).coords()[i] == old(self).coords()[i] - rhs.coords()[i],
    {
        *self = sub_points(self, &rhs);
    }

    /// Scale in place by a fixed-point factor, rounding down.
    pub fn mul_assign(&mut self, factor: i64)
        requires
            point_ok(old(self)),
            coord_ok(factor),
        ensures
            forall|i: int|
                0 <= i < 2 ==> #[trigger] final(self).coords()[i] == (old(self).coords()[i] * factor) / (
                UNIT as int),
    {
        *self = mul_point(self, factor);
    }

    /// Divide in place by a non-zero fixed-point divisor.
    pub fn div_assign(&mut self, divisor: i64)
        requires
            point_ok(old(self)),
            divisor != 0,
        ensures
            forall|i: int|
                0 <= i < 2 ==> #[trigger] final(self).coords()[i] == floor_quot(
                    old(self).coords()[i] * (UNIT as int),
                    divisor as int,
                ),
    {
        *self = div_point(self, divisor);
    }

    /// Return the text `Point2(x, y, ...)`, each coordinate as a decimal.
    pub fn to_string(&self) -> (s: String)
        ensures
            s@ == seq!['P', 'o', 'i', 'n', 't', '2', '(']
                + coord_text(self.0 as int)
                + seq![',', ' ']
                + coord_text(self.1 as int)
                + seq![')'],
    {
        proof {
            reveal_strlit("Point2(");
            reveal_strlit(", ");
            reveal_strlit(")");
        }
        let mut s = String::from_str("Point2(");
        push_coord(&mut s, self.0);
        s.append(", ");
        push_coord(&mut s, self.1);
        s.append(")");
        assert(s@ =~= seq!['P', 'o', 'i', 'n', 't', '2', '(']
            + coord_text(self.0 as int)
            + seq![',', ' ']
            + coord_text(self.1 as int)
            + seq![')']);
        s
    }
}

impl Point for Point2 {
    open spec fn coords(&self) -> Seq<i64> {
        seq![self.0, self.1]
    }

    open spec fn spec_dim() -> nat {
        2
    }

    proof fn lemma_dim(&self) {
    }

    fn dim(&self) -> (r: usize) {
        2
    }

    fn index(&self, axis: usize) -> (r: i64) {
        if axis == 0 {
            self.0
        } else {
            self.1
        }
    }

    fn from_coords(c: &Vec<i64>) -> (r: Self) {
        let r = Point2(c[0], c[1]);
        assert(r.coords() =~= c@);
        r
    }

    fn to_vec(&self) -> (r: Vec<i64>) {
        let r = vec![self.0, self.1];
        assert(r@ =~= self.coords());
        r
    }
}

impl Point3 {
    /// The origin.
    pub fn zero() -> (r: Self)
        ensures
            forall|i: int| 0 <= i < 3 ==> #[trigger] r.coords()[i] == 0,
    {
        Point3(0, 0, 0)
    }

    /// Return whether every coordinate is zero.
    pub fn is_zero(&self) -> (r: bool)
        ensures
            r == (self.0 == 0 && self.1 == 0 && self.2 == 0),
    {
        self.0 == 0 && self.1 == 0 && self.2 == 0
    }

    /// Pointwise sum.
    pub fn add(self, rhs: Self) -> (r: Self)
        requires
            point_ok(&self),
            point_ok(&rhs),
        ensures
            forall|i: int| 0 <= i < 3 ==> #[trigger] r.coords()[i] == self.coords()[i] + rhs.coords()[i],
    {
        add_points(&self, &rhs)
    }

    /// Pointwise difference.
    pub fn sub(self, rhs: Self) -> (r: Self)
        requires
            point_ok(&self),
            point_ok(&rhs),
        ensures
            forall|i: int| 0 <= i < 3 ==> #[trigger] r.coords()[i] == self.coords()[i] - rhs.coords()[i],
    {
        sub_points(&self, &rhs)
    }

    /// Scale by a fixed-point factor, rounding down.
    pub fn mul(self, factor: i64) -> (r: Self)
        requires
            point_ok(&self),
            coord_ok(factor),
        ensures
            forall|i: int|
                0 <= i < 3 ==> #[trigger] r.coords()[i] == (self.coords()[i] * factor) / (UNIT as int),
    {
        mul_point(&self, factor)
    }

    /// Divide by a non-zero fixed-point divisor.
    pub fn div(self, divisor: i64) -> (r: Self)
        requires
            point_ok(&self),
            divisor != 0,
        ensures
            forall|i: int|
                0 <= i < 3 ==> #[trigger] r.coords()[i] == floor_quot(
                    self.coords()[i] * (UNIT as int),
                    divisor as int,
                ),
    {
        div_point(&self, divisor)
    }

    /// Add another point in place.
    pub fn add_assign(&mut self, rhs: Self)
        requires
            point_ok(old(self)),
            point_ok(&rhs),
        ensures
            forall|i: int|
                0 <= i < 3 ==> #[trigger] final(self).coords()[i] == old(self).coords()[i] + rhs.coords()[i],
    {
        *self = add_points(self, &rhs);
    }

    /// Subtract another point in place.
    pub fn sub_assign(&mut self, rhs: Self)
        requires
            point_ok(old(self)),
            point_ok(&rhs),
        ensures
            forall|i: int|
                0 <= i < 3 ==> #[trigger] final(self).coords()[i] == old(self).coords()[i] - rhs.coords()[i],
    {
        *self = sub_points(self, &rhs);
    }

    /// Scale in place by a fixed-point factor, rounding down.
    pub fn mul_assign(&mut self, factor: i64)
        requires
            point_ok(old(self)),
            coord_ok(factor),
        ensures
            forall|i: int|
                0 <= i < 3 ==> #[trigger] final(self).coords()[i] == (old(self).coords()[i] * factor) / (
                UNIT as int),
    {
        *self = mul_point(self, factor);
    }

    /// Divide in place by a non-zero fixed-point divisor.
    pub fn div_assign(&mut self, divisor: i64)
        requires
            point_ok(old(self)),
            divisor != 0,
        ensures
            forall|i: int|
                0 <= i < 3 ==> #[trigger] final(self).coords()[i] == floor_quot(
                    old(self).coords()[i] * (UNIT as int),
                    divisor as int,
                ),
    {
        *self = div_point(self, divisor);
    }

    /// Return the text `Point3(x, y, ...)`, each coordinate as a decimal.
    pub fn to_string(&self) -> (s: String)
        ensures
            s@ == seq!['P', 'o', 'i', 'n', 't', '3', '(']
                + coord_text(self.0 as int)
                + seq![',', ' ']
                + coord_text(self.1 as int)
                + seq![',', ' ']
                + coord_text(self.2 as int)
                + seq![')'],
    {
        proof {
            reveal_strlit("Point3(");
            reveal_strlit(", ");
            reveal_strlit(")");
        }
        let mut s = String::from_str("Point3(");
        push_coord(&mut s, self.0);
        s.append(", ");
        push_coord(&mut s, self.1);
        s.append(", ");
        push_coord(&mut s, self.2);
        s.append(")");
        assert(s@ =~= seq!['P', 'o', 'i', 'n', 't', '3', '(']
            + coord_text(self.0 as int)
            + seq![',', ' ']
            + coord_text(self.1 as int)
            + seq![',', ' ']
            + coord_text(self.2 as int)
            + seq![')']);
        s
    }
}

impl Point for Point3 {
    open spec fn coords(&self) -> Seq<i64> {
        seq![self.0, self.1, self.2]
    }

    open spec fn spec_dim() -> nat {
        3
    }

    proof fn lemma_dim(&self) {
    }

    fn dim(&self) -> (r: usize) {
        3
    }

    fn index(&self, axis: usize) -> (r: i64) {
        if axis == 0 {
            self.0
        } else if axis == 1 {
            self.1
        } else {
            self.2
        }
    }

    fn from_coords(c: &Vec<i64>) -> (r: Self) {
        let r = Point3(c[0], c[1], c[2]);
        assert(r.coords() =~= c@);
        r
    }

    fn to_vec(&self) -> (r: Vec<i64>) {
        let r = vec![self.0, self.1, self.2];
        assert(r@ =~= self.coords());
        r
    }
}

impl Point5 {
    /// The origin.
    pub fn zero() -> (r: Self)
        ensures
            forall|i: int| 0 <= i < 5 ==> #[trigger] r.coords()[i] == 0,
    {
        Point5(0, 0, 0, 0, 0)
    }

    /// Return whether every coordinate is zero.
    pub fn is_zero(&self) -> (r: bool)
        ensures
            r == (self.0 == 0 && self.1 == 0 && self.2 == 0 && self.3 == 0 && self.4 == 0),
    {
        self.0 == 0 && self.1 == 0 && self.2 == 0 && self.3 == 0 && self.4 == 0
    }

    /// Pointwise sum.
    pub fn add(self, rhs: Self) -> (r: Self)
        requires
            point_ok(&self),
            point_ok(&rhs),
        ensures
            forall|i: int| 0 <= i < 5 ==> #[trigger] r.coords()[i] == self.coords()[i] + rhs.coords()[i],
    {
        add_points(&self, &rhs)
    }

    /// Pointwise difference.
    pub fn sub(self, rhs: Self) -> (r: Self)
        requires
            point_ok(&self),
            point_ok(&rhs),
        ensures
            forall|i: int| 0 <= i < 5 ==> #[trigger] r.coords()[i] == self.coords()[i] - rhs.coords()[i],
    {
        sub_points(&self, &rhs)
    }

    /// Scale by a fixed-point factor, rounding down.
    pub fn mul(self, factor: i64) -> (r: Self)
        requires
            point_ok(&self),
            coord_ok(factor),
        ensures
            forall|i: int|
                0 <= i < 5 ==> #[trigger] r.coords()[i] == (self.coords()[i] * factor) / (UNIT as int),
    {
        mul_point(&self, factor)
    }

    /// Divide by a non-zero fixed-point divisor.
    pub fn div(self, divisor: i64) -> (r: Self)
        requires
            point_ok(&self),
            divisor != 0,
        ensures
            forall|i: int|
                0 <= i < 5 ==> #[trigger] r.coords()[i] == floor_quot(
                    self.coords()[i] * (UNIT as int),
                    divisor as int,
                ),
    {
        div_point(&self, divisor)
    }

    /// Add another point in place.
    pub fn add_assign(&mut self, rhs: Self)
        requires
            point_ok(old(self)),
            point_ok(&rhs),
        ensures
            forall|i: int|
                0 <= i < 5 ==> #[trigger] final(self).coords()[i] == old(self).coords()[i] + rhs.coords()[i],
    {
        *self = add_points(self, &rhs);
    }

    /// Subtract another point in place.
    pub fn sub_assign(&mut self, rhs: Self)
        requires
            point_ok(old(self)),
            point_ok(&rhs),
        ensures
            forall|i: int|
                0 <= i < 5 ==> #[trigger] final(self).coords()[i] == old(self).coords()[i] - rhs.coords()[i],
    {
        *self = sub_points(self, &rhs);
    }

    /// Scale in place by a fixed-point factor, rounding down.
    pub fn mul_assign(&mut self, factor: i64)
        requires
            point_ok(old(self)),
            coord_ok(factor),
        ensures
            forall|i: int|
                0 <= i < 5 ==> #[trigger] final(self).coords()[i] == (old(self).coords()[i] * factor) / (
                UNIT as int),
    {
        *self = mul_point(self, factor);
    }

    /// Divide in place by a non-zero fixed-point divisor.
    pub fn div_assign(&mut self, divisor: i64)
        requires
            point_ok(old(self)),
            divisor != 0,
        ensures
            forall|i: int|
                0 <= i < 5 ==> #[trigger] final(self).coords()[i] == floor_quot(
                    old(self).coords()[i] * (UNIT as int),
                    divisor as int,
                ),
    {
        *self = div_point(self, divisor);
    }

    /// Return the text `Point5(x, y, ...)`, each coordinate as a decimal.
    pub fn to_string(&self) -> (s: String)
        ensures
            s@ == seq!['P', 'o', 'i', 'n', 't', '5', '(']
                + coord_text(self.0 as int)
                + seq![',', ' ']
                + coord_text(self.1 as int)
                + seq![',', ' ']
                + coord_text(self.2 as int)
                + seq![',', ' ']
                + coord_text(self.3 as int)
                + seq![',', ' ']
                + coord_text(self.4 as int)
                + seq![')'],
    {
        proof {
            reveal_strlit("Point5(");
            reveal_strlit(", ");
            reveal_strlit(")");
        }
        let mut s = String::from_str("Point5(");
        push_coord(&mut s, self.0);
        s.append(", ");
        push_coord(&mut s, self.1);
        s.append(", ");
        push_coord(&mut s, self.2);
        s.append(", ");
        push_coord(&mut s, self.3);
        s.append(", ");
        push_coord(&mut s, self.4);
        s.append(")");
        assert(s@ =~= seq!['P', 'o', 'i', 'n', 't', '5', '(']
            + coord_text(self.0 as int)
            + seq![',', ' ']
            + coord_text(self.1 as int)
            + seq![',', ' ']
            + coord_text(self.2 as int)
            + seq![',', ' ']
            + coord_text(self.3 as int)
            + seq![',', ' ']
            + coord_text(self.4 as int)
            + seq![')']);
        s
    }
}

impl Point for Point5 {
    open spec fn coords(&self) -> Seq<i64> {
        seq![self.0, self.1, self.2, self.3, self.4]
    }

    open spec fn spec_dim() -> nat {
        5
    }

    proof fn lemma_dim(&self) {
    }

    fn dim(&self) -> (r: usize) {
        5
    }

    fn index(&self, axis: usize) -> (r: i64) {
        if axis == 0 {
            self.0
        } else if axis == 1 {
            self.1
        } else if axis == 2 {
            self.2
        } else if axis == 3 {
            self.3
        } else {
            self.4
        }
    }

    fn from_coords(c: &Vec<i64>) -> (r: Self) {
        let r = Point5(c[0], c[1], c[2], c[3], c[4]);
        assert(r.coords() =~= c@);
        r
    }

    fn to_vec(&self) -> (r: Vec<i64>) {
        let r = vec![self.0, self.1, self.2, self.3, self.4];
        assert(r@ =~= self.coords());
        r
    }
}

} // verus!
