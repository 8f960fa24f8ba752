//! Pixel buffers, the feature points built from them, and the swatches built
//! from a clustering of those points.
use vstd::prelude::*;
use crate::color::Lab;
use crate::dbscan::{
    DBSCAN,
    Label,
    Params,
    count_label,
    sum_ids,
    lemma_count_label_bounded,
    lemma_sum_ids_bounded,
};
use crate::distance::DistanceMeasure;
use crate::number::{Clamp, clamp_int, floor_div};
use crate::point::{Point, Point5, UNIT, coord_ok, point_ok, dataset_ok};
use crate::rgba::Rgba;

verus! {

/// Error kinds of an extraction.
#[derive(Debug, Clone, Copy, PartialEq, Eq, Structural)]
pub enum ExtractError {
    /// The buffer length is not four bytes per pixel, or a side is zero.
    InvalidDimensions,
    /// The density threshold is zero or the radius is not positive.
    InvalidParameter,
}

/// Color swatch: one cluster of pixels.
#[derive(Debug, Clone, Copy, PartialEq, Eq)]
pub struct Swatch {
    /// The representative color.
    pub color: Lab,
    /// The representative pixel position.
    pub position: (u32, u32),
    /// The number of pixels the swatch stands for.
    pub count: usize,
}

/// The pixel coordinate of a normalised position `u` on a side of `size` pixels.
pub open spec fn position_of(u: int, size: int) -> int {
    clamp_int((u * size) / (UNIT as int), 0, u32::MAX as int)
}

/// The colour of a centroid `(l, a, b, ...)` of normalised feature coordinates.
pub open spec fn color_of(c: Seq<i64>) -> Lab {
    Lab {
        l: clamp_int(c[0] * 100, 0, 100_000_000) as i64,
        a: clamp_int(c[1] * 255, -128_000_000, 127_000_000) as i64,
        b: clamp_int(c[2] * 255, -128_000_000, 127_000_000) as i64,
    }
}

/// Clusters ordered by size, larger first, and by id where sizes are equal.
pub open spec fn comes_before(counts: Seq<usize>, c1: int, c2: int) -> bool {
    counts[c1] > counts[c2] || (counts[c1] == counts[c2] && c1 < c2)
}

/// Total number of pixels of a list of swatches.
pub open spec fn total_count(sw: Seq<Swatch>) -> nat
    decreases sw.len(),
{
    if sw.len() == 0 {
        0
    } else {
        total_count(sw.drop_last()) + sw.last().count as nat
    }
}

/// Order cluster ids by size, larger first, ties by increasing id.
fn order_clusters(counts: &Vec<usize>) -> (r: Vec<usize>)
    ensures
        r@.len() == counts@.len(),
        forall|j: int| 0 <= j < r@.len() ==> r@[j] < counts@.len(),
        forall|a: int, b: int|
            0 <= a < b < r@.len() ==> comes_before(counts@, r@[a] as int, r@[b] as int),
{
    let k = counts.len();
    let mut r: Vec<usize> = Vec::new();
    let mut c: usize = 0;
    while c < k
        invariant
            k == counts@.len(),
            c <= k,
            r@.len() == c,
            forall|j: int| 0 <= j < r@.len() ==> r@[j] < c,
            forall|a: int, b: int|
                0 <= a < b < r@.len() ==> comes_before(counts@, r@[a] as int, r@[b] as int),
        decreases k - c,
    {
        let mut p: usize = 0;
        let n = r.len();
        while p < n && (counts[r[p]] > counts[c] || (counts[r[p]] == counts[c] && r[p] < c))
            invariant
                n == r@.len(),
                p <= n,
                k == counts@.len(),
                c < k,
                forall|j: int| 0 <= j < r@.len() ==> r@[j] < c,
                forall|j: int| 0 <= j < p ==> comes_before(counts@, r@[j] as int, c as int),
            decreases n - p,
        {
            p = p + 1;
        }
        let ghost r0 = r@;
        r.insert(p, c);
        proof {
            assert forall|j: int| 0 <= j < r@.len() implies r@[j] < c + 1 by {
                if j < p {
                    assert(r@[j] == r0[j]);
                } else if j > p {
                    assert(r@[j] == r0[j - 1]);
                }
            }
            assert forall|a: int, b: int|
                0 <= a < b < r@.len() implies comes_before(counts@, r@[a] as int, r@[b] as int) by {
                if b < p {
                    assert(r@[a] == r0[a] && r@[b] == r0[b]);
                } else if b == p {
                    assert(r@[a] == r0[a]);
                } else if a < p {
                    assert(r@[a] == r0[a] && r@[b] == r0[b - 1]);
                } else if a == p {
                    assert(r@[b] == r0[b - 1]);
                    assert(r0[b - 1] < c);
                    if b - 1 > p {
                        assert(comes_before(counts@, r0[p as int] as int, r0[b - 1] as int));
                    }
                    assert(!comes_before(counts@, r0[p as int] as int, c as int));
                } else {
                    assert(r@[a] == r0[a - 1] && r@[b] == r0[b - 1]);
                }
            }
        }
        c = c + 1;
    }
    r
}

/// Raw RGBA pixels of an image, row by row, four bytes per pixel.
pub struct ImageData<'a> {
    pub data: &'a [u8],
    pub width: u32,
    pub height: u32,
}

impl<'a> ImageData<'a> {
    /// The bytes of the image.
    pub open spec fn bytes(&self) -> Seq<u8> {
        self.data@
    }

    /// Number of pixels that the dimensions give.
    pub open spec fn pixel_count(&self) -> int {
        self.width * self.height
    }

    /// The buffer holds four bytes for each pixel, and neither side is zero.
    pub open spec fn valid(&self) -> bool {
        &&& self.width > 0
        &&& self.height > 0
        &&& self.bytes().len() == 4 * self.pixel_count()
    }

    /// Create image data over a pixel buffer.
    pub fn new(data: &'a [u8], width: u32, height: u32) -> (r: Self)
        ensures
            r.bytes() == data@,
            r.width == width,
            r.height == height,
    {
        ImageData { data, width, height }
    }

    /// Return the width in pixels.
    pub fn width(&self) -> (r: u32)
        ensures
            r == self.width,
    {
        self.width
    }

    /// Return the height in pixels.
    pub fn height(&self) -> (r: u32)
        ensures
            r == self.height,
    {
        self.height
    }

    /// Check the dimensions against the buffer; on success return the
    /// number of pixels.
    pub fn check_dimensions(&self) -> (r: Result<usize, ExtractError>)
        ensures
            self.valid() <==> r is Ok,
            r is Ok ==> r->Ok_0 == self.pixel_count(),
            r is Err ==> r->Err_0 == ExtractError::InvalidDimensions,
    {
        if self.width == 0 || self.height == 0 {
            return Err(ExtractError::InvalidDimensions);
        }
        let w = self.width as u64;
        let h = self.height as u64;
        assert(w * h <= 0xffff_ffff_ffff_ffff) by (nonlinear_arith)
            requires
                w <= 0xffff_ffff,
                h <= 0xffff_ffff,
        ;
        let n = w * h;
        let len = self.data.len();
        if len % 4 != 0 || (len / 4) as u64 != n {
            return Err(ExtractError::InvalidDimensions);
        }
        Ok(len / 4)
    }

    /// Return the pixel at the given index.
    pub fn pixel(&self, p: usize) -> (c: Rgba)
        requires
            self.valid(),
            p < self.pixel_count(),
        ensures
            c == (Rgba {
                r: self.bytes()[4 * p],
                g: self.bytes()[4 * p + 1],
                b: self.bytes()[4 * p + 2],
                a: self.bytes()[4 * p + 3],
            }),
    {
        let len = self.data.len();
        assert(4 * p + 3 < len) by (nonlinear_arith)
            requires
                p < self.width * self.height,
                len == 4 * (self.width * self.height),
        ;
        let i = 4 * p;
        Rgba::new(self.data[i], self.data[i + 1], self.data[i + 2], self.data[i + 3])
    }

    /// The feature point of pixel `p`: `(L*/100, a*/255, b*/255, x/width,
    /// y/height)`, each rounded down.
    pub open spec fn feature_at(&self, lab: Lab, p: int) -> Seq<i64> {
        seq![
            (lab.l / 100) as i64,
            (lab.a / 255) as i64,
            (lab.b / 255) as i64,
            ((p % self.width as int) * (UNIT as int) / (self.width as int)) as i64,
            ((p / self.width as int) * (UNIT as int) / (self.height as int)) as i64,
        ]
    }

    /// `points` holds the feature point of each pixel, in pixel order.
    pub open spec fn features_of(&self, labs: Seq<Lab>, points: Seq<Point5>) -> bool {
        &&& points.len() == labs.len()
        &&& forall|p: int|
            #![trigger points[p]]
            0 <= p < points.len() ==> points[p].coords() == self.feature_at(labs[p], p)
    }

    /// `r` holds one swatch per cluster of the clustering, larger clusters
    /// first and clusters of equal size by increasing id.
    pub open spec fn lists_swatches(&self, dbscan: &DBSCAN<Point5>, r: Seq<Swatch>) -> bool {
        &&& r.len() == dbscan.spec_membership().len()
        &&& exists|ids: Seq<usize>|
            #![trigger ids.len()]
            {
                &&& ids.len() == r.len()
                &&& forall|j: int| 0 <= j < ids.len() ==> ids[j] < dbscan.spec_membership().len()
                &&& forall|a: int, b: int|
                    0 <= a < b < ids.len() ==> comes_before(
                        dbscan.spec_membership().map_values(|m: Seq<usize>| m.len() as usize),
                        ids[a] as int,
                        ids[b] as int,
                    )
                &&& forall|j: int|
                    #![trigger r[j]]
                    0 <= j < r.len() ==> r[j] == self.swatch_spec(dbscan, ids[j] as int)
            }
    }

    /// Build the feature point of each pixel from its colour and position.
    pub fn features(&self, labs: &Vec<Lab>) -> (r: Vec<Point5>)
        requires
            self.valid(),
            labs@.len() == self.pixel_count(),
            forall|p: int| 0 <= p < labs@.len() ==> (#[trigger] labs@[p]).in_range(),
        ensures
            r@.len() == labs@.len(),
            dataset_ok(r@),
            self.features_of(labs@, r@),
    {
        let n = labs.len();
        let w = self.width as usize;
        let h = self.height as usize;
        let mut points: Vec<Point5> = Vec::new();
        let mut p: usize = 0;
        while p < n
            invariant
                n == labs@.len(),
                n == self.pixel_count(),
                w == self.width,
                h == self.height,
                w > 0,
                h > 0,
                p <= n,
                points@.len() == p,
                forall|t: int| 0 <= t < labs@.len() ==> (#[trigger] labs@[t]).in_range(),
                dataset_ok(points@),
                forall|t: int|
                    #![trigger points@[t]]
                    0 <= t < p ==> points@[t].coords() == self.feature_at(labs@[t], t),
            decreases n - p,
        {
            let lab = labs[p];
            let x = p % w;
            let y = p / w;
            assert(y < h) by (nonlinear_arith)
                requires
                    y == p / w,
                    p < w * h,
                    w > 0,
            ;
            let l = floor_div(lab.l as i128, 100);
            let a = floor_div(lab.a as i128, 255);
            let b = floor_div(lab.b as i128, 255);
            let u = (x as u64 * UNIT as u64) / (w as u64);
            let v = (y as u64 * UNIT as u64) / (h as u64);
            assert(u <= 1_000_000 && v <= 1_000_000) by (nonlinear_arith)
                requires
                    x < w,
                    y < h,
                    u == (x * 1_000_000) / (w as int),
                    v == (y * 1_000_000) / (h as int),
                    w > 0,
                    h > 0,
            ;
            assert(-1_000_000 <= l <= 1_000_000 && -1_000_000 <= a <= 1_000_000 && -1_000_000 <= b
                <= 1_000_000) by (nonlinear_arith)
                requires
                    l * 100 <= lab.l < (l + 1) * 100,
                    a * 255 <= lab.a < (a + 1) * 255,
                    b * 255 <= lab.b < (b + 1) * 255,
                    0 <= lab.l <= 100_000_000,
                    -128_000_000 <= lab.a <= 127_000_000,
                    -128_000_000 <= lab.b <= 127_000_000,
            ;
            let pt = Point5::new(l as i64, a as i64, b as i64, u as i64, v as i64);
            points.push(pt);
            proof {
                assert(point_ok(&pt));
            }
            p = p + 1;
        }
        points
    }

    /// Build one swatch per cluster, larger clusters first and clusters of
    /// equal size by increasing id.
    pub fn swatches(&self, dbscan: &DBSCAN<Point5>) -> (r: Vec<Swatch>)
        requires
            exists|data: Seq<Point5>| dbscan.partitions(data),
        ensures
            r@.len() == dbscan.spec_membership().len(),
            total_count(r@) <= dbscan.spec_labels().len(),
            forall|a: int, b: int| 0 <= a < b < r@.len() ==> r@[a].count >= r@[b].count,
            self.lists_swatches(dbscan, r@),
    {
        let ghost total = choose|data: Seq<Point5>| dbscan.partitions(data);
        let k = dbscan.cluster_count();
        let mut counts: Vec<usize> = Vec::new();
        let mut c: usize = 0;
        while c < k
            invariant
                k == dbscan.spec_membership().len(),
                c <= k,
                counts@.len() == c,
                forall|t: int| 0 <= t < c ==> #[trigger] counts@[t] == dbscan.spec_membership()[t].len(),
            decreases k - c,
        {
            counts.push(dbscan.count_at(c));
            c = c + 1;
        }
        let ghost cs = dbscan.spec_membership().map_values(|m: Seq<usize>| m.len() as usize);
        assert(counts@ =~= cs);
        let order = order_clusters(&counts);
        let centroids = dbscan.centroids();
        let mut r: Vec<Swatch> = Vec::new();
        let mut j: usize = 0;
        while j < k
            invariant
                k == dbscan.spec_membership().len(),
                dbscan.partitions(total),
                order@.len() == k,
                counts@ == cs,
                cs.len() == k,
                cs == dbscan.spec_membership().map_values(|m: Seq<usize>| m.len() as usize),
                centroids@.len() == k,
                forall|t: int| 0 <= t < k ==> #[trigger] centroids@[t].coords() == dbscan.spec_centroids()[t].coords(),
                forall|t: int| 0 <= t < order@.len() ==> order@[t] < k,
                forall|a: int, b: int|
                    0 <= a < b < order@.len() ==> comes_before(counts@, order@[a] as int, order@[b] as int),
                j <= k,
                r@.len() == j,
                forall|t: int| #![trigger r@[t]] 0 <= t < j ==> r@[t] == self.swatch_spec(dbscan, order@[t] as int),
                total_count(r@) == sum_ids(dbscan.spec_labels(), order@.subrange(0, j as int)),
            decreases k - j,
        {
            let id = order[j];
            proof {
                let sc = dbscan.spec_centroids()[id as int];
                assert(point_ok(&sc));
                assert(centroids@[id as int].coords() == sc.coords());
                assert forall|i: int| 0 <= i < centroids@[id as int].coords().len() implies coord_ok(
                    #[trigger] centroids@[id as int].coords()[i],
                ) by {
                    assert(coord_ok(sc.coords()[i]));
                }
                lemma_count_label_bounded(dbscan.spec_labels(), Label::Assigned(id));
                assert(dbscan.spec_membership()[id as int].len() <= usize::MAX);
                assert(cs[id as int] == dbscan.spec_membership()[id as int].len() as usize);
                assert(counts@[id as int] == dbscan.spec_membership()[id as int].len() as usize);
                assert(point_ok(&centroids@[id as int]));
            }
            let sw = self.swatch_at(&centroids[id], counts[id]);
            let ghost r0 = r@;
            r.push(sw);
            proof {
                assert(r@.drop_last() =~= r0);
                assert(order@.subrange(0, j + 1).drop_last() =~= order@.subrange(0, j as int));
                assert(dbscan.spec_membership()[id as int].len() == count_label(
                    dbscan.spec_labels(),
                    Label::Assigned(id),
                ));
                assert(r@[j as int] == sw);
                assert(sw == self.swatch_spec(dbscan, id as int));
                assert forall|t: int| #![trigger r@[t]] 0 <= t < j + 1 implies r@[t] == self.swatch_spec(
                    dbscan,
                    order@[t] as int,
                ) by {
                    if t < j {
                        assert(r@[t] == r0[t]);
                    }
                }
                assert(total_count(r@) == total_count(r0) + sw.count);
                assert(sum_ids(dbscan.spec_labels(), order@.subrange(0, j + 1)) == sum_ids(
                    dbscan.spec_labels(),
                    order@.subrange(0, j as int),
                ) + count_label(dbscan.spec_labels(), Label::Assigned(id)));
            }
            j = j + 1;
        }
        proof {
            assert(order@.subrange(0, k as int) =~= order@);
            assert forall|a: int, b: int| 0 <= a < b < order@.len() implies order@[a] != order@[b] by {
                assert(comes_before(counts@, order@[a] as int, order@[b] as int));
            }
            lemma_sum_ids_bounded(dbscan.spec_labels(), order@);
            assert forall|a: int, b: int| 0 <= a < b < r@.len() implies r@[a].count >= r@[b].count by {
                assert(comes_before(counts@, order@[a] as int, order@[b] as int));
            }
            assert forall|j: int| 0 <= j < order@.len() implies order@[j] < r@.len() by {}
        }
        r
    }

    /// The swatch of cluster `c` of the clustering.
    pub open spec fn swatch_spec(&self, dbscan: &DBSCAN<Point5>, c: int) -> Swatch {
        let centre = dbscan.spec_centroids()[c].coords();
        Swatch {
            color: color_of(centre),
            position: (
                position_of(centre[3] as int, self.width as int) as u32,
                position_of(centre[4] as int, self.height as int) as u32,
            ),
            count: dbscan.spec_membership()[c].len() as usize,
        }
    }

    /// The swatch of a cluster with the given centroid and size.
    fn swatch_at(&self, centroid: &Point5, count: usize) -> (r: Swatch)
        requires
            point_ok(centroid),
        ensures
            r.color == color_of(centroid.coords()),
            r.position == (
                position_of(centroid.coords()[3] as int, self.width as int) as u32,
                position_of(centroid.coords()[4] as int, self.height as int) as u32,
            ),
            r.count == count,
    {
        proof {
            assert(coord_ok(centroid.coords()[0]));
            assert(coord_ok(centroid.coords()[1]));
            assert(coord_ok(centroid.coords()[2]));
            assert(coord_ok(centroid.coords()[3]));
            assert(coord_ok(centroid.coords()[4]));
        }
        let color = Lab::new(centroid.0 * 100, centroid.1 * 255, centroid.2 * 255);
        let x = Self::position(centroid.3, self.width);
        let y = Self::position(centroid.4, self.height);
        Swatch { color, position: (x, y), count }
    }

    /// Pixel coordinate of a normalised position on a side of `size` pixels.
    fn position(u: i64, size: u32) -> (r: u32)
        requires
            -68_719_476_736 <= u <= 68_719_476_736,
        ensures
            r == position_of(u as int, size as int),
    {
        assert(-68_719_476_736 * 0xffff_ffff <= u * size <= 68_719_476_736 * 0xffff_ffff)
            by (nonlinear_arith)
            requires
                -68_719_476_736 <= u <= 68_719_476_736,
                0 <= size <= 0xffff_ffff,
        ;
        let q = floor_div(u as i128 * size as i128, UNIT as i128);
        let c = Clamp::clamp(q as i64, 0, 0xffff_ffff);
        proof {
            assert(-1_000_000_000_000_000_000 <= q <= 1_000_000_000_000_000_000) by (nonlinear_arith)
                requires
                    q * 1_000_000 <= u * size < (q + 1) * 1_000_000,
                    -68_719_476_736 * 0xffff_ffff <= u * size <= 68_719_476_736 * 0xffff_ffff,
            ;
        }
        c as u32
    }

    /// Extract the swatches of the image, given the L*a*b* colour of each
    /// pixel, larger swatches first.
    pub fn extract<D: DistanceMeasure>(&self, labs: &Vec<Lab>, params: &Params<D>) -> (r: Result<
        Vec<Swatch>,
        ExtractError,
    >)
        requires
            forall|p: int| 0 <= p < labs@.len() ==> (#[trigger] labs@[p]).in_range(),
        ensures
            !self.valid() || labs@.len() != self.pixel_count() ==> r == Err::<
                Vec<Swatch>,
                ExtractError,
            >(ExtractError::InvalidDimensions),
            self.valid() && labs@.len() == self.pixel_count() && (params.min_points == 0
                || params.epsilon <= 0) ==> r == Err::<Vec<Swatch>, ExtractError>(
                ExtractError::InvalidParameter,
            ),
            self.valid() && labs@.len() == self.pixel_count() && params.min_points > 0
                && params.epsilon > 0 ==> r is Ok,
            r is Ok ==> exists|points: Seq<Point5>, dbscan: DBSCAN<Point5>|
                #![trigger self.features_of(labs@, points), dbscan.partitions(points)]
                {
                    &&& self.features_of(labs@, points)
                    &&& dbscan.partitions(points)
                    &&& dbscan.is_clustering_of(
                        points,
                        params.distance.spec_metric(),
                        params.epsilon as int,
                        params.min_points as int,
                    )
                    &&& self.lists_swatches(&dbscan, r->Ok_0@)
                },
            r is Ok ==> total_count(r->Ok_0@) <= self.pixel_count(),
            r is Ok ==> forall|a: int, b: int|
                0 <= a < b < r->Ok_0@.len() ==> r->Ok_0@[a].count >= r->Ok_0@[b].count,
    {
        let n = match self.check_dimensions() {
            Ok(n) => n,
            Err(e) => {
                return Err(e);
            },
        };
        if labs.len() != n {
            return Err(ExtractError::InvalidDimensions);
        }
        if params.min_points == 0 || params.epsilon <= 0 {
            return Err(ExtractError::InvalidParameter);
        }
        let points = self.features(labs);
        let dbscan = DBSCAN::fit(&points, params);
        assert(dbscan.partitions(points@));
        let swatches = self.swatches(&dbscan);
        Ok(swatches)
    }
}

} // verus!
