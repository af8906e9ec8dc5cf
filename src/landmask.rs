//! The two-tier classifier: the raster first, the shoreline rings only where
//! the raster cannot rule land out; and the batch queries over it.
use vstd::prelude::*;

use crate::bitmap::LandBitmapIndex;
use crate::codec::{dataset_ok, decode, decoded_from};
use crate::error::LandmaskError;
use crate::grid::{lemma_norm_lon_period, valid_lat, GridSpec, TURN};
use crate::shapes::ShorelineStore;

verus! {

/// The outcome of one query.
pub type Answer = Result<bool, LandmaskError>;

/// The land classifier: a raster of candidate cells over the shoreline rings.
/// It is built once and then only read.
#[derive(Debug)]
pub struct RoaringLandmask {
    pub mask: LandBitmapIndex,
    pub shapes: ShorelineStore,
}

/// Whether consecutive index ranges `[lo, hi)` cover `[0, len)` in order.
pub open spec fn is_partition(bounds: Seq<(usize, usize)>, len: int) -> bool {
    &&& bounds.len() == 0 ==> len == 0
    &&& bounds.len() > 0 ==> bounds[0].0 == 0 && bounds[bounds.len() - 1].1 == len
    &&& forall|j: int| 0 <= j < bounds.len() ==> #[trigger] bounds[j].0 <= bounds[j].1
    &&& forall|j: int| 0 <= j < bounds.len() - 1 ==> #[trigger] bounds[j].1 == bounds[j + 1].0
}

/// Splits `[0, len)` into at most `workers` consecutive ranges of near equal
/// size (one range where `workers` is zero).
pub fn chunk_bounds(len: usize, workers: usize) -> (b: Vec<(usize, usize)>)
    ensures
        is_partition(b@, len as int),
        len > 0 ==> forall|j: int| 0 <= j < b@.len() ==> #[trigger] b@[j].0 < b@[j].1,
        b@.len() <= if workers == 0 {
            1
        } else {
            workers as int
        },
{
    let w = if workers == 0 {
        1
    } else {
        workers
    };
    let mut b: Vec<(usize, usize)> = Vec::new();
    if len == 0 {
        return b;
    }
    let q = (len - 1) / w;
    assert(q <= len - 1) by (nonlinear_arith)
        requires
            w >= 1,
            q == (len - 1) as int / w as int,
            len >= 1,
    ;
    let size = q + 1;
    assert(w * size >= len) by (nonlinear_arith)
        requires
            w >= 1,
            q == (len - 1) as int / w as int,
            size == q + 1,
            len >= 1,
    {
        assert(len - 1 < w * q + w) by (nonlinear_arith)
            requires
                w >= 1,
                q == (len - 1) as int / w as int,
                len >= 1,
        ;
    }
    let mut lo: usize = 0;
    while lo < len
        invariant
            lo <= len,
            size >= 1,
            w >= 1,
            w * size >= len,
            lo < len ==> lo == b@.len() * size,
            b@.len() > 0 ==> (b@.len() - 1) * size < len,
            b@.len() == 0 ==> lo == 0,
            b@.len() > 0 ==> b@[0].0 == 0 && b@[b@.len() - 1].1 == lo,
            forall|j: int| 0 <= j < b@.len() ==> #[trigger] b@[j].0 < b@[j].1,
            forall|j: int| 0 <= j < b@.len() - 1 ==> #[trigger] b@[j].1 == b@[j + 1].0,
        decreases len - lo,
    {
        let hi = if len - lo < size {
            len
        } else {
            lo + size
        };
        proof {
            assert(b@.len() * size < len) by (nonlinear_arith)
                requires
                    lo == b@.len() * size,
                    lo < len,
            ;
        }
        b.push((lo, hi));
        lo = hi;
        proof {
            if lo < len {
                assert(lo == b@.len() * size) by (nonlinear_arith)
                    requires
                        lo == (b@.len() - 1) * size + size,
                ;
            }
        }
    }
    proof {
        let c = b@.len() as int;
        if c > w {
            assert((c - 1) * size >= w * size) by (nonlinear_arith)
                requires
                    c - 1 >= w,
                    size >= 1,
            ;
        }
    }
    b
}

impl RoaringLandmask {
    /// Both tiers are well formed.
    pub open spec fn wf(&self) -> bool {
        self.mask.wf() && self.shapes.wf()
    }

    /// Land at a coordinate on the globe: the raster marks its cell, and the
    /// shoreline rings put it on land.
    pub open spec fn land(&self, lon: int, lat: int) -> bool {
        self.mask.marked(lon, lat) && self.shapes.land_at(lon, lat)
    }

    /// The answer to one query: a `RangeError` off the globe, else whether the
    /// point is land.
    pub open spec fn answer(&self, lon: int, lat: int) -> Answer {
        if valid_lat(lat) {
            Ok(self.land(lon, lat))
        } else {
            Err(LandmaskError::RangeError)
        }
    }

    /// The answers for the coordinates at indices `[lo, hi)`, in order.
    pub open spec fn answers(&self, xs: Seq<i64>, ys: Seq<i64>, lo: int, hi: int) -> Seq<Answer> {
        Seq::new((hi - lo) as nat, |i: int| self.answer(xs[lo + i] as int, ys[lo + i] as int))
    }

    /// What a batch query returns: a `ShapeMismatch` where the sequences
    /// differ in length, else one answer per coordinate, in input order.
    pub open spec fn batch(&self, xs: Seq<i64>, ys: Seq<i64>) -> Result<
        Seq<Answer>,
        LandmaskError,
    > {
        if xs.len() != ys.len() {
            Err(LandmaskError::ShapeMismatch)
        } else {
            Ok(self.answers(xs, ys, 0, xs.len() as int))
        }
    }

    /// The answers of consecutive ranges, joined in order.
    pub open spec fn joined(
        &self,
        xs: Seq<i64>,
        ys: Seq<i64>,
        bounds: Seq<(usize, usize)>,
        n: nat,
    ) -> Seq<Answer>
        decreases n,
    {
        if n == 0 {
            Seq::empty()
        } else {
            self.joined(xs, ys, bounds, (n - 1) as nat) + self.answers(
                xs,
                ys,
                bounds[n - 1].0 as int,
                bounds[n - 1].1 as int,
            )
        }
    }

    /// Decodes an encoded dataset into a classifier, once, before any query.
    /// A `DataError` exactly where the data is truncated or malformed.
    pub fn new(data: &[u8]) -> (r: Result<RoaringLandmask, LandmaskError>)
        ensures
            dataset_ok(data@) ==> (r matches Ok(m) && decoded_from(m, data@)),
            !dataset_ok(data@) ==> r == Err::<RoaringLandmask, LandmaskError>(
                LandmaskError::DataError,
            ),
    {
        decode(data)
    }

    /// Composes the raster and the rings into a classifier.
    pub fn from_parts(mask: LandBitmapIndex, shapes: ShorelineStore) -> (r: RoaringLandmask)
        requires
            mask.wf(),
            shapes.wf(),
        ensures
            r.wf(),
            r.mask == mask,
            r.shapes == shapes,
    {
        RoaringLandmask { mask, shapes }
    }

    /// The grid of the raster.
    pub fn grid(&self) -> (g: GridSpec)
        ensures
            g == self.mask.grid(),
    {
        self.mask.grid_spec()
    }

    /// The width of a raster cell, in micro-degrees.
    pub fn dx(&self) -> (d: i64)
        requires
            self.wf(),
        ensures
            d == self.mask.grid().dx,
            d > 0,
    {
        self.mask.grid_spec().dx
    }

    /// The height of a raster cell, in micro-degrees.
    pub fn dy(&self) -> (d: i64)
        requires
            self.wf(),
        ensures
            d == self.mask.grid().dy,
            d > 0,
    {
        self.mask.grid_spec().dy
    }

    /// Whether a coordinate is on land. The raster answers first; the rings
    /// are read only where its cell is marked. A `RangeError` where the
    /// latitude lies outside [-90, 90] degrees.
    pub fn contains(&self, lon: i64, lat: i64) -> (r: Answer)
        requires
            self.wf(),
        ensures
            r == self.answer(lon as int, lat as int),
    {
        match self.mask.contains(lon, lat) {
            Err(e) => Err(e),
            Ok(false) => Ok(false),
            Ok(true) => self.shapes.contains(lon, lat),
        }
    }

    /// The answers for the coordinates at indices `[lo, hi)`.
    pub fn contains_range(&self, xs: &Vec<i64>, ys: &Vec<i64>, lo: usize, hi: usize) -> (r: Vec<
        Answer,
    >)
        requires
            self.wf(),
            xs@.len() == ys@.len(),
            lo <= hi <= xs@.len(),
        ensures
            r@ == self.answers(xs@, ys@, lo as int, hi as int),
    {
        let mut out: Vec<Answer> = Vec::new();
        let mut k: usize = lo;
        while k < hi
            invariant
                self.wf(),
                xs@.len() == ys@.len(),
                lo <= k <= hi <= xs@.len(),
                out@ == self.answers(xs@, ys@, lo as int, k as int),
            decreases hi - k,
        {
            let a = self.contains(xs[k], ys[k]);
            out.push(a);
            k = k + 1;
            assert(out@ =~= self.answers(xs@, ys@, lo as int, k as int));
        }
        out
    }

    /// One answer per coordinate pair, in input order; a `ShapeMismatch`, and
    /// no answers, where the sequences differ in length.
    pub fn contains_many(&self, xs: &Vec<i64>, ys: &Vec<i64>) -> (r: Result<
        Vec<Answer>,
        LandmaskError,
    >)
        requires
            self.wf(),
        ensures
            xs@.len() != ys@.len() ==> r == Err::<Vec<Answer>, LandmaskError>(
                LandmaskError::ShapeMismatch,
            ),
            xs@.len() == ys@.len() ==> (r matches Ok(v) && v@.len() == xs@.len() && forall|i: int|
                0 <= i < v@.len() ==> #[trigger] v@[i] == self.answer(xs@[i] as int, ys@[i] as int)),
            r matches Ok(v) ==> self.batch(xs@, ys@) == Ok::<Seq<Answer>, LandmaskError>(v@),
    {
        if xs.len() != ys.len() {
            return Err(LandmaskError::ShapeMismatch);
        }
        Ok(self.contains_range(xs, ys, 0, xs.len()))
    }

    /// The same answers as `contains_many`, computed range by range over a
    /// split of the input into `workers` parts, each range answered on its
    /// own and the parts joined by index.
    pub fn contains_many_par(&self, xs: &Vec<i64>, ys: &Vec<i64>, workers: usize) -> (r: Result<
        Vec<Answer>,
        LandmaskError,
    >)
        requires
            self.wf(),
        ensures
            xs@.len() != ys@.len() ==> r == Err::<Vec<Answer>, LandmaskError>(
                LandmaskError::ShapeMismatch,
            ),
            xs@.len() == ys@.len() ==> (r matches Ok(v) && v@.len() == xs@.len() && forall|i: int|
                0 <= i < v@.len() ==> #[trigger] v@[i] == self.answer(xs@[i] as int, ys@[i] as int)),
            r matches Ok(v) ==> self.batch(xs@, ys@) == Ok::<Seq<Answer>, LandmaskError>(v@),
    {
        if xs.len() != ys.len() {
            return Err(LandmaskError::ShapeMismatch);
        }
        let bounds = chunk_bounds(xs.len(), workers);
        let mut out: Vec<Answer> = Vec::new();
        let mut j: usize = 0;
        while j < bounds.len()
            invariant
                self.wf(),
                xs@.len() == ys@.len(),
                is_partition(bounds@, xs@.len() as int),
                j <= bounds@.len(),
                out@ == self.joined(xs@, ys@, bounds@, j as nat),
            decreases bounds@.len() - j,
        {
            let (lo, hi) = bounds[j];
            proof {
                Self::lemma_partition_end(bounds@, xs@.len() as int, j as int);
            }
            let mut part = self.contains_range(xs, ys, lo, hi);
            out.append(&mut part);
            j = j + 1;
        }
        proof {
            self.lemma_joined_partition(xs@, ys@, bounds@);
        }
        Ok(out)
    }

    /// Every range of a partition of `[0, len)` ends within `len`.
    proof fn lemma_partition_end(bounds: Seq<(usize, usize)>, len: int, j: int)
        requires
            is_partition(bounds, len),
            0 <= j < bounds.len(),
        ensures
            bounds[j].0 <= bounds[j].1 <= len,
        decreases bounds.len() - j,
    {
        if j < bounds.len() - 1 {
            Self::lemma_partition_end(bounds, len, j + 1);
            assert(bounds[j].1 == bounds[j + 1].0);
        }
    }

    /// Answering `[lo, mid)` and then `[mid, hi)` gives the answers of
    /// `[lo, hi)`.
    pub proof fn lemma_answers_split(&self, xs: Seq<i64>, ys: Seq<i64>, lo: int, mid: int, hi: int)
        requires
            0 <= lo <= mid <= hi,
        ensures
            self.answers(xs, ys, lo, mid) + self.answers(xs, ys, mid, hi) == self.answers(
                xs,
                ys,
                lo,
                hi,
            ),
    {
        assert(self.answers(xs, ys, lo, mid) + self.answers(xs, ys, mid, hi) =~= self.answers(
            xs,
            ys,
            lo,
            hi,
        ));
    }

    /// The first `n` ranges of a partition, answered one by one and joined,
    /// give the answers of `[0, end of range n)`.
    pub proof fn lemma_joined_prefix(
        &self,
        xs: Seq<i64>,
        ys: Seq<i64>,
        bounds: Seq<(usize, usize)>,
        n: nat,
    )
        requires
            is_partition(bounds, xs.len() as int),
            0 < n <= bounds.len(),
        ensures
            self.joined(xs, ys, bounds, n) == self.answers(xs, ys, 0, bounds[n - 1].1 as int),
        decreases n,
    {
        if n == 1 {
            assert(self.joined(xs, ys, bounds, 0) + self.answers(
                xs,
                ys,
                bounds[0].0 as int,
                bounds[0].1 as int,
            ) =~= self.answers(xs, ys, 0, bounds[0].1 as int));
        } else {
            self.lemma_joined_prefix(xs, ys, bounds, (n - 1) as nat);
            assert(bounds[n - 2].1 == bounds[n - 1].0);
            self.lemma_answers_split(
                xs,
                ys,
                0,
                bounds[n - 2].1 as int,
                bounds[n - 1].1 as int,
            );
        }
    }

    /// Splitting a batch into consecutive ranges, answering each on its own
    /// and joining the parts by index gives the serial answers, whatever the
    /// split.
    pub proof fn lemma_joined_partition(
        &self,
        xs: Seq<i64>,
        ys: Seq<i64>,
        bounds: Seq<(usize, usize)>,
    )
        requires
            is_partition(bounds, xs.len() as int),
        ensures
            self.joined(xs, ys, bounds, bounds.len()) == self.answers(
                xs,
                ys,
                0,
                xs.len() as int,
            ),
    {
        if bounds.len() == 0 {
            assert(self.answers(xs, ys, 0, xs.len() as int) =~= Seq::<Answer>::empty());
        } else {
            self.lemma_joined_prefix(xs, ys, bounds, bounds.len());
        }
    }

    /// Longitude is periodic: a coordinate and the same coordinate moved by
    /// any whole number of turns east or west get the same answer.
    pub proof fn lemma_longitude_period(&self, lon: int, lat: int, k: int)
        ensures
            self.answer(lon, lat) == self.answer(lon + TURN * k, lat),
    {
        lemma_norm_lon_period(lon, k);
    }

    /// The raster's negative is final: where the cell of a coordinate on the
    /// globe is not marked, the classifier answers water, whatever the rings
    /// hold.
    pub proof fn lemma_unmarked_is_water(&self, lon: int, lat: int)
        requires
            valid_lat(lat),
            !self.mask.marked(lon, lat),
        ensures
            self.answer(lon, lat) == Ok::<bool, LandmaskError>(false),
    {
    }

    /// Off the globe every longitude gets a `RangeError`.
    pub proof fn lemma_off_globe(&self, lon: int, lat: int)
        requires
            !valid_lat(lat),
        ensures
            self.answer(lon, lat) == Err::<bool, LandmaskError>(LandmaskError::RangeError),
    {
    }

    /// However a batch is split into consecutive ranges (as `chunk_bounds`
    /// does for any number of workers), answering the ranges on their own and
    /// joining them by index gives the serial batch answers.
    pub proof fn lemma_split_matches_serial(
        &self,
        xs: Seq<i64>,
        ys: Seq<i64>,
        bounds: Seq<(usize, usize)>,
    )
        requires
            xs.len() == ys.len(),
            is_partition(bounds, xs.len() as int),
        ensures
            self.batch(xs, ys) == Ok::<Seq<Answer>, LandmaskError>(
                self.joined(xs, ys, bounds, bounds.len()),
            ),
    {
        self.lemma_joined_partition(xs, ys, bounds);
    }
}

} // verus!
