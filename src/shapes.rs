//! Shoreline rings and the exact point-in-polygon test.
use vstd::prelude::*;

use crate::error::LandmaskError;
use crate::grid::{modulate_longitude, norm_lon, valid_lat, HALF_TURN, QUARTER_TURN};

verus! {

/// A vertex or point given as (longitude, latitude) in micro-degrees.
pub type Vertex = (i64, i64);

/// A point whose longitude lies in [-180, 180] and whose latitude lies on the
/// globe.
pub open spec fn on_globe(p: Vertex) -> bool {
    -HALF_TURN <= p.0 <= HALF_TURN && valid_lat(p.1 as int)
}

/// Whether the ray from (x, y) towards growing longitude crosses the edge
/// from `a` to `b`. An edge counts when exactly one end lies above the ray,
/// and the ray starts west of the point where the edge meets its latitude;
/// the comparison is made exactly, by cross-multiplying.
pub open spec fn edge_crosses(a: Vertex, b: Vertex, x: int, y: int) -> bool {
    if (a.1 > y) != (b.1 > y) {
        let lhs = (x - a.0) * (b.1 - a.1);
        let rhs = (y - a.1) * (b.0 - a.0);
        if b.1 > a.1 {
            lhs < rhs
        } else {
            lhs > rhs
        }
    } else {
        false
    }
}

/// The vertex after the `i`th, the ring closing back on its first.
pub open spec fn next_vertex(ring: Seq<Vertex>, i: int) -> Vertex {
    if i + 1 < ring.len() {
        ring[i + 1]
    } else {
        ring[0]
    }
}

/// How many of the first `n` edges of the ring the ray from (x, y) crosses.
pub open spec fn crossings(ring: Seq<Vertex>, x: int, y: int, n: nat) -> nat
    decreases n,
{
    if n == 0 {
        0
    } else {
        crossings(ring, x, y, (n - 1) as nat) + if edge_crosses(
            ring[n - 1],
            next_vertex(ring, n - 1),
            x,
            y,
        ) {
            1nat
        } else {
            0nat
        }
    }
}

/// Whether the ring encloses (x, y): the ray crosses it an odd number of
/// times.
pub open spec fn ring_encloses(ring: Seq<Vertex>, x: int, y: int) -> bool {
    crossings(ring, x, y, ring.len()) % 2 == 1
}

/// Whether the ray from a point on the globe crosses an edge.
fn edge_crosses_exec(a: Vertex, b: Vertex, x: i64, y: i64) -> (r: bool)
    requires
        on_globe(a),
        on_globe(b),
        on_globe((x, y)),
    ensures
        r == edge_crosses(a, b, x as int, y as int),
{
    if (a.1 > y) != (b.1 > y) {
        let dx = x - a.0;
        let dy = b.1 - a.1;
        let ey = y - a.1;
        let ex = b.0 - a.0;
        assert(-64_800_000_000_000_000 <= dx * dy <= 64_800_000_000_000_000) by (nonlinear_arith)
            requires
                -360_000_000 <= dx <= 360_000_000,
                -180_000_000 <= dy <= 180_000_000,
        ;
        assert(-64_800_000_000_000_000 <= ey * ex <= 64_800_000_000_000_000) by (nonlinear_arith)
            requires
                -360_000_000 <= ex <= 360_000_000,
                -180_000_000 <= ey <= 180_000_000,
        ;
        let lhs = dx * dy;
        let rhs = ey * ex;
        if b.1 > a.1 {
            lhs < rhs
        } else {
            lhs > rhs
        }
    } else {
        false
    }
}

/// One shoreline ring: its vertices in order (the last joined back to the
/// first), whether it is a hole cut out of the land around it, and a box
/// that holds every vertex.
#[derive(Debug)]
pub struct Polygon {
    ring: Vec<Vertex>,
    hole: bool,
    min: Vertex,
    max: Vertex,
}

impl Polygon {
    pub closed spec fn ring(&self) -> Seq<Vertex> {
        self.ring@
    }

    pub closed spec fn is_hole(&self) -> bool {
        self.hole
    }

    /// The south-west corner of the bounding box.
    pub closed spec fn min(&self) -> Vertex {
        self.min
    }

    /// The north-east corner of the bounding box.
    pub closed spec fn max(&self) -> Vertex {
        self.max
    }

    /// At least three vertices, all on the globe and inside the box.
    pub open spec fn wf(&self) -> bool {
        &&& self.ring().len() >= 3
        &&& on_globe(self.min())
        &&& on_globe(self.max())
        &&& forall|i: int|
            0 <= i < self.ring().len() ==> {
                let v = #[trigger] self.ring()[i];
                &&& on_globe(v)
                &&& self.min().0 <= v.0 <= self.max().0
                &&& self.min().1 <= v.1 <= self.max().1
            }
    }

    /// Whether (x, y) lies in the bounding box.
    pub open spec fn in_box(&self, x: int, y: int) -> bool {
        self.min().0 <= x <= self.max().0 && self.min().1 <= y <= self.max().1
    }

    /// Whether the ring covers (x, y): the point is a candidate by its box,
    /// and the ring encloses it.
    pub open spec fn covers(&self, x: int, y: int) -> bool {
        self.in_box(x, y) && ring_encloses(self.ring(), x, y)
    }

    /// What the ring adds to the land count at (x, y): one for an outer
    /// boundary that covers it, minus one for a hole that does, else nothing.
    pub open spec fn weight(&self, x: int, y: int) -> int {
        if self.covers(x, y) {
            if self.is_hole() {
                -1
            } else {
                1
            }
        } else {
            0
        }
    }

    /// Builds a ring and its bounding box; a `DataError` where it has fewer
    /// than three vertices or one lies off the globe.
    pub fn new(ring: Vec<Vertex>, hole: bool) -> (r: Result<Polygon, LandmaskError>)
        ensures
            (ring@.len() >= 3 && forall|i: int| 0 <= i < ring@.len() ==> on_globe(
                #[trigger] ring@[i],
            )) ==> (r matches Ok(p) && p.wf() && p.ring() == ring@ && p.is_hole() == hole),
            !(ring@.len() >= 3 && forall|i: int| 0 <= i < ring@.len() ==> on_globe(
                #[trigger] ring@[i],
            )) ==> r == Err::<Polygon, LandmaskError>(LandmaskError::DataError),
    {
        let n = ring.len();
        if n < 3 {
            return Err(LandmaskError::DataError);
        }
        let mut min: Vertex = ring[0];
        let mut max: Vertex = ring[0];
        let mut k: usize = 0;
        while k < n
            invariant
                n == ring@.len(),
                n >= 3,
                k <= n,
                k == 0 ==> min == ring@[0] && max == ring@[0],
                k > 0 ==> on_globe(min) && on_globe(max),
                forall|i: int|
                    0 <= i < k ==> {
                        let v = #[trigger] ring@[i];
                        &&& on_globe(v)
                        &&& min.0 <= v.0 <= max.0
                        &&& min.1 <= v.1 <= max.1
                    },
            decreases n - k,
        {
            let v = ring[k];
            if v.0 < -HALF_TURN || v.0 > HALF_TURN || v.1 < -QUARTER_TURN || v.1 > QUARTER_TURN {
                return Err(LandmaskError::DataError);
            }
            if k == 0 {
                min = v;
                max = v;
            } else {
                if v.0 < min.0 {
                    min = (v.0, min.1);
                }
                if v.1 < min.1 {
                    min = (min.0, v.1);
                }
                if v.0 > max.0 {
                    max = (v.0, max.1);
                }
                if v.1 > max.1 {
                    max = (max.0, v.1);
                }
            }
            k = k + 1;
        }
        Ok(Polygon { ring, hole, min, max })
    }

    /// Whether the ring covers a point on the globe.
    pub fn covers_point(&self, x: i64, y: i64) -> (r: bool)
        requires
            self.wf(),
            on_globe((x, y)),
        ensures
            r == self.covers(x as int, y as int),
    {
        if x < self.min.0 || x > self.max.0 || y < self.min.1 || y > self.max.1 {
            return false;
        }
        let ring = &self.ring;
        let n = ring.len();
        let mut inside = false;
        let mut k: usize = 0;
        while k < n
            invariant
                n == ring@.len(),
                n >= 3,
                k <= n,
                self.wf(),
                ring@ == self.ring(),
                on_globe((x, y)),
                inside == (crossings(ring@, x as int, y as int, k as nat) % 2 == 1),
            decreases n - k,
        {
            let a = ring[k];
            let b = if k + 1 < n {
                ring[k + 1]
            } else {
                ring[0]
            };
            assert(on_globe(ring@[k as int]));
            assert(on_globe(next_vertex(ring@, k as int)));
            if edge_crosses_exec(a, b, x, y) {
                inside = !inside;
            }
            k = k + 1;
        }
        inside
    }
}

/// The land count at (x, y) from the first `n` rings: outer boundaries that
/// cover the point, less holes that do.
pub open spec fn net_weight(polys: Seq<Polygon>, x: int, y: int, n: nat) -> int
    decreases n,
{
    if n == 0 {
        0
    } else {
        net_weight(polys, x, y, (n - 1) as nat) + polys[n - 1].weight(x, y)
    }
}

/// Every shoreline ring of the dataset. Nested rings (a lake on an island, an
/// island in a lake) combine by their signed weights.
#[derive(Debug)]
pub struct ShorelineStore {
    polys: Vec<Polygon>,
}

impl ShorelineStore {
    pub closed spec fn polys(&self) -> Seq<Polygon> {
        self.polys@
    }

    pub open spec fn wf(&self) -> bool {
        forall|i: int| 0 <= i < self.polys().len() ==> (#[trigger] self.polys()[i]).wf()
    }

    /// Whether a point on the globe is land by the rings: its longitude is made
    /// canonical, and the rings that cover it weigh more than zero in all.
    pub open spec fn land_at(&self, lon: int, lat: int) -> bool {
        net_weight(self.polys(), norm_lon(lon), lat, self.polys().len()) > 0
    }

    /// Gathers the rings.
    pub fn new(polys: Vec<Polygon>) -> (r: ShorelineStore)
        requires
            forall|i: int| 0 <= i < polys@.len() ==> (#[trigger] polys@[i]).wf(),
        ensures
            r.wf(),
            r.polys() == polys@,
    {
        ShorelineStore { polys }
    }

    /// Whether a coordinate is land by the rings; a `RangeError` where the
    /// latitude is off the globe.
    pub fn contains(&self, lon: i64, lat: i64) -> (r: Result<bool, LandmaskError>)
        requires
            self.wf(),
        ensures
            valid_lat(lat as int) ==> r == Ok::<bool, LandmaskError>(
                self.land_at(lon as int, lat as int),
            ),
            !valid_lat(lat as int) ==> r == Err::<bool, LandmaskError>(LandmaskError::RangeError),
    {
        if lat < -QUARTER_TURN || lat > QUARTER_TURN {
            return Err(LandmaskError::RangeError);
        }
        let x = modulate_longitude(lon);
        let polys = &self.polys;
        let n = polys.len();
        let mut outer: usize = 0;
        let mut holes: usize = 0;
        let mut k: usize = 0;
        while k < n
            invariant
                n == polys@.len(),
                polys@ == self.polys(),
                self.wf(),
                k <= n,
                on_globe((x, lat)),
                outer - holes == net_weight(polys@, x as int, lat as int, k as nat),
                outer + holes <= k,
            decreases n - k,
        {
            let p = &polys[k];
            if p.covers_point(x, lat) {
                if p.hole {
                    holes = holes + 1;
                } else {
                    outer = outer + 1;
                }
            }
            k = k + 1;
        }
        Ok(outer > holes)
    }
}

} // verus!
