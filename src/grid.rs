//! Mapping from coordinates to raster cells.
use vstd::arithmetic::div_mod::{
    lemma_fundamental_div_mod, lemma_fundamental_div_mod_converse, lemma_mod_multiples_vanish,
};
use vstd::prelude::*;

use crate::error::LandmaskError;

verus! {

/// One full revolution of longitude, in micro-degrees.
pub const TURN: i64 = 360_000_000;

/// Half a revolution: the antimeridian, and the span of latitudes.
pub const HALF_TURN: i64 = 180_000_000;

/// A quarter revolution: the latitude of either pole.
pub const QUARTER_TURN: i64 = 90_000_000;

/// The canonical representative of a longitude, in [-180, 180) degrees.
pub open spec fn norm_lon(lon: int) -> int {
    (lon + HALF_TURN) % (TURN as int) - HALF_TURN
}

/// Longitudes a whole number of turns apart have one canonical
/// representative.
pub proof fn lemma_norm_lon_period(lon: int, k: int)
    ensures
        norm_lon(lon + TURN * k) == norm_lon(lon),
{
    lemma_mod_multiples_vanish(k, lon + HALF_TURN, TURN as int);
    assert(TURN * k + (lon + HALF_TURN) == (lon + TURN * k) + HALF_TURN);
}

/// A latitude that lies on the globe, poles included.
pub open spec fn valid_lat(lat: int) -> bool {
    -QUARTER_TURN <= lat <= QUARTER_TURN
}

/// Moves a longitude into the range [-180, 180) degrees by whole turns.
pub fn modulate_longitude(lon: i64) -> (r: i64)
    ensures
        r as int == norm_lon(lon as int),
        -HALF_TURN <= r < HALF_TURN,
{
    let t: u64 = 360_000_000;
    let h: u64 = 180_000_000;
    let c: u64 = if lon >= 0 {
        let a = lon as u64;
        let b = a % t;
        let c = (b + h) % t;
        proof {
            let x = a as int;
            let ti = t as int;
            lemma_fundamental_div_mod(x, ti);
            lemma_fundamental_div_mod(b + h, ti);
            let q1 = x / ti;
            let q2 = (b + h) / ti;
            assert(x + h == ti * (q1 + q2) + c) by (nonlinear_arith)
                requires
                    x == ti * q1 + b,
                    b + h == ti * q2 + c,
            ;
            lemma_fundamental_div_mod_converse(x + h, ti, q1 + q2, c as int);
        }
        c
    } else {
        let a = ((-(lon + 1)) as u64) + 1;
        let b = a % t;
        let c = (h + t - b) % t;
        proof {
            let x = a as int;
            let ti = t as int;
            lemma_fundamental_div_mod(x, ti);
            lemma_fundamental_div_mod(h + ti - b, ti);
            let q1 = x / ti;
            let q2 = (h + ti - b) / ti;
            assert(-x + h == ti * (q2 - q1 - 1) + c) by (nonlinear_arith)
                requires
                    x == ti * q1 + b,
                    h + ti - b == ti * q2 + c,
            ;
            lemma_fundamental_div_mod_converse(-x + h, ti, q2 - q1 - 1, c as int);
        }
        c
    };
    c as i64 - 180_000_000
}

/// The geometry of the land raster: its origin, its cell size, and how many
/// columns and rows of cells cover the globe. Lengths are in micro-degrees.
#[derive(Debug, Clone, Copy)]
pub struct GridSpec {
    pub lon0: i64,
    pub lat0: i64,
    pub dx: i64,
    pub dy: i64,
    pub ncols: u64,
    pub nrows: u64,
}

impl GridSpec {
    /// Positive cells whose columns span one turn and whose rows span pole to
    /// pole, with the origin on the globe.
    pub open spec fn wf(&self) -> bool {
        &&& self.dx > 0
        &&& self.dy > 0
        &&& self.ncols * self.dx == TURN
        &&& self.nrows * self.dy == HALF_TURN
        &&& -HALF_TURN <= self.lon0 <= HALF_TURN
        &&& -QUARTER_TURN <= self.lat0 <= QUARTER_TURN
    }

    /// The column of a longitude: whole cells east of the origin, after the
    /// longitude is made canonical, wrapped around the globe.
    pub open spec fn column_of(&self, lon: int) -> int {
        ((norm_lon(lon) - self.lon0) / (self.dx as int)) % (self.ncols as int)
    }

    /// The row of a latitude: whole cells north of the origin, clamped into
    /// the raster.
    pub open spec fn row_of(&self, lat: int) -> int {
        let q = (lat - self.lat0) / (self.dy as int);
        if q < 0 {
            0
        } else if q >= self.nrows {
            self.nrows - 1
        } else {
            q
        }
    }

    /// Builds a grid, or reports a `DataError` where the values do not
    /// describe a raster over the whole globe.
    pub fn new(lon0: i64, lat0: i64, dx: i64, dy: i64, ncols: u64, nrows: u64) -> (r: Result<
        GridSpec,
        LandmaskError,
    >)
        ensures
            match r {
                Ok(g) => g.wf() && g == (GridSpec { lon0, lat0, dx, dy, ncols, nrows }),
                Err(e) => e == LandmaskError::DataError && !(GridSpec {
                    lon0,
                    lat0,
                    dx,
                    dy,
                    ncols,
                    nrows,
                }).wf(),
            },
    {
        if dx <= 0 || dy <= 0 || lon0 < -HALF_TURN || lon0 > HALF_TURN || lat0 < -QUARTER_TURN
            || lat0 > QUARTER_TURN || ncols == 0 || nrows == 0 || ncols > TURN as u64 || nrows
            > HALF_TURN as u64 {
            proof {
                if dx > 0 && dy > 0 && (ncols == 0 || ncols > TURN as u64) {
                    assert(ncols * dx != TURN) by (nonlinear_arith)
                        requires
                            dx > 0,
                            ncols == 0 || ncols > TURN,
                    ;
                }
                if dx > 0 && dy > 0 && (nrows == 0 || nrows > HALF_TURN as u64) {
                    assert(nrows * dy != HALF_TURN) by (nonlinear_arith)
                        requires
                            dy > 0,
                            nrows == 0 || nrows > HALF_TURN,
                    ;
                }
            }
            return Err(LandmaskError::DataError);
        }
        let cw = ncols.checked_mul(dx as u64);
        let ch = nrows.checked_mul(dy as u64);
        match (cw, ch) {
            (Some(w), Some(h)) => {
                if w == TURN as u64 && h == HALF_TURN as u64 {
                    Ok(GridSpec { lon0, lat0, dx, dy, ncols, nrows })
                } else {
                    Err(LandmaskError::DataError)
                }
            },
            _ => {
                proof {
                    if cw.is_none() {
                        assert(ncols * dx > TURN) by (nonlinear_arith)
                            requires
                                ncols * dx > u64::MAX,
                        ;
                    }
                    if ch.is_none() {
                        assert(nrows * dy > HALF_TURN) by (nonlinear_arith)
                            requires
                                nrows * dy > u64::MAX,
                        ;
                    }
                }
                Err(LandmaskError::DataError)
            },
        }
    }

    /// The column of a longitude.
    pub fn column(&self, lon: i64) -> (c: u64)
        requires
            self.wf(),
        ensures
            c as int == self.column_of(lon as int),
            c < self.ncols,
    {
        let n = modulate_longitude(lon);
        let d = (n - self.lon0 + TURN) as u64;
        let dx = self.dx as u64;
        let q = d / dx;
        let c = q % self.ncols;
        proof {
            let e = n - self.lon0;
            let dxi = self.dx as int;
            let nc = self.ncols as int;
            lemma_fundamental_div_mod(e, dxi);
            lemma_fundamental_div_mod(d as int, dxi);
            let q0 = e / dxi;
            let r0 = e % dxi;
            assert(d == dxi * (q0 + nc) + r0) by (nonlinear_arith)
                requires
                    e == dxi * q0 + r0,
                    d == e + TURN,
                    nc * dxi == TURN,
            ;
            lemma_fundamental_div_mod_converse(d as int, dxi, q0 + nc, r0);
            lemma_fundamental_div_mod(q0, nc);
            let q3 = q0 / nc;
            let r3 = q0 % nc;
            assert(q0 + nc == nc * (q3 + 1) + r3) by (nonlinear_arith)
                requires
                    q0 == nc * q3 + r3,
            ;
            lemma_fundamental_div_mod(q as int, nc);
            lemma_fundamental_div_mod_converse(q0 + nc, nc, q3 + 1, r3);
        }
        c
    }

    /// The row of a latitude on the globe.
    pub fn row(&self, lat: i64) -> (r: u64)
        requires
            self.wf(),
            valid_lat(lat as int),
        ensures
            r as int == self.row_of(lat as int),
            r < self.nrows,
    {
        let ghost dyi = self.dy as int;
        if lat < self.lat0 {
            proof {
                let x = lat - self.lat0;
                lemma_fundamental_div_mod(x, dyi);
                let q = x / dyi;
                assert(q < 0) by (nonlinear_arith)
                    requires
                        x == dyi * q + x % dyi,
                        0 <= x % dyi,
                        x < 0,
                        dyi > 0,
                ;
            }
            0
        } else {
            let q = (lat - self.lat0) as u64 / self.dy as u64;
            if q >= self.nrows {
                self.nrows - 1
            } else {
                q
            }
        }
    }

    /// The (row, column) cell of a coordinate, or a `RangeError` where the
    /// latitude lies off the globe.
    pub fn to_cell(&self, lon: i64, lat: i64) -> (r: Result<(u64, u64), LandmaskError>)
        requires
            self.wf(),
        ensures
            valid_lat(lat as int) ==> (r matches Ok((row, col)) && row == self.row_of(lat as int)
                && col == self.column_of(lon as int)),
            !valid_lat(lat as int) ==> r == Err::<(u64, u64), LandmaskError>(
                LandmaskError::RangeError,
            ),
            r matches Ok((row, col)) ==> row < self.nrows && col < self.ncols,
    {
        if lat < -QUARTER_TURN || lat > QUARTER_TURN {
            Err(LandmaskError::RangeError)
        } else {
            Ok((self.row(lat), self.column(lon)))
        }
    }
}

} // verus!
