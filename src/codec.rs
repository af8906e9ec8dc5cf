//! The binary layout of the landmask dataset, all integers little-endian:
//!
//! - the magic bytes `RLMK` and a `u32` format version, which is 1;
//! - the grid: `lon0`, `lat0`, `dx`, `dy` as `i64`, `ncols`, `nrows` as `u64`;
//! - for each of the `nrows` rows: a `u32` run count, then per run its start
//!   and end column as two `u32`;
//! - a `u32` ring count, then per ring: a `u8` that is 1 for a hole and 0 for
//!   an outer boundary, a `u32` vertex count, and per vertex its longitude
//!   and latitude as two `i32` micro-degree values;
//! - nothing after the last ring.
use vstd::prelude::*;

use crate::bitmap::LandBitmapIndex;
use crate::error::LandmaskError;
use crate::grid::GridSpec;
use crate::landmask::RoaringLandmask;
use crate::runset::{runs_wf, RunSet};
use crate::shapes::{on_globe, Polygon, ShorelineStore, Vertex};

verus! {

/// The format version this decoder reads.
pub const FORMAT_VERSION: u32 = 1;

/// Bytes before the first row: magic, version and grid.
pub const HEADER_LEN: usize = 56;

/// The unsigned value of the four bytes at `p`, least significant first.
pub open spec fn u32_le(b: Seq<u8>, p: int) -> int {
    b[p] + b[p + 1] * 0x100 + b[p + 2] * 0x1_0000 + b[p + 3] * 0x100_0000
}

/// The unsigned value of the eight bytes at `p`, least significant first.
pub open spec fn u64_le(b: Seq<u8>, p: int) -> int {
    u32_le(b, p) + u32_le(b, p + 4) * 0x1_0000_0000
}

/// The two's complement value of the eight bytes at `p`.
pub open spec fn i64_le(b: Seq<u8>, p: int) -> int {
    let u = u64_le(b, p);
    if u >= 0x8000_0000_0000_0000 {
        u - 0x1_0000_0000_0000_0000
    } else {
        u
    }
}

/// The two's complement value of the four bytes at `p`.
pub open spec fn i32_le(b: Seq<u8>, p: int) -> int {
    let u = u32_le(b, p);
    if u >= 0x8000_0000 {
        u - 0x1_0000_0000
    } else {
        u
    }
}

/// The grid that a header describes.
pub open spec fn header_grid(b: Seq<u8>) -> GridSpec {
    GridSpec {
        lon0: i64_le(b, 8) as i64,
        lat0: i64_le(b, 16) as i64,
        dx: i64_le(b, 24) as i64,
        dy: i64_le(b, 32) as i64,
        ncols: u64_le(b, 40) as u64,
        nrows: u64_le(b, 48) as u64,
    }
}

/// Whether the data opens with a complete header of this format version
/// whose grid covers the globe.
pub open spec fn header_ok(b: Seq<u8>) -> bool {
    &&& b.len() >= HEADER_LEN
    &&& b[0] == 0x52u8 && b[1] == 0x4cu8 && b[2] == 0x4du8 && b[3] == 0x4bu8
    &&& u32_le(b, 4) == FORMAT_VERSION
    &&& header_grid(b).wf()
}

/// The `u32` at `p`, where four bytes remain.
fn read_u32(data: &[u8], p: usize) -> (r: Option<u32>)
    ensures
        p + 4 <= data@.len() ==> r == Some(u32_le(data@, p as int) as u32),
        p + 4 > data@.len() ==> r is None,
{
    if p > data.len() || data.len() - p < 4 {
        return None;
    }
    let v = data[p] as u32 + data[p + 1] as u32 * 0x100 + data[p + 2] as u32 * 0x1_0000
        + data[p + 3] as u32 * 0x100_0000;
    Some(v)
}

/// The `u64` at `p`, where eight bytes remain.
fn read_u64(data: &[u8], p: usize) -> (r: Option<u64>)
    ensures
        p + 8 <= data@.len() ==> r == Some(u64_le(data@, p as int) as u64),
        p + 8 > data@.len() ==> r is None,
{
    if p > data.len() || data.len() - p < 8 {
        return None;
    }
    let lo = read_u32(data, p);
    let hi = read_u32(data, p + 4);
    match (lo, hi) {
        (Some(lo), Some(hi)) => Some(lo as u64 + hi as u64 * 0x1_0000_0000),
        _ => None,
    }
}

/// The `i64` at `p`, where eight bytes remain.
fn read_i64(data: &[u8], p: usize) -> (r: Option<i64>)
    ensures
        p + 8 <= data@.len() ==> r == Some(i64_le(data@, p as int) as i64),
        p + 8 > data@.len() ==> r is None,
{
    match read_u64(data, p) {
        Some(u) => {
            if u >= 0x8000_0000_0000_0000 {
                Some((u - 0x8000_0000_0000_0000) as i64 + i64::MIN)
            } else {
                Some(u as i64)
            }
        },
        None => None,
    }
}

/// The `i32` at `p`, where four bytes remain, widened.
fn read_i32(data: &[u8], p: usize) -> (r: Option<i64>)
    ensures
        p + 4 <= data@.len() ==> r == Some(i32_le(data@, p as int) as i64),
        p + 4 > data@.len() ==> r is None,
{
    match read_u32(data, p) {
        Some(u) => {
            if u >= 0x8000_0000 {
                Some(u as i64 - 0x1_0000_0000)
            } else {
                Some(u as i64)
            }
        },
        None => None,
    }
}

/// The header's grid, or a `DataError` where the header is not a valid one.
pub fn decode_header(data: &[u8]) -> (r: Result<GridSpec, LandmaskError>)
    ensures
        header_ok(data@) ==> r == Ok::<GridSpec, LandmaskError>(header_grid(data@)),
        !header_ok(data@) ==> r == Err::<GridSpec, LandmaskError>(LandmaskError::DataError),
{
    if data.len() < HEADER_LEN {
        return Err(LandmaskError::DataError);
    }
    if data[0] != 0x52u8 || data[1] != 0x4cu8 || data[2] != 0x4du8 || data[3] != 0x4bu8 {
        return Err(LandmaskError::DataError);
    }
    let version = read_u32(data, 4);
    let lon0 = read_i64(data, 8);
    let lat0 = read_i64(data, 16);
    let dx = read_i64(data, 24);
    let dy = read_i64(data, 32);
    let ncols = read_u64(data, 40);
    let nrows = read_u64(data, 48);
    match (version, lon0, lat0, dx, dy, ncols, nrows) {
        (Some(v), Some(lon0), Some(lat0), Some(dx), Some(dy), Some(ncols), Some(nrows)) => {
            if v != FORMAT_VERSION {
                return Err(LandmaskError::DataError);
            }
            GridSpec::new(lon0, lat0, dx, dy, ncols, nrows)
        },
        _ => Err(LandmaskError::DataError),
    }
}

/// Where the row encoded at `p` ends.
pub open spec fn row_end(b: Seq<u8>, p: int) -> int {
    p + 4 + 8 * u32_le(b, p)
}

/// The runs of the row encoded at `p`.
pub open spec fn row_runs(b: Seq<u8>, p: int) -> Seq<(u64, u64)> {
    Seq::new(
        u32_le(b, p) as nat,
        |i: int| (u32_le(b, p + 4 + 8 * i) as u64, u32_le(b, p + 8 + 8 * i) as u64),
    )
}

/// Whether a complete row of valid runs is encoded at `p`.
pub open spec fn row_ok(b: Seq<u8>, p: int) -> bool {
    p + 4 <= b.len() && row_end(b, p) <= b.len() && runs_wf(row_runs(b, p))
}

/// The row at `p`: its runs as a set, and where the next item starts.
fn decode_row(data: &[u8], p: usize) -> (r: Result<(RunSet, usize), LandmaskError>)
    ensures
        row_ok(data@, p as int) ==> (r matches Ok((s, q)) && s.wf() && s.runs() == row_runs(
            data@,
            p as int,
        ) && q == row_end(data@, p as int)),
        !row_ok(data@, p as int) ==> r == Err::<(RunSet, usize), LandmaskError>(
            LandmaskError::DataError,
        ),
{
    let n = data.len();
    let count = match read_u32(data, p) {
        Some(c) => c,
        None => return Err(LandmaskError::DataError),
    };
    let ghost b = data@;
    let mut pos: usize = p + 4;
    let mut runs: Vec<(u64, u64)> = Vec::new();
    let mut i: u32 = 0;
    while i < count
        invariant
            n == data@.len(),
            b == data@,
            p + 4 <= n,
            count == u32_le(b, p as int),
            i <= count,
            pos == p + 4 + 8 * i,
            pos <= n,
            runs@ == row_runs(b, p as int).subrange(0, i as int),
        decreases count - i,
    {
        let start = match read_u32(data, pos) {
            Some(v) => v,
            None => return Err(LandmaskError::DataError),
        };
        assert(pos + 4 <= n);
        let end = match read_u32(data, pos + 4) {
            Some(v) => v,
            None => return Err(LandmaskError::DataError),
        };
        runs.push((start as u64, end as u64));
        pos = pos + 8;
        i = i + 1;
        assert(runs@ =~= row_runs(b, p as int).subrange(0, i as int));
    }
    assert(runs@ =~= row_runs(b, p as int));
    match RunSet::from_runs(runs) {
        Ok(s) => Ok((s, pos)),
        Err(e) => Err(e),
    }
}

/// Where the ring encoded at `p` ends.
pub open spec fn ring_end(b: Seq<u8>, p: int) -> int {
    p + 5 + 8 * u32_le(b, p + 1)
}

/// The vertices of the ring encoded at `p`.
pub open spec fn ring_vertices(b: Seq<u8>, p: int) -> Seq<Vertex> {
    Seq::new(
        u32_le(b, p + 1) as nat,
        |i: int| (i32_le(b, p + 5 + 8 * i) as i64, i32_le(b, p + 9 + 8 * i) as i64),
    )
}

/// Whether a complete, valid ring is encoded at `p`.
pub open spec fn ring_ok(b: Seq<u8>, p: int) -> bool {
    &&& p + 5 <= b.len()
    &&& b[p] <= 1
    &&& ring_end(b, p) <= b.len()
    &&& ring_vertices(b, p).len() >= 3
    &&& forall|i: int| 0 <= i < ring_vertices(b, p).len() ==> on_globe(#[trigger] ring_vertices(b, p)[i])
}

/// The ring at `p`, and where the next item starts.
fn decode_ring(data: &[u8], p: usize) -> (r: Result<(Polygon, usize), LandmaskError>)
    ensures
        ring_ok(data@, p as int) ==> (r matches Ok((poly, q)) && poly.wf() && poly.ring()
            == ring_vertices(data@, p as int) && poly.is_hole() == (data@[p as int] == 1)
            && q == ring_end(data@, p as int)),
        !ring_ok(data@, p as int) ==> r == Err::<(Polygon, usize), LandmaskError>(
            LandmaskError::DataError,
        ),
{
    let n = data.len();
    if p >= n {
        return Err(LandmaskError::DataError);
    }
    let flag = data[p];
    if flag > 1 {
        return Err(LandmaskError::DataError);
    }
    let count = match read_u32(data, p + 1) {
        Some(c) => c,
        None => return Err(LandmaskError::DataError),
    };
    let ghost b = data@;
    let mut pos: usize = p + 5;
    let mut ring: Vec<Vertex> = Vec::new();
    let mut i: u32 = 0;
    while i < count
        invariant
            n == data@.len(),
            b == data@,
            p + 5 <= n,
            count == u32_le(b, p + 1),
            i <= count,
            pos == p + 5 + 8 * i,
            pos <= n,
            ring@ == ring_vertices(b, p as int).subrange(0, i as int),
        decreases count - i,
    {
        let lon = match read_i32(data, pos) {
            Some(v) => v,
            None => return Err(LandmaskError::DataError),
        };
        assert(pos + 4 <= n);
        let lat = match read_i32(data, pos + 4) {
            Some(v) => v,
            None => return Err(LandmaskError::DataError),
        };
        ring.push((lon, lat));
        pos = pos + 8;
        i = i + 1;
        assert(ring@ =~= ring_vertices(b, p as int).subrange(0, i as int));
    }
    assert(ring@ =~= ring_vertices(b, p as int));
    match Polygon::new(ring, flag == 1) {
        Ok(poly) => Ok((poly, pos)),
        Err(e) => Err(e),
    }
}

/// Where the `k`th row starts: the rows follow the header one after another.
pub open spec fn row_start(b: Seq<u8>, k: nat) -> int
    decreases k,
{
    if k == 0 {
        HEADER_LEN as int
    } else {
        row_end(b, row_start(b, (k - 1) as nat))
    }
}

/// Whether the first `n` rows are complete and valid.
pub open spec fn rows_ok(b: Seq<u8>, n: nat) -> bool {
    forall|k: nat| k < n ==> row_ok(b, #[trigger] row_start(b, k))
}

/// Where the ring count stands: after the last row.
pub open spec fn rings_at(b: Seq<u8>) -> int {
    row_start(b, header_grid(b).nrows as nat)
}

/// How many rings the data holds.
pub open spec fn ring_count(b: Seq<u8>) -> int {
    u32_le(b, rings_at(b))
}

/// Where the `j`th ring starts: the rings follow their count one after
/// another.
pub open spec fn ring_start(b: Seq<u8>, j: nat) -> int
    decreases j,
{
    if j == 0 {
        rings_at(b) + 4
    } else {
        ring_end(b, ring_start(b, (j - 1) as nat))
    }
}

/// Whether the first `n` rings are complete and valid.
pub open spec fn rings_ok(b: Seq<u8>, n: nat) -> bool {
    forall|j: nat| j < n ==> ring_ok(b, #[trigger] ring_start(b, j))
}

/// Whether the data is a complete, valid dataset: a valid header, one valid
/// row per band of its grid, a ring count, that many valid rings, and
/// nothing after them.
pub open spec fn dataset_ok(b: Seq<u8>) -> bool {
    &&& header_ok(b)
    &&& rows_ok(b, header_grid(b).nrows as nat)
    &&& rings_at(b) + 4 <= b.len()
    &&& rings_ok(b, ring_count(b) as nat)
    &&& ring_start(b, ring_count(b) as nat) == b.len()
}

/// Whether a classifier holds what a valid dataset encodes: the grid of its
/// header, the runs of each row and the vertices and kind of each ring, in
/// the order they are stored.
pub open spec fn decoded_from(m: RoaringLandmask, b: Seq<u8>) -> bool {
    &&& m.wf()
    &&& m.mask.grid() == header_grid(b)
    &&& forall|k: nat|
        k < m.mask.rows().len() ==> (#[trigger] m.mask.rows()[k as int]).runs() == row_runs(
            b,
            row_start(b, k),
        )
    &&& m.shapes.polys().len() == ring_count(b)
    &&& forall|j: nat|
        j < m.shapes.polys().len() ==> (#[trigger] m.shapes.polys()[j as int]).ring()
            == ring_vertices(b, ring_start(b, j)) && m.shapes.polys()[j as int].is_hole() == (b[ring_start(b, j)] == 1)
}

/// Decodes a whole dataset into a classifier: the grid of its header, the
/// runs of each row and the vertices of each ring, in the order they are
/// stored. A `DataError` exactly where the data is not a complete, valid
/// dataset.
pub fn decode(data: &[u8]) -> (r: Result<RoaringLandmask, LandmaskError>)
    ensures
        dataset_ok(data@) ==> (r matches Ok(m) && decoded_from(m, data@)),
        !dataset_ok(data@) ==> r == Err::<RoaringLandmask, LandmaskError>(
            LandmaskError::DataError,
        ),
{
    let ghost b = data@;
    let grid = match decode_header(data) {
        Ok(g) => g,
        Err(e) => return Err(e),
    };
    let mut pos: usize = HEADER_LEN;
    let mut rows: Vec<RunSet> = Vec::new();
    let mut k: u64 = 0;
    while k < grid.nrows
        invariant
            b == data@,
            header_ok(b),
            grid == header_grid(b),
            grid.wf(),
            k <= grid.nrows,
            pos <= data@.len(),
            pos == row_start(b, k as nat),
            rows_ok(b, k as nat),
            rows@.len() == k,
            forall|i: int| 0 <= i < rows@.len() ==> (#[trigger] rows@[i]).wf(),
            forall|t: nat| t < k ==> (#[trigger] rows@[t as int]).runs() == row_runs(b, row_start(b, t)),
        decreases grid.nrows - k,
    {
        match decode_row(data, pos) {
            Ok((row, next)) => {
                proof {
                    assert(row_ok(b, row_start(b, k as nat)));
                }
                rows.push(row);
                pos = next;
            },
            Err(e) => {
                proof {
                    assert(!row_ok(b, row_start(b, k as nat)));
                }
                return Err(e);
            },
        }
        k = k + 1;
        proof {
            assert(pos == row_start(b, k as nat));
            assert forall|t: nat| t < k implies row_ok(b, #[trigger] row_start(b, t)) by {
                if t < k - 1 {
                    assert(rows_ok(b, (k - 1) as nat));
                }
            }
        }
    }
    let mask = match LandBitmapIndex::new(grid, rows) {
        Ok(m) => m,
        Err(e) => return Err(e),
    };
    let count = match read_u32(data, pos) {
        Some(c) => c,
        None => return Err(LandmaskError::DataError),
    };
    assert(pos + 4 <= data.len());
    pos = pos + 4;
    let mut polys: Vec<Polygon> = Vec::new();
    let mut j: u32 = 0;
    while j < count
        invariant
            b == data@,
            count == ring_count(b),
            j <= count,
            pos <= data@.len(),
            pos == ring_start(b, j as nat),
            rings_ok(b, j as nat),
            polys@.len() == j,
            forall|i: int| 0 <= i < polys@.len() ==> (#[trigger] polys@[i]).wf(),
            forall|t: nat|
                t < j ==> (#[trigger] polys@[t as int]).ring() == ring_vertices(b, ring_start(b, t))
                    && polys@[t as int].is_hole() == (b[ring_start(b, t)] == 1),
        decreases count - j,
    {
        match decode_ring(data, pos) {
            Ok((poly, next)) => {
                polys.push(poly);
                pos = next;
            },
            Err(e) => {
                proof {
                    assert(!ring_ok(b, ring_start(b, j as nat)));
                }
                return Err(e);
            },
        }
        j = j + 1;
        proof {
            assert(pos == ring_start(b, j as nat));
            assert forall|t: nat| t < j implies ring_ok(b, #[trigger] ring_start(b, t)) by {
                if t < j - 1 {
                    assert(rings_ok(b, (j - 1) as nat));
                }
            }
        }
    }
    if pos != data.len() {
        return Err(LandmaskError::DataError);
    }
    Ok(RoaringLandmask::from_parts(mask, ShorelineStore::new(polys)))
}

} // verus!
