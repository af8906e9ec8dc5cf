//! The land raster: for each latitude band, the set of columns that may hold
//! land.
use vstd::prelude::*;

use crate::error::LandmaskError;
use crate::grid::{valid_lat, GridSpec};
use crate::runset::RunSet;

verus! {

/// Per-row compressed sets of "possibly land" columns over a grid. A cell
/// outside its row's set holds no land; a cell inside it may.
#[derive(Debug)]
pub struct LandBitmapIndex {
    grid: GridSpec,
    rows: Vec<RunSet>,
}

impl LandBitmapIndex {
    pub closed spec fn grid(&self) -> GridSpec {
        self.grid
    }

    pub closed spec fn rows(&self) -> Seq<RunSet> {
        self.rows@
    }

    /// A valid grid, one valid set per row.
    pub open spec fn wf(&self) -> bool {
        &&& self.grid().wf()
        &&& self.rows().len() == self.grid().nrows
        &&& forall|i: int| 0 <= i < self.rows().len() ==> (#[trigger] self.rows()[i]).wf()
    }

    /// Whether the cell of a coordinate on the globe is marked.
    pub open spec fn marked(&self, lon: int, lat: int) -> bool {
        self.rows()[self.grid().row_of(lat)]@.contains(self.grid().column_of(lon))
    }

    /// Puts rows of marked columns over a grid; a `DataError` where there is
    /// not one row per band of the grid.
    pub fn new(grid: GridSpec, rows: Vec<RunSet>) -> (r: Result<LandBitmapIndex, LandmaskError>)
        requires
            grid.wf(),
            forall|i: int| 0 <= i < rows@.len() ==> (#[trigger] rows@[i]).wf(),
        ensures
            rows@.len() == grid.nrows ==> (r matches Ok(m) && m.wf() && m.grid() == grid
                && m.rows() == rows@),
            rows@.len() != grid.nrows ==> r == Err::<LandBitmapIndex, LandmaskError>(
                LandmaskError::DataError,
            ),
    {
        if rows.len() as u64 != grid.nrows {
            Err(LandmaskError::DataError)
        } else {
            Ok(LandBitmapIndex { grid, rows })
        }
    }

    /// The grid that the rows are laid on.
    pub fn grid_spec(&self) -> (g: GridSpec)
        ensures
            g == self.grid(),
    {
        self.grid
    }

    /// Whether the cell of a coordinate may hold land. A `false` is final: no
    /// land lies there. A `RangeError` where the latitude is off the globe.
    pub fn contains(&self, lon: i64, lat: i64) -> (r: Result<bool, LandmaskError>)
        requires
            self.wf(),
        ensures
            valid_lat(lat as int) ==> r == Ok::<bool, LandmaskError>(
                self.marked(lon as int, lat as int),
            ),
            !valid_lat(lat as int) ==> r == Err::<bool, LandmaskError>(LandmaskError::RangeError),
    {
        match self.grid.to_cell(lon, lat) {
            Ok((row, col)) => {
                let n = self.rows.len();
                assert(row < n);
                let set = &self.rows[row as usize];
                Ok(set.contains(col))
            },
            Err(e) => Err(e),
        }
    }
}

} // verus!
