//! Land / ocean classification of geographic coordinates.
//!
//! A coarse raster of "possibly land" cells, stored as compressed per-row
//! sets of column indices, answers most queries on its own: a point whose
//! cell is not marked is open water. Points that fall in a candidate cell are decided
//! by an exact point-in-polygon test against the shoreline rings.
//!
//! Coordinates are fixed-point integers in micro-degrees (one unit is a
//! millionth of a degree), so that every step of the classification is exact.
use vstd::prelude::*;

pub mod error;
pub mod grid;
pub mod runset;
pub mod bitmap;
pub mod shapes;
pub mod landmask;
pub mod codec;

pub use error::LandmaskError;
pub use grid::GridSpec;
pub use runset::RunSet;
pub use bitmap::LandBitmapIndex;
pub use shapes::{Polygon, ShorelineStore};
pub use landmask::{chunk_bounds, Answer, RoaringLandmask};
