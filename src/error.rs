use vstd::prelude::*;

verus! {

/// The ways a query or a load can fail.
#[derive(Debug, Clone, Copy, PartialEq, Eq, Structural)]
pub enum LandmaskError {
    /// The encoded dataset is truncated or structurally invalid.
    DataError,
    /// A latitude lies outside [-90, 90] degrees.
    RangeError,
    /// Two coordinate sequences of a batch query differ in length.
    ShapeMismatch,
}

} // verus!
