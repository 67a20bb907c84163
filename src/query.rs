use vstd::prelude::*;

use crate::types::EngineError;

verus! {

/// The largest dimension that the spatial index is specialised for.
pub const MAX_SPATIAL_DIM: usize = 16;

/// Whether the spatial index can hold points of dimension `d`: it is
/// specialised for every dimension from 1 to `MAX_SPATIAL_DIM`; others are
/// left to the reference engine.
pub fn check_spatial_dimension(d: usize) -> (r: Result<usize, EngineError>)
    ensures
        1 <= d <= MAX_SPATIAL_DIM ==> r == Ok::<usize, EngineError>(d),
        !(1 <= d <= MAX_SPATIAL_DIM) ==> r == Err::<usize, EngineError>(EngineError::UnsupportedDimension),
{
    if d >= 1 && d <= MAX_SPATIAL_DIM {
        Ok(d)
    } else {
        Err(EngineError::UnsupportedDimension)
    }
}

} // verus!
