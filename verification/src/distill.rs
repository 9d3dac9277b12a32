//! Checks on distilled meaning before it reaches the vector indexes.
use vstd::prelude::*;
use crate::error::MemoryError;

verus! {

/// Accepts an embedding only at the store's vector dimension: a wrong-dimension
/// vector would corrupt the index.
pub fn check_dimension(got: usize, expected: usize) -> (r: Result<(), MemoryError>)
    ensures
        got == expected <==> r is Ok,
        got != expected ==> r == Err::<(), MemoryError>(MemoryError::DimensionMismatch { got, expected }),
{
    if got != expected {
        Err(MemoryError::DimensionMismatch { got, expected })
    } else {
        Ok(())
    }
}

} // verus!
