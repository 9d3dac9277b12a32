//! Rewinding the feeder after a hard reset.
use vstd::prelude::*;
use crate::error::MemoryError;

verus! {

/// Rewinds the feeder's consumer group to the earliest offset, so a hard reset
/// replays `document.completed` and re-derives the stores.
pub trait FeederRewind {
    fn rewind_to_earliest(&self) -> Result<(), MemoryError>;
}

/// The rewind used when the feeder is disabled: nothing to do.
pub struct NoopRewind;

impl FeederRewind for NoopRewind {
    fn rewind_to_earliest(&self) -> (r: Result<(), MemoryError>)
        ensures
            r is Ok,
    {
        Ok(())
    }
}

} // verus!
