//! Reset: the disposable-brain operations. A soft reset wipes the short-term
//! store only; a hard reset wipes both stores and re-seeds the curated spine,
//! guarded by a confirmation token.
use vstd::prelude::*;
use crate::error::MemoryError;
use crate::ltm::LtmRepository;
use crate::spine::{seed_spine, spine_seeded};
use crate::text::owned;

verus! {

/// A command on the `memory.command` topic.
#[derive(Debug)]
pub enum MemoryCommand {
    ResetSoft,
    ResetHard { confirm: String },
}

/// Which reset runs; `Hard` signals the caller to rewind the feeder.
#[derive(Debug, Clone, Copy, PartialEq, Eq, Structural)]
pub enum ResetKind {
    Soft,
    Hard,
}

/// Guards and performs resets.
pub struct ResetService {
    pub confirm_token: String,
}

impl ResetService {
    pub fn new(confirm_token: &str) -> (r: ResetService)
        ensures
            r.confirm_token@ == confirm_token@,
    {
        ResetService { confirm_token: owned(confirm_token) }
    }

    /// Which reset a command asks for: a soft reset is always allowed; a hard
    /// reset only with the matching confirmation token.
    pub fn authorize(&self, command: &MemoryCommand) -> (r: Result<ResetKind, MemoryError>)
        ensures
            match command {
                MemoryCommand::ResetSoft => r == Ok::<ResetKind, MemoryError>(ResetKind::Soft),
                MemoryCommand::ResetHard { confirm } => if confirm@ == self.confirm_token@ {
                    r == Ok::<ResetKind, MemoryError>(ResetKind::Hard)
                } else {
                    r == Err::<ResetKind, MemoryError>(MemoryError::ResetRefused)
                },
            },
    {
        match command {
            MemoryCommand::ResetSoft => Ok(ResetKind::Soft),
            MemoryCommand::ResetHard { confirm } => {
                if *confirm == self.confirm_token {
                    Ok(ResetKind::Hard)
                } else {
                    Err(MemoryError::ResetRefused)
                }
            },
        }
    }

    /// The long-term half of a hard reset: empties the tree and re-seeds the
    /// curated spine (the feeder regrows the leaves).
    pub fn reset_ltm<R: LtmRepository>(&self, ltm: &mut R) -> (r: Result<(), MemoryError>)
        requires
            old(ltm).inv(),
        ensures
            final(ltm).inv(),
            r is Ok ==> spine_seeded(final(ltm).model()),
            old(ltm).reliable() && old(ltm).ids_left() >= 6 ==> r is Ok,
            final(ltm).reliable() == old(ltm).reliable(),
            final(ltm).ids_left() + 6 >= old(ltm).ids_left(),
    {
        ltm.reset_store()?;
        seed_spine(ltm)?;
        Ok(())
    }
}

} // verus!
