//! The save-file header and the generation-version compatibility check.

use vstd::prelude::*;
use crate::world_generation::GENERATION_VERSION;

verus! {

/// Version of the binary save format itself (independent of the
/// world-generation version).
pub const SAVE_SCHEMA_VERSION: u32 = 1;

/// Envelope written at the start of every save file.
#[derive(Clone, Copy, Debug, PartialEq, Eq, Structural)]
pub struct SaveHeader {
    /// Version of the save-file binary layout.
    pub schema_version: u32,
    /// World-generation version the save was written with.
    pub generation_version: u32,
    /// Planetary seed of the saved world.
    pub world_seed: u64,
}

/// How a saved generation version compares with the compiled one.
#[derive(Clone, Copy, Debug, PartialEq, Eq, Structural)]
pub enum GenerationVersionCheck {
    /// The versions are equal: load normally.
    Match,
    /// The save is older: load, but warn that unvisited terrain may differ.
    SavedOlder {
        /// Version stored in the save.
        saved: u32,
        /// Version compiled into this build.
        current: u32,
    },
    /// The save is newer: the load must be refused.
    SavedNewer {
        /// Version stored in the save.
        saved: u32,
        /// Version compiled into this build.
        current: u32,
    },
}

/// The verdict for a save written with `saved` when this build runs
/// `current`.
pub open spec fn generation_check_spec(saved: u32, current: u32) -> GenerationVersionCheck {
    if saved == current {
        GenerationVersionCheck::Match
    } else if saved < current {
        GenerationVersionCheck::SavedOlder { saved, current }
    } else {
        GenerationVersionCheck::SavedNewer { saved, current }
    }
}

impl SaveHeader {
    /// A header for a fresh save of the world with seed `world_seed`.
    pub fn new(world_seed: u64) -> (h: Self)
        ensures
            h.schema_version == SAVE_SCHEMA_VERSION,
            h.generation_version == GENERATION_VERSION,
            h.world_seed == world_seed,
    {
        SaveHeader {
            schema_version: SAVE_SCHEMA_VERSION,
            generation_version: GENERATION_VERSION,
            world_seed,
        }
    }

    /// Compares the saved generation version with the compiled
    /// [`GENERATION_VERSION`].
    pub fn check_generation_version(&self) -> (r: GenerationVersionCheck)
        ensures
            r == generation_check_spec(self.generation_version, GENERATION_VERSION),
    {
        let current = GENERATION_VERSION;
        let saved = self.generation_version;
        if saved == current {
            GenerationVersionCheck::Match
        } else if saved < current {
            GenerationVersionCheck::SavedOlder { saved, current }
        } else {
            GenerationVersionCheck::SavedNewer { saved, current }
        }
    }
}

/// A header written by this build is always accepted by this build without
/// a warning.
pub proof fn lemma_fresh_header_matches(h: SaveHeader)
    requires
        h.generation_version == GENERATION_VERSION,
    ensures
        generation_check_spec(h.generation_version, GENERATION_VERSION)
            == GenerationVersionCheck::Match,
{
}

/// Exactly the saves written by a newer generator are refused, and the
/// verdict always reports the two versions it compared.
pub proof fn lemma_refusal_iff_newer(saved: u32, current: u32)
    ensures
        (generation_check_spec(saved, current) is SavedNewer) <==> saved > current,
        (generation_check_spec(saved, current) is SavedOlder) <==> saved < current,
        (generation_check_spec(saved, current) is Match) <==> saved == current,
{
}

} // verus!
