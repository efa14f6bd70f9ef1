//! Plain-data snapshots that world mutations carry into the write-ahead
//! log.

use vstd::prelude::*;

verus! {

/// The next id the player-added object counter will assign; persisted so
/// ids stay unique across sessions.
#[derive(Clone, Copy, Debug, PartialEq, Eq, Structural)]
pub struct PlayerAddedIdCounterSnapshot {
    /// The next id to assign.
    pub next_id: u64,
}

/// Decay bookkeeping of one world modification.
#[derive(Clone, Copy, Debug, PartialEq, Eq, Structural)]
pub struct ModificationDecayMeta {
    /// Id of the annotated modification.
    pub modification_id: u64,
    /// Eviction tier: 1 low, 2 medium, 3 high; lower tiers are evicted first.
    pub weight_tier: u8,
    /// Creation time, in seconds since the Unix epoch.
    pub created_at: u64,
    /// The protecting anchor nearest to the modification, if any.
    pub nearest_anchor_id: Option<u64>,
}

/// A chunk's position on a planet's surface grid.
#[derive(Clone, Copy, Debug, PartialEq, Eq, Structural, Hash)]
pub struct ChunkCoord {
    /// Grid column.
    pub x: i32,
    /// Grid row.
    pub z: i32,
}

/// The identity of one object world generation placed.
#[derive(Clone, Debug, PartialEq, Eq, Hash)]
pub struct GeneratedObjectId {
    /// Seed of the planet.
    pub planet_seed: u64,
    /// Chunk the object was generated in.
    pub chunk_coord: ChunkCoord,
    /// Key of the object kind, such as `mineral_iron`.
    pub object_kind_key: String,
    /// Index of the candidate placement within the chunk.
    pub local_candidate_index: u32,
    /// Version of the generator that placed it.
    pub generator_version: u32,
}

/// The generated objects the player removed, per chunk: each chunk listed
/// once, with the removed objects of that chunk.
#[derive(Clone, Debug)]
pub struct ChunkRemovalsSnapshot {
    /// Per chunk, the ids of the objects removed from it.
    pub removed_by_chunk: Vec<(ChunkCoord, Vec<GeneratedObjectId>)>,
}

impl ChunkRemovalsSnapshot {
    /// Each chunk is listed once, as in a map from chunk to removed ids.
    pub open spec fn chunks_distinct(&self) -> bool {
        forall|i: int, j: int|
            0 <= i < j < self.removed_by_chunk@.len() ==> self.removed_by_chunk@[i].0
                != self.removed_by_chunk@[j].0
    }
}

} // verus!
